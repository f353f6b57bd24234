//! Small verified helpers on strings and sequences of strings.
use vstd::prelude::*;

verus! {

/// Membership after a push: the old members and the pushed value.
pub proof fn lemma_push_contains<A>(t: Seq<A>, c: A, b: A)
    ensures
        t.push(c).contains(b) <==> (t.contains(b) || c == b),
{
    if t.push(c).contains(b) {
        let m = choose|m: int| 0 <= m < t.push(c).len() && t.push(c)[m] == b;
        if m < t.len() {
            assert(t[m] == b);
        }
    }
    if t.contains(b) {
        let m = choose|m: int| 0 <= m < t.len() && t[m] == b;
        assert(t.push(c)[m] == b);
    }
    if c == b {
        assert(t.push(c)[t.len() as int] == b);
    }
}

/// Owned copies of borrowed strings, in order.
pub(crate) fn owned_strings(strs: &Vec<&str>) -> (res: Vec<String>)
    ensures
        res.deep_view() == strs.deep_view(),
{
    let mut res: Vec<String> = Vec::new();
    for i in 0..strs.len()
        invariant
            res.len() == i,
            i <= strs.len(),
            forall|j: int| 0 <= j < i ==> #[trigger] res@[j]@ == strs@[j]@,
    {
        res.push(strs[i].to_string());
    }
    assert(res.deep_view() =~= strs.deep_view());
    res
}

/// A copy of a vector of strings.
pub(crate) fn copy_strings(v: &Vec<String>) -> (res: Vec<String>)
    ensures
        res.deep_view() == v.deep_view(),
{
    let res = v.clone();
    assert forall|i| 0 <= i < res.len() implies res.deep_view()[i] == v.deep_view()[i] by {
        assert(vstd::pervasive::cloned(v@[i], res@[i]));
    }
    assert(res.deep_view() =~= v.deep_view());
    res
}

/// Whether `v` holds a string equal to `x`.
pub(crate) fn contains_string(v: &Vec<String>, x: &String) -> (found: bool)
    ensures
        found == v.deep_view().contains(x@),
{
    let mut i: usize = 0;
    while i < v.len()
        invariant
            i <= v.len(),
            forall|j: int| 0 <= j < i ==> #[trigger] v@[j]@ != x@,
        decreases v.len() - i,
    {
        if v[i] == *x {
            assert(v.deep_view()[i as int] == x@);
            return true;
        }
        i = i + 1;
    }
    assert forall|j: int| 0 <= j < v.deep_view().len() implies v.deep_view()[j] != x@ by {
        assert(v.deep_view()[j] == v@[j]@);
    }
    false
}

/// A copy of an optional string.
pub(crate) fn copy_opt_string(o: &Option<String>) -> (res: Option<String>)
    ensures
        res.deep_view() == o.deep_view(),
{
    match o {
        Some(s) => Some(s.clone()),
        None => None,
    }
}

/// The distinct strings of `v`, each once, in order of first appearance.
pub(crate) fn distinct_strings(v: &Vec<String>) -> (d: Vec<String>)
    ensures
        d.deep_view().no_duplicates(),
        d.deep_view().to_set() == v.deep_view().to_set(),
        d.deep_view().len() == v.deep_view().to_set().len(),
{
    let mut d: Vec<String> = Vec::new();
    for i in 0..v.len()
        invariant
            d.deep_view().no_duplicates(),
            forall|x: Seq<char>| #[trigger] d.deep_view().contains(x) <==> v.deep_view().take(i as int).contains(x),
    {
        let ghost before = d.deep_view();
        assert(v.deep_view().take(i + 1) =~= v.deep_view().take(i as int).push(v[i as int]@));
        if !contains_string(&d, &v[i]) {
            d.push(v[i].clone());
            proof {
                assert(d.deep_view() =~= before.push(v[i as int]@));
                assert forall|a: int, b: int| 0 <= a < d.deep_view().len() && 0 <= b < d.deep_view().len() && a != b
                    implies d.deep_view()[a] != d.deep_view()[b] by {
                    if a < before.len() && b < before.len() {
                    } else if a < before.len() {
                        assert(before.contains(before[a]));
                    } else {
                        assert(before.contains(before[b]));
                    }
                }
            }
        }
        proof {
            assert forall|x: Seq<char>| #[trigger] d.deep_view().contains(x) <==> v.deep_view().take(i + 1).contains(x) by {
                lemma_push_contains(v.deep_view().take(i as int), v[i as int]@, x);
                lemma_push_contains(before, v[i as int]@, x);
            }
        }
    }
    proof {
        assert(v.deep_view().take(v.len() as int) =~= v.deep_view());
        assert(d.deep_view().to_set() =~= v.deep_view().to_set());
        d.deep_view().unique_seq_to_set();
    }
    d
}


} // verus!
