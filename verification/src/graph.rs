//! The link graph of a node map, walks through it, and the facts about walks
//! that breadth-first routing rests on.
use vstd::prelude::*;
use crate::node_map::{NodesView, has_key};

verus! {

/// Some node of `s` whose id is `a` lists `b` among its children.
pub open spec fn lists_child(s: NodesView, a: Seq<char>, b: Seq<char>) -> bool {
    exists|i: int| #![trigger s[i]] 0 <= i < s.len() && s[i].1.id == a && s[i].1.children_ids.contains(b)
}

/// Some node of `s` has id `a`.
pub open spec fn has_id(s: NodesView, a: Seq<char>) -> bool {
    exists|i: int| #![trigger s[i]] 0 <= i < s.len() && s[i].1.id == a
}

/// `a` and `b` are linked: a node with id `a` lists `b` as a child and `b` is
/// a key of the map, or the other way round. Links are undirected.
pub open spec fn adjacent(s: NodesView, a: Seq<char>, b: Seq<char>) -> bool {
    ||| lists_child(s, a, b) && has_key(s, b)
    ||| lists_child(s, b, a) && has_key(s, a)
}

/// `p` is a non-empty sequence of names, each linked to the next.
pub open spec fn is_walk(s: NodesView, p: Seq<Seq<char>>) -> bool {
    &&& p.len() >= 1
    &&& forall|i: int| #![trigger p[i]] 0 <= i < p.len() - 1 ==> adjacent(s, p[i], p[i + 1])
}

/// `p` is a walk that starts at `a` and ends at `b`.
pub open spec fn walk_between(s: NodesView, a: Seq<char>, b: Seq<char>, p: Seq<Seq<char>>) -> bool {
    &&& is_walk(s, p)
    &&& p[0] == a
    &&& p[p.len() - 1] == b
}

/// `b` can be reached from `a` in at most `k` steps.
pub open spec fn within(s: NodesView, a: Seq<char>, b: Seq<char>, k: int) -> bool {
    exists|p: Seq<Seq<char>>| #[trigger] walk_between(s, a, b, p) && p.len() <= k + 1
}

/// `b` can be reached from `a`.
pub open spec fn reachable(s: NodesView, a: Seq<char>, b: Seq<char>) -> bool {
    exists|p: Seq<Seq<char>>| #[trigger] walk_between(s, a, b, p)
}

/// `p` leads from `a` to `b` and no walk from `a` to `b` is shorter.
pub open spec fn is_shortest_walk(s: NodesView, a: Seq<char>, b: Seq<char>, p: Seq<Seq<char>>) -> bool {
    &&& walk_between(s, a, b, p)
    &&& !within(s, a, b, p.len() - 2)
}

/// Both ends of a link are names the map knows: a key or a node id.
pub proof fn lemma_adjacent_known(s: NodesView, a: Seq<char>, b: Seq<char>)
    requires
        adjacent(s, a, b),
    ensures
        has_key(s, b) || has_id(s, b),
        has_key(s, a) || has_id(s, a),
{
}

/// A walk followed by a link is a walk one step longer.
pub proof fn lemma_walk_extend(s: NodesView, a: Seq<char>, b: Seq<char>, c: Seq<char>, p: Seq<Seq<char>>)
    requires
        walk_between(s, a, b, p),
        adjacent(s, b, c),
    ensures
        walk_between(s, a, c, p.push(c)),
        p.push(c).len() == p.len() + 1,
{
    let q = p.push(c);
    assert forall|i: int| #![trigger q[i]] 0 <= i < q.len() - 1 implies adjacent(s, q[i], q[i + 1]) by {
        if i < p.len() - 1 {
            assert(q[i] == p[i] && q[i + 1] == p[i + 1]);
        } else {
            assert(q[i] == b && q[i + 1] == c);
        }
    }
}

/// A walk of two or more names is a shorter walk followed by a link.
pub proof fn lemma_walk_prefix(s: NodesView, a: Seq<char>, b: Seq<char>, p: Seq<Seq<char>>)
    requires
        walk_between(s, a, b, p),
        p.len() >= 2,
    ensures
        walk_between(s, a, p[p.len() - 2], p.drop_last()),
        adjacent(s, p[p.len() - 2], b),
{
    let q = p.drop_last();
    assert forall|i: int| #![trigger q[i]] 0 <= i < q.len() - 1 implies adjacent(s, q[i], q[i + 1]) by {
        assert(q[i] == p[i] && q[i + 1] == p[i + 1]);
    }
    assert(p[p.len() - 2] == p[(p.len() - 2) + 1 - 1]);
    let j = p.len() - 2;
    assert(adjacent(s, p[j], p[j + 1]));
}

/// Within zero steps only the start itself is reached.
pub proof fn lemma_within_zero(s: NodesView, a: Seq<char>, b: Seq<char>)
    ensures
        within(s, a, b, 0) <==> a == b,
{
    if a == b {
        let p = seq![a];
        assert(walk_between(s, a, b, p));
    }
    if within(s, a, b, 0) {
        let p = choose|p: Seq<Seq<char>>| #[trigger] walk_between(s, a, b, p) && p.len() <= 1;
        assert(p.len() == 1);
    }
}

/// Reaching within `k` steps implies reaching within any larger bound.
pub proof fn lemma_within_mono(s: NodesView, a: Seq<char>, b: Seq<char>, k: int, j: int)
    requires
        within(s, a, b, k),
        k <= j,
    ensures
        within(s, a, b, j),
{
    let p = choose|p: Seq<Seq<char>>| #[trigger] walk_between(s, a, b, p) && p.len() <= k + 1;
    assert(walk_between(s, a, b, p) && p.len() <= j + 1);
}

/// A walk of `k + 1` names shows reaching within `k` steps.
pub proof fn lemma_within_witness(s: NodesView, a: Seq<char>, b: Seq<char>, p: Seq<Seq<char>>, k: int)
    requires
        walk_between(s, a, b, p),
        p.len() <= k + 1,
    ensures
        within(s, a, b, k),
{
}

/// If the names reached within `k` steps are exactly those reached within
/// `k - 1`, no walk of any length reaches further.
pub proof fn lemma_level_gap(s: NodesView, a: Seq<char>, k: int, j: int, b: Seq<char>)
    requires
        k >= 1,
        forall|v: Seq<char>| #[trigger] within(s, a, v, k) ==> within(s, a, v, k - 1),
        within(s, a, b, j),
    ensures
        within(s, a, b, k - 1),
    decreases j,
{
    if j <= k {
        lemma_within_mono(s, a, b, j, k);
    } else {
        let p = choose|p: Seq<Seq<char>>| #[trigger] walk_between(s, a, b, p) && p.len() <= j + 1;
        if p.len() <= j {
            lemma_within_witness(s, a, b, p, j - 1);
            lemma_level_gap(s, a, k, j - 1, b);
        } else {
            lemma_walk_prefix(s, a, b, p);
            let u = p[p.len() - 2];
            let q = p.drop_last();
            lemma_within_witness(s, a, u, q, j - 1);
            lemma_level_gap(s, a, k, j - 1, u);
            let r = choose|r: Seq<Seq<char>>| #[trigger] walk_between(s, a, u, r) && r.len() <= k;
            lemma_walk_extend(s, a, u, b, r);
            lemma_within_witness(s, a, b, r.push(b), k);
        }
    }
}

/// Whatever can be reached is reached within `k - 1` steps once no name
/// first appears at distance `k`.
pub proof fn lemma_reachable_within(s: NodesView, a: Seq<char>, k: int, b: Seq<char>)
    requires
        k >= 1,
        forall|v: Seq<char>| #[trigger] within(s, a, v, k) ==> within(s, a, v, k - 1),
        reachable(s, a, b),
    ensures
        within(s, a, b, k - 1),
{
    let p = choose|p: Seq<Seq<char>>| #[trigger] walk_between(s, a, b, p);
    lemma_within_witness(s, a, b, p, p.len() - 1);
    lemma_level_gap(s, a, k, p.len() - 1, b);
}

} // verus!
