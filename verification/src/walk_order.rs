//! The order in which the search reads links, and the walks it reads first.
use vstd::prelude::*;
use crate::node_map::{NodesView, has_key};
use crate::graph::is_shortest_walk;

verus! {

/// What the children `cs` of the node `id` add to the neighbours of `x`, in
/// order: for each child that is a key, the child itself if `id` is `x`, then
/// `id` if the child is `x`.
pub open spec fn child_links(s: NodesView, id: Seq<char>, x: Seq<char>, cs: Seq<Seq<char>>) -> Seq<Seq<char>>
    decreases cs.len(),
{
    if cs.len() == 0 {
        Seq::empty()
    } else {
        let c = cs.last();
        let here: Seq<Seq<char>> = if has_key(s, c) {
            (if id == x { seq![c] } else { Seq::<Seq<char>>::empty() })
                + (if c == x { seq![id] } else { Seq::<Seq<char>>::empty() })
        } else {
            Seq::empty()
        };
        child_links(s, id, x, cs.drop_last()) + here
    }
}

/// What the first `i` entries add to the neighbours of `x`, in order.
pub open spec fn links_upto(s: NodesView, x: Seq<char>, i: int) -> Seq<Seq<char>>
    decreases i,
{
    if i <= 0 {
        Seq::empty()
    } else {
        links_upto(s, x, i - 1) + child_links(s, s[i - 1].1.id, x, s[i - 1].1.children_ids)
    }
}

/// The neighbours of `x` in the order the search reads them: entry by entry,
/// and within an entry child by child (a name may occur more than once).
pub open spec fn neighbor_seq(s: NodesView, x: Seq<char>) -> Seq<Seq<char>> {
    links_upto(s, x, s.len() as int)
}

/// Where the search first reads `v` among the neighbours of `u` (-1 if
/// never).
pub open spec fn link_rank(s: NodesView, u: Seq<char>, v: Seq<char>) -> int {
    match neighbor_seq(s, u).index_of_first(v) {
        Some(i) => i,
        None => -1,
    }
}

/// `p` and `q` agree before step `d`, and at step `d` `p` takes a link that
/// the search reads before the one `q` takes.
pub open spec fn walk_before_at(s: NodesView, p: Seq<Seq<char>>, q: Seq<Seq<char>>, d: int) -> bool {
    &&& 1 <= d < p.len()
    &&& d < q.len()
    &&& forall|l: int| 0 <= l < d ==> #[trigger] p[l] == q[l]
    &&& link_rank(s, p[d - 1], p[d]) < link_rank(s, q[d - 1], q[d])
}

/// `p` comes before `q` in the order in which the search reads links.
pub open spec fn walk_before(s: NodesView, p: Seq<Seq<char>>, q: Seq<Seq<char>>) -> bool {
    exists|d: int| #[trigger] walk_before_at(s, p, q, d)
}

/// `p` is the shortest walk from `src` to `t` that the search reads first:
/// every other shortest walk from `src` to `t` comes after it.
pub open spec fn first_shortest_walk(s: NodesView, src: Seq<char>, t: Seq<char>, p: Seq<Seq<char>>) -> bool {
    &&& is_shortest_walk(s, src, t, p)
    &&& forall|q: Seq<Seq<char>>| #[trigger] is_shortest_walk(s, src, t, q) && q != p ==> walk_before(s, p, q)
}

/// The order is strict: no walk comes both before and after another.
pub proof fn lemma_before_asymmetric(s: NodesView, p: Seq<Seq<char>>, q: Seq<Seq<char>>)
    requires
        walk_before(s, p, q),
    ensures
        !walk_before(s, q, p),
{
    let d1 = choose|d: int| #[trigger] walk_before_at(s, p, q, d);
    if walk_before(s, q, p) {
        let d2 = choose|d: int| #[trigger] walk_before_at(s, q, p, d);
        if d1 < d2 {
            assert(q[d1] == p[d1]);
            assert(q[d1 - 1] == p[d1 - 1]);
        } else if d2 < d1 {
            assert(p[d2] == q[d2]);
            assert(p[d2 - 1] == q[d2 - 1]);
        } else {
            assert(p[d1 - 1] == q[d1 - 1]);
        }
    }
}

/// The order is transitive on walks of one length.
pub proof fn lemma_before_transitive(s: NodesView, p: Seq<Seq<char>>, q: Seq<Seq<char>>, r: Seq<Seq<char>>)
    requires
        walk_before(s, p, q),
        walk_before(s, q, r),
        p.len() == q.len(),
        q.len() == r.len(),
    ensures
        walk_before(s, p, r),
{
    let d1 = choose|d: int| #[trigger] walk_before_at(s, p, q, d);
    let d2 = choose|d: int| #[trigger] walk_before_at(s, q, r, d);
    if d1 < d2 {
        assert(q[d1] == r[d1]);
        assert(q[d1 - 1] == r[d1 - 1]);
        assert forall|l: int| 0 <= l < d1 implies #[trigger] p[l] == r[l] by {
            assert(p[l] == q[l]);
            assert(q[l] == r[l]);
        }
        assert(walk_before_at(s, p, r, d1));
    } else if d2 < d1 {
        assert(p[d2] == q[d2]);
        assert(p[d2 - 1] == q[d2 - 1]);
        assert forall|l: int| 0 <= l < d2 implies #[trigger] p[l] == r[l] by {
            assert(p[l] == q[l]);
            assert(q[l] == r[l]);
        }
        assert(walk_before_at(s, p, r, d2));
    } else {
        assert(p[d1 - 1] == q[d1 - 1]);
        assert forall|l: int| 0 <= l < d1 implies #[trigger] p[l] == r[l] by {
            assert(p[l] == q[l]);
            assert(q[l] == r[l]);
        }
        assert(walk_before_at(s, p, r, d1));
    }
}

/// Extending two walks by one name each keeps their order.
pub proof fn lemma_before_push(s: NodesView, p: Seq<Seq<char>>, q: Seq<Seq<char>>, x: Seq<char>, y: Seq<char>)
    requires
        walk_before(s, p, q),
    ensures
        walk_before(s, p.push(x), q.push(y)),
{
    let d = choose|d: int| #[trigger] walk_before_at(s, p, q, d);
    assert forall|l: int| 0 <= l < d implies #[trigger] p.push(x)[l] == q.push(y)[l] by {
        assert(p[l] == q[l]);
    }
    assert(walk_before_at(s, p.push(x), q.push(y), d));
}

/// Two one-step extensions of one walk are ordered by how early the search
/// reads their last link.
pub proof fn lemma_before_last(s: NodesView, a: Seq<Seq<char>>, y: Seq<char>, x: Seq<char>)
    requires
        a.len() >= 1,
        link_rank(s, a.last(), y) < link_rank(s, a.last(), x),
    ensures
        walk_before(s, a.push(y), a.push(x)),
{
    assert(walk_before_at(s, a.push(y), a.push(x), a.len() as int));
}

/// There is at most one first shortest walk to a name.
pub proof fn lemma_first_unique(s: NodesView, src: Seq<char>, t: Seq<char>, p: Seq<Seq<char>>, q: Seq<Seq<char>>)
    requires
        first_shortest_walk(s, src, t, p),
        first_shortest_walk(s, src, t, q),
    ensures
        p == q,
{
    if p != q {
        assert(walk_before(s, p, q));
        assert(walk_before(s, q, p));
        lemma_before_asymmetric(s, p, q);
    }
}

} // verus!
