//! Breadth-first routing: from one node, a shortest walk to every node it can reach.
use vstd::prelude::*;
use crate::node_map::{NodeMap, NodesView, has_key};
use crate::graph::{
    adjacent, lists_child, walk_between, within, reachable, is_shortest_walk, has_id,
    lemma_adjacent_known, lemma_walk_extend, lemma_walk_prefix, lemma_within_zero,
    lemma_within_mono, lemma_within_witness, lemma_reachable_within,
};
use crate::strings::{contains_string, copy_strings, lemma_push_contains};
use crate::walk_order::{
    child_links, links_upto, neighbor_seq, link_rank, walk_before, first_shortest_walk, lemma_before_transitive,
    lemma_before_push, lemma_before_last,
};

verus! {

/// What node `s[i]` adds to the neighbours of `x` when the first `j` of its
/// children are read: a child that is a key, if its id is `x`; its own id, if
/// `x` is a key among those children.
pub open spec fn contributes(s: NodesView, i: int, j: int, x: Seq<char>, b: Seq<char>) -> bool {
    ||| s[i].1.id == x && s[i].1.children_ids.take(j).contains(b) && has_key(s, b)
    ||| s[i].1.children_ids.take(j).contains(x) && has_key(s, x) && s[i].1.id == b
}

/// The names linked to `x`, in the order the entries and their children list them.
pub(crate) fn neighbors_of(nodes: &NodeMap, x: &String) -> (nbrs: Vec<String>)
    ensures
        forall|b: Seq<char>| #[trigger] nbrs.deep_view().contains(b) <==> adjacent(nodes@, x@, b),
        nbrs.deep_view() == neighbor_seq(nodes@, x@),
{
    let ghost s = nodes@;
    let es = nodes.entries();
    let mut out: Vec<String> = Vec::new();
    for i in 0..es.len()
        invariant
            s == nodes@,
            es@.len() == s.len(),
            forall|i: int| 0 <= i < es@.len() ==> (#[trigger] es@[i]).0@ == s[i].0 && es@[i].1@ == s[i].1,
            forall|b: Seq<char>| #[trigger] out.deep_view().contains(b) <==>
                exists|i2: int| 0 <= i2 < i && #[trigger] contributes(s, i2, s[i2].1.children_ids.len() as int, x@, b),
            out.deep_view() == links_upto(s, x@, i as int),
    {
        let node = &es[i].1;
        let ghost n = s[i as int].1;
        assert(node@ == n);
        for j in 0..node.children_ids.len()
            invariant
                s == nodes@,
                n == s[i as int].1,
                node@ == n,
                0 <= i < s.len(),
                j <= n.children_ids.len(),
                forall|b: Seq<char>| #[trigger] out.deep_view().contains(b) <==>
                    (exists|i2: int| 0 <= i2 < i && #[trigger] contributes(s, i2, s[i2].1.children_ids.len() as int, x@, b))
                    || contributes(s, i as int, j as int, x@, b),
                out.deep_view() == links_upto(s, x@, i as int) + child_links(s, n.id, x@, n.children_ids.take(j as int)),
        {
            let c = &node.children_ids[j];
            assert(c@ == n.children_ids[j as int]);
            assert(n.children_ids.take(j + 1) =~= n.children_ids.take(j as int).push(c@));
            let ghost before = out.deep_view();
            let ghost added: Seq<Seq<char>> = Seq::empty();
            if nodes.contains_key(c.as_str()) {
                if node.id == *x {
                    out.push(c.clone());
                    proof { added = added.push(c@); }
                }
                if *c == *x {
                    out.push(node.id.clone());
                    proof { added = added.push(n.id); }
                }
            }
            proof {
                assert(out.deep_view() =~= before + added);
                let cs = n.children_ids.take(j + 1);
                assert(cs.drop_last() =~= n.children_ids.take(j as int));
                assert(cs.last() == c@);
                assert(added =~= (if has_key(s, c@) {
                    (if n.id == x@ { seq![c@] } else { Seq::<Seq<char>>::empty() })
                        + (if c@ == x@ { seq![n.id] } else { Seq::<Seq<char>>::empty() })
                } else {
                    Seq::<Seq<char>>::empty()
                }));
                assert(out.deep_view() =~= links_upto(s, x@, i as int) + child_links(s, n.id, x@, cs));
                assert forall|b: Seq<char>| #[trigger] added.contains(b) <==>
                    (has_key(s, c@) && ((n.id == x@ && b == c@) || (c@ == x@ && b == n.id))) by {
                    if added.contains(b) {
                        let m = choose|m: int| 0 <= m < added.len() && added[m] == b;
                    }
                    if has_key(s, c@) && n.id == x@ && b == c@ {
                        assert(added[0] == b);
                    }
                    if has_key(s, c@) && c@ == x@ && b == n.id {
                        assert(added[added.len() - 1] == b);
                    }
                }
                assert forall|b: Seq<char>| #[trigger] out.deep_view().contains(b) <==>
                    ((exists|i2: int| 0 <= i2 < i && #[trigger] contributes(s, i2, s[i2].1.children_ids.len() as int, x@, b))
                    || contributes(s, i as int, j + 1, x@, b)) by {
                    lemma_push_contains(n.children_ids.take(j as int), c@, b);
                    lemma_push_contains(n.children_ids.take(j as int), c@, x@);
                    if out.deep_view().contains(b) {
                        let m = choose|m: int| 0 <= m < out.deep_view().len() && out.deep_view()[m] == b;
                        if m < before.len() {
                            assert(before[m] == b);
                        } else {
                            assert(added[m - before.len()] == b);
                        }
                    }
                    if before.contains(b) {
                        let m = choose|m: int| 0 <= m < before.len() && before[m] == b;
                        assert(out.deep_view()[m] == b);
                    }
                    if added.contains(b) {
                        let m = choose|m: int| 0 <= m < added.len() && added[m] == b;
                        assert(out.deep_view()[before.len() + m] == b);
                    }
                }
            }
        }
        assert(n.children_ids.take(n.children_ids.len() as int) =~= n.children_ids);
        assert(links_upto(s, x@, i + 1) == links_upto(s, x@, i as int) + child_links(s, n.id, x@, n.children_ids));
    }
    proof {
        assert forall|b: Seq<char>| #[trigger] out.deep_view().contains(b) <==> adjacent(s, x@, b) by {
            if adjacent(s, x@, b) {
                if lists_child(s, x@, b) && has_key(s, b) {
                    let i2 = choose|i2: int| #![trigger s[i2]] 0 <= i2 < s.len() && s[i2].1.id == x@ && s[i2].1.children_ids.contains(b);
                    assert(s[i2].1.children_ids.take(s[i2].1.children_ids.len() as int) =~= s[i2].1.children_ids);
                    assert(contributes(s, i2, s[i2].1.children_ids.len() as int, x@, b));
                } else {
                    let i2 = choose|i2: int| #![trigger s[i2]] 0 <= i2 < s.len() && s[i2].1.id == b && s[i2].1.children_ids.contains(x@);
                    assert(s[i2].1.children_ids.take(s[i2].1.children_ids.len() as int) =~= s[i2].1.children_ids);
                    assert(contributes(s, i2, s[i2].1.children_ids.len() as int, x@, b));
                }
            }
            if out.deep_view().contains(b) {
                let i2 = choose|i2: int| 0 <= i2 < es@.len() && #[trigger] contributes(s, i2, s[i2].1.children_ids.len() as int, x@, b);
                assert(s[i2].1.children_ids.take(s[i2].1.children_ids.len() as int) =~= s[i2].1.children_ids);
            }
        }
    }
    out
}


/// Routes as plain values: destination, next hop, and the walk from the
/// source (first name) to the destination (last name).
pub type RoutesView = Seq<(Seq<char>, Seq<char>, Seq<Seq<char>>)>;

/// Some route leads to `t`.
pub open spec fn has_route(r: RoutesView, t: Seq<char>) -> bool {
    exists|i: int| #![trigger r[i]] 0 <= i < r.len() && r[i].0 == t
}

/// The position of the route to `t` (meaningful when there is one).
pub open spec fn route_index(r: RoutesView, t: Seq<char>) -> int {
    choose|i: int| #![trigger r[i]] 0 <= i < r.len() && r[i].0 == t
}

/// No two routes share a destination.
pub open spec fn dests_unique(r: RoutesView) -> bool {
    forall|i: int, j: int|
        #![trigger r[i], r[j]]
        0 <= i < r.len() && 0 <= j < r.len() && i != j ==> r[i].0 != r[j].0
}

/// Each route is a shortest walk from `src` to its destination, whose second
/// name is the next hop.
pub open spec fn routes_shortest(r: RoutesView, s: NodesView, src: Seq<char>) -> bool {
    forall|i: int|
        #![trigger r[i]]
        0 <= i < r.len() ==> {
            &&& is_shortest_walk(s, src, r[i].0, r[i].2)
            &&& r[i].2.len() >= 2
            &&& r[i].1 == r[i].2[1]
        }
}

/// `r` is what routing from `src` over the links of `s` gives: one route to
/// every name other than `src` that `src` can reach, and no other, each along
/// the shortest walk that the search reads first (entries in map order, each
/// node's children in list order).
pub open spec fn routes_valid(r: RoutesView, s: NodesView, src: Seq<char>) -> bool {
    &&& dests_unique(r)
    &&& forall|t: Seq<char>| #[trigger] has_route(r, t) <==> (t != src && reachable(s, src, t))
    &&& routes_shortest(r, s, src)
    &&& routes_first(r, s, src)
}

/// The plain-value view of a sequence of stored routes.
pub open spec fn routes_view(v: Seq<(String, String, Vec<String>)>) -> RoutesView {
    v.map_values(|e: (String, String, Vec<String>)| (e.0@, e.1@, e.2.deep_view()))
}

/// The plain-value view of a breadth-first frontier: a name and its walk.
pub open spec fn frontier_view(f: Seq<(String, Vec<String>)>) -> Seq<(Seq<char>, Seq<Seq<char>>)> {
    f.map_values(|e: (String, Vec<String>)| (e.0@, e.1.deep_view()))
}

/// Some frontier entry is `v`.
pub open spec fn in_frontier(f: Seq<(Seq<char>, Seq<Seq<char>>)>, v: Seq<char>) -> bool {
    exists|i: int| #![trigger f[i]] 0 <= i < f.len() && f[i].0 == v
}

/// `v` is first reached at exactly `k` steps from `src`.
pub open spec fn at_level(s: NodesView, src: Seq<char>, k: int, v: Seq<char>) -> bool {
    within(s, src, v, k) && !within(s, src, v, k - 1)
}

/// Every name a link can reach is a key or a node id; with the source, that
/// is the whole vertex set.
pub open spec fn known_name(s: NodesView, src: Seq<char>, v: Seq<char>) -> bool {
    v == src || has_key(s, v) || has_id(s, v)
}

/// Keys, node ids and the source, as one sequence.
pub open spec fn name_pool(s: NodesView, src: Seq<char>) -> Seq<Seq<char>> {
    s.map_values(|e: (Seq<char>, crate::node::MeshNodeView)| e.0)
        + s.map_values(|e: (Seq<char>, crate::node::MeshNodeView)| e.1.id)
        + seq![src]
}

/// A duplicate-free sequence drawn from the names the map knows is no longer
/// than twice the map plus one.
pub proof fn lemma_visited_bound(s: NodesView, src: Seq<char>, v: Seq<Seq<char>>)
    requires
        v.no_duplicates(),
        forall|x: Seq<char>| #[trigger] v.contains(x) ==> known_name(s, src, x),
    ensures
        v.len() <= 2 * s.len() + 1,
{
    let pool = name_pool(s, src);
    assert forall|x: Seq<char>| v.to_set().contains(x) implies pool.to_set().contains(x) by {
        assert(v.contains(x));
        if x == src {
            assert(pool[pool.len() - 1] == x);
        } else if has_key(s, x) {
            let i = choose|i: int| #![trigger s[i]] 0 <= i < s.len() && s[i].0 == x;
            assert(pool[i] == x);
        } else {
            let i = choose|i: int| #![trigger s[i]] 0 <= i < s.len() && s[i].1.id == x;
            assert(pool[s.len() + i] == x);
        }
    }
    v.unique_seq_to_set();
    pool.lemma_cardinality_of_set();
    vstd::set_lib::lemma_len_subset(v.to_set(), pool.to_set());
}

/// Closing a breadth-first round: once every link out of level `k` has been
/// followed, the visited names are those within `k + 1` steps and the names
/// added this round are exactly level `k + 1`.
pub proof fn lemma_round_closes(
    s: NodesView,
    src: Seq<char>,
    k: int,
    v0: Seq<Seq<char>>,
    f: Seq<(Seq<char>, Seq<Seq<char>>)>,
    v: Seq<Seq<char>>,
    next: Seq<(Seq<char>, Seq<Seq<char>>)>,
)
    requires
        k >= 0,
        forall|x: Seq<char>| #[trigger] v0.contains(x) <==> within(s, src, x, k),
        forall|x: Seq<char>| #[trigger] in_frontier(f, x) <==> at_level(s, src, k, x),
        forall|x: Seq<char>| #[trigger] v.contains(x) <==> (v0.contains(x) || in_frontier(next, x)),
        forall|m: int| #![trigger next[m]] 0 <= m < next.len() ==> {
            &&& walk_between(s, src, next[m].0, next[m].1)
            &&& next[m].1.len() == k + 2
            &&& !v0.contains(next[m].0)
        },
        forall|i: int, b: Seq<char>| #![trigger f[i], adjacent(s, f[i].0, b)]
            0 <= i < f.len() && adjacent(s, f[i].0, b) ==> v.contains(b),
    ensures
        forall|x: Seq<char>| #[trigger] v.contains(x) <==> within(s, src, x, k + 1),
        forall|x: Seq<char>| #[trigger] in_frontier(next, x) <==> at_level(s, src, k + 1, x),
{
    assert forall|x: Seq<char>| #[trigger] v.contains(x) <==> within(s, src, x, k + 1) by {
        if v.contains(x) {
            if v0.contains(x) {
                lemma_within_mono(s, src, x, k, k + 1);
            } else {
                let m = choose|m: int| #![trigger next[m]] 0 <= m < next.len() && next[m].0 == x;
                lemma_within_witness(s, src, x, next[m].1, k + 1);
            }
        }
        if within(s, src, x, k + 1) && !v.contains(x) {
            assert(!within(s, src, x, k));
            let p = choose|p: Seq<Seq<char>>| #[trigger] walk_between(s, src, x, p) && p.len() <= k + 2;
            if p.len() <= k + 1 {
                lemma_within_witness(s, src, x, p, k);
            }
            assert(p.len() == k + 2);
            lemma_walk_prefix(s, src, x, p);
            let u = p[p.len() - 2];
            lemma_within_witness(s, src, u, p.drop_last(), k);
            if within(s, src, u, k - 1) {
                let r = choose|r: Seq<Seq<char>>| #[trigger] walk_between(s, src, u, r) && r.len() <= k;
                lemma_walk_extend(s, src, u, x, r);
                lemma_within_witness(s, src, x, r.push(x), k);
            }
            assert(at_level(s, src, k, u));
            assert(in_frontier(f, u));
            let i = choose|i: int| #![trigger f[i]] 0 <= i < f.len() && f[i].0 == u;
            assert(adjacent(s, f[i].0, x));
        }
    }
    assert forall|x: Seq<char>| #[trigger] in_frontier(next, x) <==> at_level(s, src, k + 1, x) by {
        if in_frontier(next, x) {
            let m = choose|m: int| #![trigger next[m]] 0 <= m < next.len() && next[m].0 == x;
            lemma_within_witness(s, src, x, next[m].1, k + 1);
            assert(!v0.contains(x));
        }
        if at_level(s, src, k + 1, x) {
            assert(v.contains(x));
            assert(!v0.contains(x));
        }
    }
}

/// Each frontier walk is the first shortest walk to its name, and the
/// frontier lists them in the order in which the search reads them.
pub open spec fn frontier_ordered(s: NodesView, src: Seq<char>, f: Seq<(Seq<char>, Seq<Seq<char>>)>) -> bool {
    &&& forall|i: int| #![trigger f[i]] 0 <= i < f.len() ==> first_shortest_walk(s, src, f[i].0, f[i].1)
    &&& forall|i: int, j: int| #![trigger f[i], f[j]] 0 <= i < j < f.len() ==> walk_before(s, f[i].1, f[j].1)
}

/// Each route follows the first shortest walk to its destination.
pub open spec fn routes_first(r: RoutesView, s: NodesView, src: Seq<char>) -> bool {
    forall|i: int| #![trigger r[i]] 0 <= i < r.len() ==> first_shortest_walk(s, src, r[i].0, r[i].2)
}

/// A name first found from frontier entry `fi` (no entry before it links to
/// the name, and the name lies beyond level `k`) is reached first along the
/// walk to that entry extended by the name.
pub proof fn lemma_first_step(
    s: NodesView,
    src: Seq<char>,
    k: int,
    f: Seq<(Seq<char>, Seq<Seq<char>>)>,
    fi: int,
    x: Seq<char>,
)
    requires
        k >= 0,
        forall|y: Seq<char>| #[trigger] in_frontier(f, y) <==> at_level(s, src, k, y),
        forall|i: int| #![trigger f[i]] 0 <= i < f.len() ==> {
            &&& walk_between(s, src, f[i].0, f[i].1)
            &&& f[i].1.len() == k + 1
        },
        frontier_ordered(s, src, f),
        0 <= fi < f.len(),
        adjacent(s, f[fi].0, x),
        !within(s, src, x, k),
        forall|i: int| #![trigger f[i]] 0 <= i < fi ==> !adjacent(s, f[i].0, x),
    ensures
        first_shortest_walk(s, src, x, f[fi].1.push(x)),
{
    let cur = f[fi].0;
    let a = f[fi].1;
    let np = a.push(x);
    lemma_walk_extend(s, src, cur, x, a);
    assert(is_shortest_walk(s, src, x, np));
    lemma_within_witness(s, src, x, np, k + 1);
    assert forall|q: Seq<Seq<char>>| #[trigger] is_shortest_walk(s, src, x, q) && q != np implies walk_before(s, np, q) by {
        if q.len() <= k + 1 {
            lemma_within_witness(s, src, x, q, k);
        }
        if q.len() > k + 2 {
            lemma_within_mono(s, src, x, k + 1, q.len() - 2);
        }
        assert(q.len() == k + 2);
        lemma_walk_prefix(s, src, x, q);
        let u = q[k];
        let qp = q.drop_last();
        assert(q =~= qp.push(x));
        lemma_within_witness(s, src, u, qp, k);
        if within(s, src, u, k - 1) {
            let r = choose|r: Seq<Seq<char>>| #[trigger] walk_between(s, src, u, r) && r.len() <= k;
            lemma_walk_extend(s, src, u, x, r);
            lemma_within_witness(s, src, x, r.push(x), k);
        }
        assert(at_level(s, src, k, u));
        assert(is_shortest_walk(s, src, u, qp));
        assert(in_frontier(f, u));
        let j = choose|j: int| #![trigger f[j]] 0 <= j < f.len() && f[j].0 == u;
        assert(first_shortest_walk(s, src, f[j].0, f[j].1));
        if j < fi {
            assert(!adjacent(s, f[j].0, x));
        } else if j == fi {
            if qp != a {
                assert(walk_before(s, a, qp));
                lemma_before_push(s, a, qp, x, x);
            }
        } else {
            assert(walk_before(s, f[fi].1, f[j].1));
            if qp != f[j].1 {
                assert(walk_before(s, f[j].1, qp));
                lemma_before_transitive(s, a, f[j].1, qp);
            }
            lemma_before_push(s, a, qp, x, x);
        }
    }
}

/// Finding the unvisited neighbour `nbrs[ni]` of frontier entry `fi`: it is
/// read at position `ni` among that entry's neighbours, its walk is the first
/// shortest one, and it comes after every name found so far this round.
pub proof fn lemma_found_first(
    s: NodesView,
    src: Seq<char>,
    k: int,
    v0: Seq<Seq<char>>,
    va: Seq<Seq<char>>,
    vv: Seq<Seq<char>>,
    f: Seq<(Seq<char>, Seq<Seq<char>>)>,
    fi: int,
    nbrs: Seq<Seq<char>>,
    ni: int,
    nx: Seq<(Seq<char>, Seq<Seq<char>>)>,
    origin: Seq<int>,
)
    requires
        k >= 0,
        bfs_visited(s, src, k, v0),
        bfs_frontier(s, src, k, f),
        frontier_ordered(s, src, f),
        0 <= fi < f.len(),
        nbrs == neighbor_seq(s, f[fi].0),
        0 <= ni < nbrs.len(),
        adjacent(s, f[fi].0, nbrs[ni]),
        !vv.contains(nbrs[ni]),
        forall|y: Seq<char>| #[trigger] v0.contains(y) ==> vv.contains(y),
        forall|y: Seq<char>| #[trigger] va.contains(y) ==> vv.contains(y),
        forall|m: int| 0 <= m < ni ==> vv.contains(#[trigger] nbrs[m]),
        forall|i: int, b: Seq<char>| #![trigger f[i], adjacent(s, f[i].0, b)]
            0 <= i < fi && adjacent(s, f[i].0, b) ==> va.contains(b),
        frontier_ordered(s, src, nx),
        origin.len() == nx.len(),
        forall|m: int| #![trigger origin[m]] 0 <= m < origin.len() ==> {
            &&& 0 <= origin[m] <= fi
            &&& nx[m].1 == f[origin[m]].1.push(nx[m].0)
            &&& (origin[m] < fi || link_rank(s, f[fi].0, nx[m].0) < ni)
        },
    ensures
        link_rank(s, f[fi].0, nbrs[ni]) == ni,
        first_shortest_walk(s, src, nbrs[ni], f[fi].1.push(nbrs[ni])),
        frontier_ordered(s, src, nx.push((nbrs[ni], f[fi].1.push(nbrs[ni])))),
{
    reveal(bfs_visited);
    reveal(bfs_frontier);
    let x = nbrs[ni];
    let cur = f[fi].0;
    let a = f[fi].1;
    let np = a.push(x);
    nbrs.index_of_first_ensures(x);
    assert(nbrs.contains(x));
    let r = nbrs.index_of_first(x).unwrap();
    if r < ni {
        assert(vv.contains(nbrs[r]));
    }
    assert(link_rank(s, cur, x) == ni);
    assert(!v0.contains(x));
    assert forall|i: int| #![trigger f[i]] 0 <= i < fi implies !adjacent(s, f[i].0, x) by {
        if adjacent(s, f[i].0, x) {
            assert(va.contains(x));
        }
    }
    lemma_first_step(s, src, k, f, fi, x);
    let t = nx.push((x, np));
    assert(a.last() == cur);
    assert forall|i: int, j: int| #![trigger t[i], t[j]] 0 <= i < j < t.len() implies walk_before(s, t[i].1, t[j].1) by {
        if j < nx.len() {
            assert(t[i] == nx[i] && t[j] == nx[j]);
        } else {
            assert(t[i] == nx[i]);
            let o = origin[i];
            if o < fi {
                assert(walk_before(s, f[o].1, f[fi].1));
                lemma_before_push(s, f[o].1, a, nx[i].0, x);
            } else {
                lemma_before_last(s, a, nx[i].0, x);
            }
        }
    }
    assert forall|i: int| #![trigger t[i]] 0 <= i < t.len() implies first_shortest_walk(s, src, t[i].0, t[i].1) by {
        if i < nx.len() {
            assert(t[i] == nx[i]);
        }
    }
}

/// The visited names are duplicate-free, include the source, are all known
/// to the map, and are exactly those within `k` steps of the source.
#[verifier::opaque]
pub open spec fn bfs_visited(s: NodesView, src: Seq<char>, k: int, v: Seq<Seq<char>>) -> bool {
    &&& v.no_duplicates()
    &&& v.contains(src)
    &&& forall|x: Seq<char>| #[trigger] v.contains(x) ==> known_name(s, src, x)
    &&& forall|x: Seq<char>| #[trigger] v.contains(x) <==> within(s, src, x, k)
}

/// The frontier holds exactly the names first reached at `k` steps, each with
/// a walk of `k + 1` names from the source.
#[verifier::opaque]
pub open spec fn bfs_frontier(s: NodesView, src: Seq<char>, k: int, f: Seq<(Seq<char>, Seq<Seq<char>>)>) -> bool {
    &&& forall|x: Seq<char>| #[trigger] in_frontier(f, x) <==> at_level(s, src, k, x)
    &&& forall|i: int| #![trigger f[i]] 0 <= i < f.len() ==> {
        &&& walk_between(s, src, f[i].0, f[i].1)
        &&& f[i].1.len() == k + 1
    }
}

/// There is one route to every visited name but the source, along a
/// shortest walk whose second name is the next hop.
#[verifier::opaque]
pub open spec fn bfs_routes(s: NodesView, src: Seq<char>, v: Seq<Seq<char>>, r: RoutesView) -> bool {
    &&& dests_unique(r)
    &&& forall|t: Seq<char>| #[trigger] has_route(r, t) <==> (v.contains(t) && t != src)
    &&& routes_shortest(r, s, src)
}

/// Midway through round `k`: the names visited are those visited before the
/// round (`v0`) and those found this round (`nx`), each found one step past
/// level `k` and not before.
#[verifier::opaque]
pub open spec fn bfs_round(
    s: NodesView,
    src: Seq<char>,
    k: int,
    v0: Seq<Seq<char>>,
    v: Seq<Seq<char>>,
    nx: Seq<(Seq<char>, Seq<Seq<char>>)>,
) -> bool {
    &&& v.no_duplicates()
    &&& v.contains(src)
    &&& forall|x: Seq<char>| #[trigger] v.contains(x) ==> known_name(s, src, x)
    &&& v.len() == v0.len() + nx.len()
    &&& forall|x: Seq<char>| #[trigger] v.contains(x) <==> (v0.contains(x) || in_frontier(nx, x))
    &&& forall|m: int| #![trigger nx[m]] 0 <= m < nx.len() ==> {
        &&& walk_between(s, src, nx[m].0, nx[m].1)
        &&& nx[m].1.len() == k + 2
        &&& !v0.contains(nx[m].0)
    }
}

/// The search starts at the source alone, with no routes.
pub proof fn lemma_bfs_start(s: NodesView, src: Seq<char>)
    ensures
        bfs_visited(s, src, 0, seq![src]),
        bfs_frontier(s, src, 0, seq![(src, seq![src])]),
        bfs_routes(s, src, seq![src], Seq::empty()),
{
    reveal(bfs_visited);
    reveal(bfs_frontier);
    reveal(bfs_routes);
    let v = seq![src];
    let f = seq![(src, seq![src])];
    assert forall|x: Seq<char>| #[trigger] v.contains(x) <==> within(s, src, x, 0) by {
        lemma_within_zero(s, src, x);
        if x == src {
            assert(v[0] == x);
        }
    }
    assert forall|x: Seq<char>| #[trigger] in_frontier(f, x) <==> at_level(s, src, 0, x) by {
        lemma_within_zero(s, src, x);
        if within(s, src, x, -1) {
            let p = choose|p: Seq<Seq<char>>| #[trigger] walk_between(s, src, x, p) && p.len() <= 0;
        }
        if x == src {
            assert(f[0].0 == x);
        }
    }
    assert(walk_between(s, src, src, seq![src]));
    assert(v.no_duplicates());
}

/// The walk of the source alone is the first shortest walk to it.
pub proof fn lemma_first_start(s: NodesView, src: Seq<char>)
    ensures
        frontier_ordered(s, src, seq![(src, seq![src])]),
{
    let a = seq![src];
    assert(walk_between(s, src, src, a));
    if within(s, src, src, -1) {
        let p = choose|p: Seq<Seq<char>>| #[trigger] walk_between(s, src, src, p) && p.len() <= 0;
    }
    assert forall|q: Seq<Seq<char>>| #[trigger] is_shortest_walk(s, src, src, q) && q != a implies walk_before(s, a, q) by {
        lemma_within_zero(s, src, src);
        if q.len() >= 2 {
            lemma_within_mono(s, src, src, 0, q.len() - 2);
        }
        assert(q =~= a);
    }
}

/// A round starts with what was visited and nothing new.
pub proof fn lemma_round_start(s: NodesView, src: Seq<char>, k: int, v0: Seq<Seq<char>>)
    requires
        bfs_visited(s, src, k, v0),
    ensures
        bfs_round(s, src, k, v0, v0, Seq::empty()),
{
    reveal(bfs_visited);
    reveal(bfs_round);
}

/// Visiting a new neighbour `nb` of a frontier name `cur` keeps the round's
/// bookkeeping and the routes right, and the visited names within bounds.
pub proof fn lemma_visit_step(
    s: NodesView,
    src: Seq<char>,
    k: int,
    v0: Seq<Seq<char>>,
    v: Seq<Seq<char>>,
    nx: Seq<(Seq<char>, Seq<Seq<char>>)>,
    r: RoutesView,
    cur: Seq<char>,
    path: Seq<Seq<char>>,
    nb: Seq<char>,
    hop: Seq<char>,
)
    requires
        bfs_visited(s, src, k, v0),
        bfs_round(s, src, k, v0, v, nx),
        bfs_routes(s, src, v, r),
        walk_between(s, src, cur, path),
        path.len() == k + 1,
        adjacent(s, cur, nb),
        !v.contains(nb),
        hop == (if path.len() >= 2 { path[1] } else { nb }),
    ensures
        bfs_round(s, src, k, v0, v.push(nb), nx.push((nb, path.push(nb)))),
        bfs_routes(s, src, v.push(nb), r.push((nb, hop, path.push(nb)))),
        v.push(nb).len() <= 2 * s.len() + 1,
        forall|x: Seq<char>| v.contains(x) ==> #[trigger] v.push(nb).contains(x),
{
    reveal(bfs_visited);
    reveal(bfs_round);
    reveal(bfs_routes);
    let v2 = v.push(nb);
    let np = path.push(nb);
    let nx2 = nx.push((nb, np));
    let r2 = r.push((nb, hop, np));
    lemma_adjacent_known(s, cur, nb);
    lemma_walk_extend(s, src, cur, nb, path);
    assert(!v0.contains(nb));
    assert(nb != src);
    assert forall|x: Seq<char>| v.contains(x) implies #[trigger] v2.contains(x) by {
        lemma_push_contains(v, nb, x);
    }
    assert forall|x: Seq<char>| #[trigger] v2.contains(x) implies known_name(s, src, x) by {
        lemma_push_contains(v, nb, x);
    }
    assert(v2.no_duplicates()) by {
        assert forall|a: int, b: int| 0 <= a < v2.len() && 0 <= b < v2.len() && a != b implies v2[a] != v2[b] by {
            if a < v.len() && b < v.len() {
            } else if a < v.len() {
                assert(v.contains(v[a]));
            } else {
                assert(v.contains(v[b]));
            }
        }
    }
    assert forall|x: Seq<char>| #[trigger] v2.contains(x) <==> (v0.contains(x) || in_frontier(nx2, x)) by {
        lemma_push_contains(v, nb, x);
        if in_frontier(nx2, x) {
            let m = choose|m: int| #![trigger nx2[m]] 0 <= m < nx2.len() && nx2[m].0 == x;
            if m < nx.len() {
                assert(nx[m] == nx2[m]);
            }
        }
        if in_frontier(nx, x) {
            let m = choose|m: int| #![trigger nx[m]] 0 <= m < nx.len() && nx[m].0 == x;
            assert(nx2[m] == nx[m]);
        }
        if x == nb {
            assert(nx2[nx.len() as int].0 == x);
        }
    }
    assert forall|m: int| #![trigger nx2[m]] 0 <= m < nx2.len() implies {
        &&& walk_between(s, src, nx2[m].0, nx2[m].1)
        &&& nx2[m].1.len() == k + 2
        &&& !v0.contains(nx2[m].0)
    } by {
        if m < nx.len() {
            assert(nx[m] == nx2[m]);
        }
    }
    lemma_visited_bound(s, src, v2);
    assert(!within(s, src, nb, k));
    assert(is_shortest_walk(s, src, nb, np));
    if path.len() >= 2 {
        assert(np[1] == path[1]);
    }
    assert(np[1] == hop);
    assert forall|i: int, j: int|
        #![trigger r2[i], r2[j]]
        0 <= i < r2.len() && 0 <= j < r2.len() && i != j implies r2[i].0 != r2[j].0 by {
        if i < r.len() && j < r.len() {
            assert(r[i] == r2[i] && r[j] == r2[j]);
        } else if i < r.len() {
            assert(r[i] == r2[i]);
            assert(has_route(r, r2[i].0));
        } else {
            assert(r[j] == r2[j]);
            assert(has_route(r, r2[j].0));
        }
    }
    assert forall|t: Seq<char>| #[trigger] has_route(r2, t) <==> (v2.contains(t) && t != src) by {
        lemma_push_contains(v, nb, t);
        if has_route(r2, t) {
            let i = choose|i: int| #![trigger r2[i]] 0 <= i < r2.len() && r2[i].0 == t;
            if i < r.len() {
                assert(r[i] == r2[i]);
            }
        }
        if has_route(r, t) {
            let i = choose|i: int| #![trigger r[i]] 0 <= i < r.len() && r[i].0 == t;
            assert(r2[i] == r[i]);
        }
        if t == nb {
            assert(r2[r.len() as int].0 == t);
        }
    }
    assert forall|i: int| #![trigger r2[i]] 0 <= i < r2.len() implies {
        &&& is_shortest_walk(s, src, r2[i].0, r2[i].2)
        &&& r2[i].2.len() >= 2
        &&& r2[i].1 == r2[i].2[1]
    } by {
        if i < r.len() {
            assert(r[i] == r2[i]);
        }
    }
}

/// A round ends with every link out of the frontier followed: what was
/// visited is everything within `k + 1` steps, and the names found are the
/// next frontier.
pub proof fn lemma_round_end(
    s: NodesView,
    src: Seq<char>,
    k: int,
    v0: Seq<Seq<char>>,
    f: Seq<(Seq<char>, Seq<Seq<char>>)>,
    v: Seq<Seq<char>>,
    nx: Seq<(Seq<char>, Seq<Seq<char>>)>,
)
    requires
        k >= 0,
        bfs_visited(s, src, k, v0),
        bfs_frontier(s, src, k, f),
        bfs_round(s, src, k, v0, v, nx),
        forall|i: int, b: Seq<char>| #![trigger f[i], adjacent(s, f[i].0, b)]
            0 <= i < f.len() && adjacent(s, f[i].0, b) ==> v.contains(b),
    ensures
        bfs_visited(s, src, k + 1, v),
        bfs_frontier(s, src, k + 1, nx),
        v.len() == v0.len() + nx.len(),
{
    reveal(bfs_visited);
    reveal(bfs_frontier);
    reveal(bfs_round);
    lemma_round_closes(s, src, k, v0, f, v, nx);
}

/// When the frontier runs empty the routes are complete: one to each name
/// the source can reach.
pub proof fn lemma_bfs_finish(s: NodesView, src: Seq<char>, k: int, v: Seq<Seq<char>>, r: RoutesView)
    requires
        routes_first(r, s, src),
        k >= 1,
        bfs_visited(s, src, k, v),
        bfs_frontier(s, src, k, Seq::empty()),
        bfs_routes(s, src, v, r),
    ensures
        routes_valid(r, s, src),
{
    reveal(bfs_visited);
    reveal(bfs_frontier);
    reveal(bfs_routes);
    assert forall|x: Seq<char>| #[trigger] within(s, src, x, k) implies within(s, src, x, k - 1) by {
        if !within(s, src, x, k - 1) {
            assert(at_level(s, src, k, x));
            assert(in_frontier(Seq::<(Seq<char>, Seq<Seq<char>>)>::empty(), x));
        }
    }
    assert forall|t: Seq<char>| #[trigger] has_route(r, t) <==> (t != src && reachable(s, src, t)) by {
        if reachable(s, src, t) {
            lemma_reachable_within(s, src, k, t);
            lemma_within_mono(s, src, t, k - 1, k);
        }
        if v.contains(t) {
            assert(within(s, src, t, k));
            let p = choose|p: Seq<Seq<char>>| #[trigger] walk_between(s, src, t, p) && p.len() <= k + 1;
            assert(reachable(s, src, t));
        }
    }
}

/// For every destination, the next hop and the full path from the local node.
#[derive(Debug)]
pub struct RoutingTable {
    routes: Vec<(String, String, Vec<String>)>,
}

impl View for RoutingTable {
    type V = RoutesView;

    closed spec fn view(&self) -> RoutesView {
        routes_view(self.routes@)
    }
}

impl Clone for RoutingTable {
    fn clone(&self) -> (t: Self)
        ensures
            t@ == self@,
    {
        proof { use_type_invariant(self); }
        let mut routes: Vec<(String, String, Vec<String>)> = Vec::new();
        for i in 0..self.routes.len()
            invariant
                routes.len() == i,
                i <= self.routes.len(),
                dests_unique(self@),
                forall|j: int| 0 <= j < i ==> (#[trigger] routes@[j]).0@ == self@[j].0
                    && routes@[j].1@ == self@[j].1 && routes@[j].2.deep_view() == self@[j].2,
        {
            let (d, h, p) = &self.routes[i];
            proof { assert(self@[i as int] == (d@, h@, p.deep_view())); }
            routes.push((d.clone(), h.clone(), copy_strings(p)));
        }
        proof {
            assert(routes_view(routes@) =~= self@);
        }
        RoutingTable { routes }
    }
}

impl Default for RoutingTable {
    fn default() -> (t: Self)
        ensures
            t@ == Seq::<(Seq<char>, Seq<char>, Seq<Seq<char>>)>::empty(),
    {
        RoutingTable::new()
    }
}

impl RoutingTable {
    #[verifier::type_invariant]
    closed spec fn inv(self) -> bool {
        dests_unique(self@)
    }

    /// A table with no routes.
    pub fn new() -> (t: Self)
        ensures
            t@ == Seq::<(Seq<char>, Seq<char>, Seq<Seq<char>>)>::empty(),
    {
        let t = RoutingTable { routes: Vec::new() };
        assert(t@ =~= Seq::<(Seq<char>, Seq<char>, Seq<Seq<char>>)>::empty());
        t
    }

    /// Recomputes every route by a breadth-first search from `local_id` over
    /// the links of `nodes`, which reads the entries in map order and each
    /// node's children in list order: of several equally short walks, a route
    /// takes the one read first.
    pub fn rebuild(&mut self, nodes: &NodeMap, local_id: &str)
        ensures
            routes_valid(final(self)@, nodes@, local_id@),
    {
        let ghost s = nodes@;
        let src = local_id.to_string();
        let mut visited: Vec<String> = Vec::new();
        visited.push(src.clone());
        let mut routes: Vec<(String, String, Vec<String>)> = Vec::new();
        let mut start_path: Vec<String> = Vec::new();
        start_path.push(src.clone());
        let mut frontier: Vec<(String, Vec<String>)> = Vec::new();
        frontier.push((src.clone(), start_path));
        let ghost mut k: int = 0;
        let ghost bound: int = 2 * s.len() as int + 1;
        let ghost mut origin: Seq<int> = Seq::empty();
        proof {
            lemma_bfs_start(s, src@);
            lemma_first_start(s, src@);
            assert(visited.deep_view() =~= seq![src@]);
            assert(frontier_view(frontier@) =~= seq![(src@, seq![src@])]);
            assert(routes_view(routes@) =~= Seq::<(Seq<char>, Seq<char>, Seq<Seq<char>>)>::empty());
            reveal(bfs_visited);
            lemma_visited_bound(s, src@, seq![src@]);
        }
        while frontier.len() > 0
            invariant
                s == nodes@,
                src@ == local_id@,
                bound == 2 * s.len() + 1,
                k >= 0,
                k == 0 ==> frontier.len() > 0,
                visited.len() <= bound,
                bfs_visited(s, src@, k, visited.deep_view()),
                bfs_frontier(s, src@, k, frontier_view(frontier@)),
                bfs_routes(s, src@, visited.deep_view(), routes_view(routes@)),
                frontier_ordered(s, src@, frontier_view(frontier@)),
                routes_first(routes_view(routes@), s, src@),
            decreases 2 * (bound - visited.len()) + if frontier.len() > 0 { 1int } else { 0int },
        {
            let ghost v0 = visited.deep_view();
            let ghost f = frontier_view(frontier@);
            let mut next: Vec<(String, Vec<String>)> = Vec::new();
            proof {
                lemma_round_start(s, src@, k, v0);
                assert(frontier_view(next@) =~= Seq::<(Seq<char>, Seq<Seq<char>>)>::empty());
                origin = Seq::empty();
            }
            for fi in 0..frontier.len()
                invariant
                    s == nodes@,
                    src@ == local_id@,
                    bound == 2 * s.len() + 1,
                    k >= 0,
                    f == frontier_view(frontier@),
                    bfs_visited(s, src@, k, v0),
                    bfs_frontier(s, src@, k, f),
                    visited.len() <= bound,
                    bfs_round(s, src@, k, v0, visited.deep_view(), frontier_view(next@)),
                    bfs_routes(s, src@, visited.deep_view(), routes_view(routes@)),
                    forall|i: int, b: Seq<char>| #![trigger f[i], adjacent(s, f[i].0, b)]
                        0 <= i < fi && adjacent(s, f[i].0, b) ==> visited.deep_view().contains(b),
                    frontier_ordered(s, src@, f),
                    routes_first(routes_view(routes@), s, src@),
                    frontier_ordered(s, src@, frontier_view(next@)),
                    origin.len() == next@.len(),
                    forall|m: int| #![trigger origin[m]] 0 <= m < origin.len() ==> {
                        &&& 0 <= origin[m] < fi
                        &&& frontier_view(next@)[m].1 == f[origin[m]].1.push(frontier_view(next@)[m].0)
                    },
            {
                let cur = &frontier[fi].0;
                let path = &frontier[fi].1;
                proof {
                    assert(cur@ == f[fi as int].0 && path.deep_view() == f[fi as int].1);
                    reveal(bfs_frontier);
                }
                let nbrs = neighbors_of(nodes, cur);
                let ghost visited_at_start = visited.deep_view();
                for ni in 0..nbrs.len()
                    invariant
                        s == nodes@,
                        src@ == local_id@,
                        bound == 2 * s.len() + 1,
                        k >= 0,
                        f == frontier_view(frontier@),
                        0 <= fi < f.len(),
                        cur@ == f[fi as int].0,
                        path.deep_view() == f[fi as int].1,
                        walk_between(s, src@, cur@, path.deep_view()),
                        path.deep_view().len() == k + 1,
                        forall|b: Seq<char>| #[trigger] nbrs.deep_view().contains(b) <==> adjacent(s, cur@, b),
                        bfs_visited(s, src@, k, v0),
                        visited.len() <= bound,
                        bfs_round(s, src@, k, v0, visited.deep_view(), frontier_view(next@)),
                        bfs_routes(s, src@, visited.deep_view(), routes_view(routes@)),
                        forall|x: Seq<char>| visited_at_start.contains(x) ==> #[trigger] visited.deep_view().contains(x),
                        forall|m: int| 0 <= m < ni ==> visited.deep_view().contains(#[trigger] nbrs.deep_view()[m]),
                        nbrs.deep_view() == neighbor_seq(s, cur@),
                        bfs_frontier(s, src@, k, f),
                        forall|i: int, b: Seq<char>| #![trigger f[i], adjacent(s, f[i].0, b)]
                            0 <= i < fi && adjacent(s, f[i].0, b) ==> visited_at_start.contains(b),
                        frontier_ordered(s, src@, f),
                        routes_first(routes_view(routes@), s, src@),
                        frontier_ordered(s, src@, frontier_view(next@)),
                        origin.len() == next@.len(),
                        forall|m: int| #![trigger origin[m]] 0 <= m < origin.len() ==> {
                            &&& 0 <= origin[m] <= fi
                            &&& frontier_view(next@)[m].1 == f[origin[m]].1.push(frontier_view(next@)[m].0)
                            &&& (origin[m] < fi || link_rank(s, cur@, frontier_view(next@)[m].0) < ni)
                        },
                {
                    let nb = &nbrs[ni];
                    proof {
                        assert(nb@ == nbrs.deep_view()[ni as int]);
                        assert(nbrs.deep_view().contains(nb@));
                    }
                    let ghost before_visit = visited.deep_view();
                    if !contains_string(&visited, nb) {
                        let ghost vv = visited.deep_view();
                        let ghost nx = frontier_view(next@);
                        let ghost rv = routes_view(routes@);
                        let hop = if path.len() >= 2 { path[1].clone() } else { nb.clone() };
                        let mut new_path = copy_strings(path);
                        new_path.push(nb.clone());
                        let ghost np = path.deep_view().push(nb@);
                        proof {
                            assert(new_path.deep_view() =~= np);
                            if path.len() >= 2 {
                                assert(hop@ == path.deep_view()[1]);
                            }
                            lemma_visit_step(s, src@, k, v0, vv, nx, rv, cur@, path.deep_view(), nb@, hop@);
                            assert forall|y: Seq<char>| #[trigger] v0.contains(y) implies vv.contains(y) by {
                                reveal(bfs_round);
                            }
                            lemma_found_first(s, src@, k, v0, visited_at_start, vv, f, fi as int, nbrs.deep_view(), ni as int, nx, origin);
                        }
                        visited.push(nb.clone());
                        let stored_path = copy_strings(&new_path);
                        routes.push((nb.clone(), hop, stored_path));
                        next.push((nb.clone(), new_path));
                        proof {
                            assert(visited.deep_view() =~= vv.push(nb@));
                            assert(frontier_view(next@) =~= nx.push((nb@, np)));
                            assert(routes_view(routes@) =~= rv.push((nb@, hop@, np)));
                            lemma_push_contains(vv, nb@, nb@);
                            origin = origin.push(fi as int);
                            let nx2 = frontier_view(next@);
                            assert forall|m: int| #![trigger origin[m]] 0 <= m < origin.len() implies {
                                &&& 0 <= origin[m] <= fi
                                &&& nx2[m].1 == f[origin[m]].1.push(nx2[m].0)
                                &&& (origin[m] < fi || link_rank(s, cur@, nx2[m].0) < ni + 1)
                            } by {
                                if m < nx.len() {
                                    assert(nx2[m] == nx[m]);
                                }
                            }
                            assert forall|i: int| #![trigger routes_view(routes@)[i]] 0 <= i < routes_view(routes@).len()
                                implies first_shortest_walk(s, src@, routes_view(routes@)[i].0, routes_view(routes@)[i].2) by {
                                if i < rv.len() {
                                    assert(routes_view(routes@)[i] == rv[i]);
                                }
                            }
                        }
                    }
                    proof {
                        assert forall|m: int| 0 <= m < ni + 1 implies visited.deep_view().contains(#[trigger] nbrs.deep_view()[m]) by {
                            if m == ni {
                                assert(nbrs.deep_view()[m] == nb@);
                            } else {
                                assert(before_visit.contains(nbrs.deep_view()[m]));
                            }
                        }
                    }
                }
                proof {
                    assert forall|i: int, b: Seq<char>| #![trigger f[i], adjacent(s, f[i].0, b)]
                        0 <= i < fi + 1 && adjacent(s, f[i].0, b) implies visited.deep_view().contains(b) by {
                        if i == fi {
                            assert(nbrs.deep_view().contains(b));
                            let m = choose|m: int| 0 <= m < nbrs.deep_view().len() && nbrs.deep_view()[m] == b;
                            assert(visited.deep_view().contains(nbrs.deep_view()[m]));
                        } else {
                            assert(visited_at_start.contains(b));
                        }
                    }
                }
            }
            proof {
                lemma_round_end(s, src@, k, v0, f, visited.deep_view(), frontier_view(next@));
            }
            frontier = next;
            proof {
                k = k + 1;
            }
        }
        proof {
            assert(frontier_view(frontier@) =~= Seq::<(Seq<char>, Seq<Seq<char>>)>::empty());
            lemma_bfs_finish(s, src@, k, visited.deep_view(), routes_view(routes@));
        }
        let mut fresh: Vec<(String, String, Vec<String>)> = Vec::new();
        std::mem::swap(&mut fresh, &mut routes);
        proof {
            reveal(bfs_routes);
        }
        self.routes = fresh;
    }

    /// The position of the route to `target`, if any.
    fn find(&self, target: &String) -> (idx: Option<usize>)
        ensures
            idx is Some <==> has_route(self@, target@),
            idx matches Some(i) ==> i < self@.len() && i == route_index(self@, target@),
    {
        proof { use_type_invariant(self); }
        let mut i: usize = 0;
        while i < self.routes.len()
            invariant
                i <= self.routes.len(),
                self@.len() == self.routes.len(),
                dests_unique(self@),
                forall|j: int| 0 <= j < i ==> #[trigger] self@[j].0 != target@,
            decreases self.routes.len() - i,
        {
            if self.routes[i].0 == *target {
                proof {
                    assert(self@[i as int].0 == target@);
                    assert(has_route(self@, target@));
                    let c = route_index(self@, target@);
                    assert(self@[c].0 == target@);
                }
                return Some(i);
            }
            i = i + 1;
        }
        None
    }

    /// The full path to `target`, if there is a route to it.
    pub fn route_to(&self, target: &str) -> (path: Option<Vec<String>>)
        ensures
            path is Some <==> has_route(self@, target@),
            path matches Some(p) ==> p.deep_view() == self@[route_index(self@, target@)].2,
    {
        let t = target.to_string();
        match self.find(&t) {
            Some(i) => Some(copy_strings(&self.routes[i].2)),
            None => None,
        }
    }

    /// The first node on the way to `target`, if there is a route to it.
    pub fn next_hop(&self, target: &str) -> (hop: Option<&str>)
        ensures
            hop is Some <==> has_route(self@, target@),
            hop matches Some(h) ==> h@ == self@[route_index(self@, target@)].1,
    {
        let t = target.to_string();
        match self.find(&t) {
            Some(i) => Some(self.routes[i].1.as_str()),
            None => None,
        }
    }
}

} // verus!
