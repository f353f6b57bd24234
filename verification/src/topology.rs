//! Recognising the shape of a mesh from who lists whom as parent and child.
use vstd::prelude::*;
use crate::node::MeshNodeView;
use crate::node_map::{NodeMap, NodesView, has_key, keys_of, lookup};
use crate::strings::contains_string;

verus! {

/// The recognised shapes of a mesh.
#[derive(Debug, Clone, Copy, PartialEq, Eq, Structural)]
pub enum TopologyKind {
    Star,
    FullMesh,
    Hierarchical,
    Custom,
}

/// The shape of a mesh, its node names and its parent-child edges.
#[derive(Debug, Clone)]
pub struct MeshTopology {
    pub kind: TopologyKind,
    pub nodes: Vec<String>,
    pub edges: Vec<(String, String)>,
}

/// A node with children of its own.
pub open spec fn is_hub(n: MeshNodeView) -> bool {
    n.children_ids.len() > 0
}

/// Exactly one node has children, and none of its children that the map
/// holds has children of its own.
pub open spec fn star_shaped(s: NodesView) -> bool {
    exists|h: int| #![trigger s[h]]
        0 <= h < s.len() && is_hub(s[h].1)
        && (forall|j: int| #![trigger s[j]] 0 <= j < s.len() && is_hub(s[j].1) ==> j == h)
        && (forall|c: Seq<char>| #[trigger] s[h].1.children_ids.contains(c) && has_key(s, c)
            ==> !is_hub(lookup(s, c).unwrap()))
}

/// Node `n` is linked to the name `k`: it lists `k` as a child or as its parent.
pub open spec fn linked_to(n: MeshNodeView, k: Seq<char>) -> bool {
    n.children_ids.contains(k) || n.parent_id == Some(k)
}

/// Every node is linked, as child or parent, to every key of the map other
/// than its own id.
pub open spec fn fully_meshed(s: NodesView) -> bool {
    forall|i: int, j: int|
        #![trigger s[i], s[j]]
        0 <= i < s.len() && 0 <= j < s.len() && s[j].0 != s[i].1.id ==> linked_to(s[i].1, s[j].0)
}

/// Some node with children has no parent (a root), and some node with
/// children has a parent (an intermediate level).
pub open spec fn hierarchical(s: NodesView) -> bool {
    &&& exists|i: int| #![trigger s[i]] 0 <= i < s.len() && s[i].1.parent_id is None && is_hub(s[i].1)
    &&& exists|j: int| #![trigger s[j]] 0 <= j < s.len() && s[j].1.parent_id is Some && is_hub(s[j].1)
}

/// The shape of the nodes of `s`: a map of at most one node is a star;
/// otherwise the first of star, full mesh and hierarchy that fits, else custom.
pub open spec fn kind_of(s: NodesView) -> TopologyKind {
    if s.len() <= 1 {
        TopologyKind::Star
    } else if star_shaped(s) {
        TopologyKind::Star
    } else if fully_meshed(s) {
        TopologyKind::FullMesh
    } else if hierarchical(s) {
        TopologyKind::Hierarchical
    } else {
        TopologyKind::Custom
    }
}

/// The edges from node `n` to those of its children that the map holds, in
/// the order it lists them.
pub open spec fn child_edges(s: NodesView, n: MeshNodeView, cs: Seq<Seq<char>>) -> Seq<(Seq<char>, Seq<char>)> {
    cs.filter(|c: Seq<char>| has_key(s, c)).map_values(|c: Seq<char>| (n.id, c))
}

/// Edges `e` extended by node `n`: its child edges, then the edge from its
/// parent, when the map holds the parent and that edge is not yet listed.
pub open spec fn add_node_edges(s: NodesView, e: Seq<(Seq<char>, Seq<char>)>, n: MeshNodeView) -> Seq<(Seq<char>, Seq<char>)> {
    let e2 = e + child_edges(s, n, n.children_ids);
    match n.parent_id {
        Some(p) => if has_key(s, p) && !e2.contains((p, n.id)) {
            e2.push((p, n.id))
        } else {
            e2
        },
        None => e2,
    }
}

/// The edges contributed by the first `k` entries of `s`, in order.
pub open spec fn edges_upto(s: NodesView, k: int) -> Seq<(Seq<char>, Seq<char>)>
    decreases k,
{
    if k <= 0 {
        Seq::empty()
    } else {
        add_node_edges(s, edges_upto(s, k - 1), s[k - 1].1)
    }
}

/// The edges of a map of nodes: none for at most one node, else those of
/// every entry in order.
pub open spec fn edges_of(s: NodesView) -> Seq<(Seq<char>, Seq<char>)> {
    if s.len() <= 1 {
        Seq::empty()
    } else {
        edges_upto(s, s.len() as int)
    }
}

/// Whether `edges` holds the edge `e`.
fn contains_edge(edges: &Vec<(String, String)>, e: &(String, String)) -> (found: bool)
    ensures
        found == edges.deep_view().contains(e.deep_view()),
{
    let mut i: usize = 0;
    while i < edges.len()
        invariant
            i <= edges.len(),
            forall|j: int| 0 <= j < i ==> #[trigger] edges.deep_view()[j] != e.deep_view(),
        decreases edges.len() - i,
    {
        if edges[i].0 == e.0 && edges[i].1 == e.1 {
            assert(edges.deep_view()[i as int] == e.deep_view());
            return true;
        }
        i = i + 1;
    }
    false
}

impl MeshTopology {
    /// Whether the mesh is a star.
    fn is_star(nodes: &NodeMap) -> (b: bool)
        ensures
            b == star_shaped(nodes@),
    {
        let ghost s = nodes@;
        let es = nodes.entries();
        let mut hub: Option<usize> = None;
        for i in 0..es.len()
            invariant
                s == nodes@,
                es@.len() == s.len(),
                forall|i: int| 0 <= i < es@.len() ==> (#[trigger] es@[i]).0@ == s[i].0 && es@[i].1@ == s[i].1,
                match hub {
                    None => forall|j: int| 0 <= j < i ==> !is_hub(#[trigger] s[j].1),
                    Some(h) => h < i && is_hub(s[h as int].1)
                        && forall|j: int| 0 <= j < i && is_hub(#[trigger] s[j].1) ==> j == h,
                },
        {
            assert(es@[i as int].1@ == s[i as int].1);
            if es[i].1.children_ids.len() > 0 {
                match hub {
                    None => { hub = Some(i); },
                    Some(h) => {
                        proof {
                            assert(is_hub(s[h as int].1) && is_hub(s[i as int].1));
                            if star_shaped(s) {
                                let w = choose|w: int| #![trigger s[w]]
                                    0 <= w < s.len() && is_hub(s[w].1)
                                    && (forall|j: int| #![trigger s[j]] 0 <= j < s.len() && is_hub(s[j].1) ==> j == w)
                                    && (forall|c: Seq<char>| #[trigger] s[w].1.children_ids.contains(c) && has_key(s, c)
                                        ==> !is_hub(lookup(s, c).unwrap()));
                                assert(h == w);
                                assert(i == w);
                            }
                        }
                        return false;
                    },
                }
            }
        }
        match hub {
            None => {
                proof {
                    if star_shaped(s) {
                        let w = choose|w: int| #![trigger s[w]] 0 <= w < s.len() && is_hub(s[w].1);
                        assert(!is_hub(s[w].1));
                    }
                }
                false
            },
            Some(h) => {
                let hub_node = &es[h].1;
                assert(hub_node@ == s[h as int].1);
                for j in 0..hub_node.children_ids.len()
                    invariant
                        s == nodes@,
                        h < s.len(),
                        hub_node@ == s[h as int].1,
                        is_hub(s[h as int].1),
                        forall|j2: int| #![trigger s[j2]] 0 <= j2 < s.len() && is_hub(s[j2].1) ==> j2 == h,
                        forall|j2: int| 0 <= j2 < j ==> has_key(s, #[trigger] hub_node@.children_ids[j2])
                            ==> !is_hub(lookup(s, hub_node@.children_ids[j2]).unwrap()),
                {
                    let c = &hub_node.children_ids[j];
                    assert(c@ == hub_node@.children_ids[j as int]);
                    match nodes.get(c.as_str()) {
                        Some(child) => {
                            if child.children_ids.len() > 0 {
                                proof {
                                    if star_shaped(s) {
                                        let w = choose|w: int| #![trigger s[w]]
                                            0 <= w < s.len() && is_hub(s[w].1)
                                            && (forall|j: int| #![trigger s[j]] 0 <= j < s.len() && is_hub(s[j].1) ==> j == w)
                                            && (forall|c: Seq<char>| #[trigger] s[w].1.children_ids.contains(c) && has_key(s, c)
                                                ==> !is_hub(lookup(s, c).unwrap()));
                                        assert(w == h);
                                        assert(s[w].1.children_ids.contains(c@));
                                    }
                                }
                                return false;
                            }
                        },
                        None => {},
                    }
                }
                proof {
                    assert forall|c: Seq<char>| #[trigger] s[h as int].1.children_ids.contains(c) && has_key(s, c)
                        implies !is_hub(lookup(s, c).unwrap()) by {
                        let m = choose|m: int| 0 <= m < s[h as int].1.children_ids.len() && s[h as int].1.children_ids[m] == c;
                        assert(hub_node@.children_ids[m] == c);
                    }
                    assert(star_shaped(s));
                }
                true
            },
        }
    }

    /// Whether every node is linked to all the others.
    fn is_full_mesh(nodes: &NodeMap) -> (b: bool)
        ensures
            b == fully_meshed(nodes@),
    {
        let ghost s = nodes@;
        let es = nodes.entries();
        for i in 0..es.len()
            invariant
                s == nodes@,
                es@.len() == s.len(),
                forall|i: int| 0 <= i < es@.len() ==> (#[trigger] es@[i]).0@ == s[i].0 && es@[i].1@ == s[i].1,
                forall|i2: int, j: int|
                    #![trigger s[i2], s[j]]
                    0 <= i2 < i && 0 <= j < s.len() && s[j].0 != s[i2].1.id ==> linked_to(s[i2].1, s[j].0),
        {
            let node = &es[i].1;
            assert(node@ == s[i as int].1);
            for j in 0..es.len()
                invariant
                    s == nodes@,
                    0 <= i < s.len(),
                    node@ == s[i as int].1,
                    es@.len() == s.len(),
                    forall|i: int| 0 <= i < es@.len() ==> (#[trigger] es@[i]).0@ == s[i].0 && es@[i].1@ == s[i].1,
                    forall|i2: int, j2: int|
                        #![trigger s[i2], s[j2]]
                        0 <= i2 < i && 0 <= j2 < s.len() && s[j2].0 != s[i2].1.id ==> linked_to(s[i2].1, s[j2].0),
                    forall|j2: int|
                        #![trigger s[j2]]
                        0 <= j2 < j && s[j2].0 != s[i as int].1.id ==> linked_to(s[i as int].1, s[j2].0),
            {
                let key = &es[j].0;
                assert(key@ == s[j as int].0);
                if *key != node.id {
                    let is_parent = match &node.parent_id {
                        Some(p) => *p == *key,
                        None => false,
                    };
                    if !is_parent && !contains_string(&node.children_ids, key) {
                        proof {
                            assert(!linked_to(s[i as int].1, s[j as int].0));
                        }
                        return false;
                    }
                }
            }
        }
        true
    }

    /// Whether the mesh has a root with children and an intermediate level.
    fn is_hierarchical(nodes: &NodeMap) -> (b: bool)
        ensures
            b == hierarchical(nodes@),
    {
        let ghost s = nodes@;
        let es = nodes.entries();
        let mut has_root = false;
        let mut has_intermediate = false;
        for i in 0..es.len()
            invariant
                s == nodes@,
                es@.len() == s.len(),
                forall|i: int| 0 <= i < es@.len() ==> (#[trigger] es@[i]).0@ == s[i].0 && es@[i].1@ == s[i].1,
                has_root == exists|j: int| #![trigger s[j]] 0 <= j < i && s[j].1.parent_id is None && is_hub(s[j].1),
                has_intermediate == exists|j: int| #![trigger s[j]] 0 <= j < i && s[j].1.parent_id is Some && is_hub(s[j].1),
        {
            let node = &es[i].1;
            assert(node@ == s[i as int].1);
            if node.children_ids.len() > 0 {
                if node.parent_id.is_none() {
                    has_root = true;
                } else {
                    has_intermediate = true;
                }
            }
        }
        has_root && has_intermediate
    }

    /// Detects the shape of a set of nodes, and lists their names and their
    /// parent-child edges.
    pub fn detect(nodes: &NodeMap) -> (topo: Self)
        ensures
            topo.kind == kind_of(nodes@),
            topo.nodes.deep_view() == keys_of(nodes@),
            topo.edges.deep_view() == edges_of(nodes@),
    {
        let ghost s = nodes@;
        let node_ids = nodes.keys();
        let n = nodes.len();
        if n <= 1 {
            let edges: Vec<(String, String)> = Vec::new();
            assert(edges.deep_view() =~= edges_of(s));
            return MeshTopology { kind: TopologyKind::Star, nodes: node_ids, edges };
        }
        let es = nodes.entries();
        let mut edges: Vec<(String, String)> = Vec::new();
        assert(edges.deep_view() =~= edges_upto(s, 0));
        for i in 0..es.len()
            invariant
                s == nodes@,
                es@.len() == s.len(),
                forall|i: int| 0 <= i < es@.len() ==> (#[trigger] es@[i]).0@ == s[i].0 && es@[i].1@ == s[i].1,
                edges.deep_view() == edges_upto(s, i as int),
        {
            let node = &es[i].1;
            let ghost nv = s[i as int].1;
            let ghost e0 = edges.deep_view();
            assert(node@ == nv);
            assert(nv.children_ids.take(0) =~= Seq::<Seq<char>>::empty());
            assert(e0 + child_edges(s, nv, nv.children_ids.take(0)) =~= e0);
            for j in 0..node.children_ids.len()
                invariant
                    s == nodes@,
                    node@ == nv,
                    edges.deep_view() == e0 + child_edges(s, nv, nv.children_ids.take(j as int)),
            {
                let c = &node.children_ids[j];
                let ghost before = edges.deep_view();
                proof {
                    assert(c@ == nv.children_ids[j as int]);
                    assert(nv.children_ids.take(j + 1) =~= nv.children_ids.take(j as int).push(c@));
                    nv.children_ids.take(j as int).lemma_filter_push(c@, |c: Seq<char>| has_key(s, c));
                }
                if nodes.contains_key(c.as_str()) {
                    edges.push((node.id.clone(), c.clone()));
                    proof {
                        assert(edges.deep_view() =~= before.push((nv.id, c@)));
                        assert(child_edges(s, nv, nv.children_ids.take(j + 1))
                            =~= child_edges(s, nv, nv.children_ids.take(j as int)).push((nv.id, c@)));
                        assert(edges.deep_view() =~= e0 + child_edges(s, nv, nv.children_ids.take(j + 1)));
                    }
                } else {
                    proof {
                        assert(child_edges(s, nv, nv.children_ids.take(j + 1))
                            =~= child_edges(s, nv, nv.children_ids.take(j as int)));
                    }
                }
            }
            assert(nv.children_ids.take(nv.children_ids.len() as int) =~= nv.children_ids);
            match &node.parent_id {
                Some(p) => {
                    if nodes.contains_key(p.as_str()) {
                        let e = (p.clone(), node.id.clone());
                        if !contains_edge(&edges, &e) {
                            let ghost before = edges.deep_view();
                            edges.push(e);
                            assert(edges.deep_view() =~= before.push((p@, nv.id)));
                        }
                    }
                },
                None => {},
            }
            assert(edges.deep_view() =~= edges_upto(s, i + 1));
        }
        let kind = if Self::is_star(nodes) {
            TopologyKind::Star
        } else if Self::is_full_mesh(nodes) {
            TopologyKind::FullMesh
        } else if Self::is_hierarchical(nodes) {
            TopologyKind::Hierarchical
        } else {
            TopologyKind::Custom
        };
        MeshTopology { kind, nodes: node_ids, edges }
    }
}

} // verus!
