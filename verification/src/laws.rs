//! Properties that relate several operations of the mesh.
use vstd::prelude::*;
use crate::node::MeshNodeView;
use crate::node_map::{
    NodesView, has_key, key_index, keys_unique, keys_of, inserted, removed, modified, set_parents,
    lemma_key_index, lookup, stored_by_id,
};
use crate::mesh::{
    nodes_after_add, nodes_after_remove, nodes_after_leave, neighbors_view, MeshCall, ShellMeshView, call_step,
};
use crate::topology::{TopologyKind, kind_of, star_shaped, fully_meshed};
use crate::message::MeshMessageView;
use crate::routing::{RoutesView, routes_valid, has_route, route_index};
use crate::graph::{adjacent, walk_between};

verus! {

/// Changing the node under one key leaves the keys as they were.
pub proof fn lemma_keys_modified(s: NodesView, k: Seq<char>, f: spec_fn(MeshNodeView) -> MeshNodeView)
    ensures
        keys_of(modified(s, k, f)) == keys_of(s),
{
    assert(keys_of(modified(s, k, f)) =~= keys_of(s));
}

/// Setting parents leaves the keys as they were.
pub proof fn lemma_keys_set_parents(s: NodesView, ks: Seq<Seq<char>>, p: Option<Seq<char>>)
    ensures
        keys_of(set_parents(s, ks, p)) == keys_of(s),
{
    assert(keys_of(set_parents(s, ks, p)) =~= keys_of(s));
}

/// A key is present exactly when the key sequence holds it.
pub proof fn lemma_has_key_keys(s: NodesView, k: Seq<char>)
    ensures
        has_key(s, k) <==> keys_of(s).contains(k),
{
    if has_key(s, k) {
        let i = choose|i: int| #![trigger s[i]] 0 <= i < s.len() && s[i].0 == k;
        assert(keys_of(s)[i] == k);
    }
    if keys_of(s).contains(k) {
        let i = choose|i: int| 0 <= i < keys_of(s).len() && keys_of(s)[i] == k;
        assert(s[i].0 == k);
    }
}

/// Keys stay unique when the keys themselves do not change.
pub proof fn lemma_unique_same_keys(s: NodesView, t: NodesView)
    requires
        keys_unique(s),
        keys_of(s) == keys_of(t),
    ensures
        keys_unique(t),
{
    assert(keys_of(s).len() == s.len() && keys_of(t).len() == t.len());
    assert forall|i: int, j: int| 0 <= i < t.len() && 0 <= j < t.len() && i != j implies #[trigger] t[i].0 != #[trigger] t[j].0 by {
        assert(keys_of(s)[i] == keys_of(t)[i]);
        assert(keys_of(s)[j] == keys_of(t)[j]);
        assert(keys_of(s)[i] == s[i].0 && keys_of(s)[j] == s[j].0);
        assert(keys_of(t)[i] == t[i].0 && keys_of(t)[j] == t[j].0);
    }
}

/// The keys after adding node `n`: the old keys, plus `n.id` at the end if it
/// was not one of them.
pub proof fn lemma_keys_after_add(s: NodesView, n: MeshNodeView)
    ensures
        keys_of(nodes_after_add(s, n)) == if has_key(s, n.id) {
            keys_of(s)
        } else {
            keys_of(s).push(n.id)
        },
{
    let s1 = inserted(s, n.id, n);
    if has_key(s, n.id) {
        assert(keys_of(s1) =~= keys_of(s));
    } else {
        assert(keys_of(s1) =~= keys_of(s).push(n.id));
    }
    let s2 = match n.parent_id {
        Some(p) => modified(s1, p, |m: MeshNodeView| crate::node_map::add_child_to(m, n.id)),
        None => s1,
    };
    match n.parent_id {
        Some(p) => lemma_keys_modified(s1, p, |m: MeshNodeView| crate::node_map::add_child_to(m, n.id)),
        None => {},
    }
    lemma_keys_set_parents(s2, n.children_ids, Some(n.id));
}

/// Adding a node whose id is new grows the mesh by one; adding one whose id
/// is known keeps the count.
pub proof fn law_add_node_count(s: NodesView, n: MeshNodeView)
    ensures
        nodes_after_add(s, n).len() == s.len() + if has_key(s, n.id) { 0int } else { 1int },
        has_key(nodes_after_add(s, n), n.id),
{
    lemma_keys_after_add(s, n);
    lemma_has_key_keys(nodes_after_add(s, n), n.id);
    if has_key(s, n.id) {
        lemma_has_key_keys(s, n.id);
    } else {
        assert(keys_of(s).push(n.id)[s.len() as int] == n.id);
    }
}

/// After a node is added its name is listed among the mesh's node names,
/// which is what a topology reports.
pub proof fn law_added_node_listed(s: NodesView, n: MeshNodeView)
    ensures
        keys_of(nodes_after_add(s, n)).contains(n.id),
{
    law_add_node_count(s, n);
    lemma_has_key_keys(nodes_after_add(s, n), n.id);
}

/// The keys after removing the entry under `k`: the old keys without `k`.
pub proof fn lemma_keys_after_remove(s: NodesView, k: Seq<char>)
    requires
        keys_unique(s),
    ensures
        keys_of(nodes_after_remove(s, k)) == if has_key(s, k) {
            keys_of(s).remove(key_index(s, k))
        } else {
            keys_of(s)
        },
{
    if has_key(s, k) {
        let i = key_index(s, k);
        let n = s[i].1;
        let s1 = removed(s, k);
        assert(keys_of(s1) =~= keys_of(s).remove(i));
        let s2 = match n.parent_id {
            Some(p) => modified(s1, p, |m: MeshNodeView| crate::node_map::drop_child_from(m, k)),
            None => s1,
        };
        match n.parent_id {
            Some(p) => lemma_keys_modified(s1, p, |m: MeshNodeView| crate::node_map::drop_child_from(m, k)),
            None => {},
        }
        lemma_keys_set_parents(s2, n.children_ids, None);
    }
}

/// After a node is removed its name is no longer a key.
pub proof fn law_removed_node_is_gone(s: NodesView, k: Seq<char>)
    requires
        keys_unique(s),
    ensures
        !has_key(nodes_after_remove(s, k), k),
        nodes_after_remove(s, k).len() == s.len() - if has_key(s, k) { 1int } else { 0int },
{
    lemma_keys_after_remove(s, k);
    let t = nodes_after_remove(s, k);
    lemma_has_key_keys(t, k);
    if has_key(s, k) {
        let i = key_index(s, k);
        lemma_key_index(s, i);
        assert(s[i].0 == k);
        if keys_of(t).contains(k) {
            let j = choose|j: int| 0 <= j < keys_of(t).len() && keys_of(t)[j] == k;
            let j2 = if j < i { j } else { j + 1 };
            assert(keys_of(s)[j2] == k);
            assert(s[j2].0 == s[i].0);
        }
    }
}

/// Removing a node that was just added under a new name gives back the keys
/// the mesh had before.
pub proof fn law_remove_undoes_add(s: NodesView, n: MeshNodeView)
    requires
        keys_unique(s),
        !has_key(s, n.id),
    ensures
        keys_of(nodes_after_remove(nodes_after_add(s, n), n.id)) == keys_of(s),
{
    let t = nodes_after_add(s, n);
    lemma_keys_after_add(s, n);
    assert(keys_of(t) == keys_of(s).push(n.id));
    lemma_has_key_keys(s, n.id);
    lemma_unique_same_keys_push(s, t, n.id);
    lemma_keys_after_remove(t, n.id);
    let i = s.len() as int;
    assert(t[i].0 == keys_of(t)[i]);
    lemma_key_index(t, i);
    assert(keys_of(t).remove(i) =~= keys_of(s));
}

/// Appending a key that was not present keeps the keys unique.
pub proof fn lemma_unique_same_keys_push(s: NodesView, t: NodesView, k: Seq<char>)
    requires
        keys_unique(s),
        !keys_of(s).contains(k),
        keys_of(t) == keys_of(s).push(k),
    ensures
        keys_unique(t),
{
    assert(keys_of(t).len() == t.len());
    assert forall|i: int, j: int| 0 <= i < t.len() && 0 <= j < t.len() && i != j implies #[trigger] t[i].0 != #[trigger] t[j].0 by {
        assert(keys_of(t)[i] == t[i].0);
        assert(keys_of(t)[j] == t[j].0);
        if i < s.len() && j < s.len() {
            assert(keys_of(s)[i] == s[i].0);
            assert(keys_of(s)[j] == s[j].0);
            assert(keys_of(s)[i] == keys_of(t)[i]);
            assert(keys_of(s)[j] == keys_of(t)[j]);
        } else if i < s.len() {
            assert(keys_of(s)[i] == keys_of(t)[i]);
            assert(keys_of(s).contains(keys_of(s)[i]));
        } else {
            assert(keys_of(s)[j] == keys_of(t)[j]);
            assert(keys_of(s).contains(keys_of(s)[j]));
        }
    }
}

/// After the local node leaves, its name is no longer a key.
pub proof fn law_leave_removes_local(s: NodesView, local: MeshNodeView)
    requires
        keys_unique(s),
    ensures
        !has_key(nodes_after_leave(s, local), local.id),
{
    let s1 = match local.parent_id {
        Some(p) => modified(s, p, |m: MeshNodeView| crate::node_map::drop_child_from(m, local.id)),
        None => s,
    };
    match local.parent_id {
        Some(p) => lemma_keys_modified(s, p, |m: MeshNodeView| crate::node_map::drop_child_from(m, local.id)),
        None => {},
    }
    let s2 = set_parents(s1, local.children_ids, None);
    lemma_keys_set_parents(s1, local.children_ids, None);
    lemma_unique_same_keys(s, s2);
    let t = removed(s2, local.id);
    if has_key(s2, local.id) {
        let i = key_index(s2, local.id);
        lemma_key_index(s2, i);
        if has_key(t, local.id) {
            let j = choose|j: int| #![trigger t[j]] 0 <= j < t.len() && t[j].0 == local.id;
            let j2 = if j < i { j } else { j + 1 };
            assert(t[j] == s2[j2]);
        }
    }
}

/// On every route the next hop is the second name of the path, is linked to
/// the source, and the path runs from the source to the destination.
pub proof fn law_next_hop_on_path(r: RoutesView, s: NodesView, src: Seq<char>, t: Seq<char>)
    requires
        routes_valid(r, s, src),
        has_route(r, t),
    ensures
        ({
            let i = route_index(r, t);
            &&& r[i].2[0] == src
            &&& r[i].2[r[i].2.len() - 1] == t
            &&& r[i].1 == r[i].2[1]
            &&& adjacent(s, src, r[i].1)
        }),
{
    let i = route_index(r, t);
    let p = r[i].2;
    assert(walk_between(s, src, r[i].0, p));
    assert(adjacent(s, p[0], p[0int + 1]));
}

/// Storing keeps keys unique.
pub proof fn lemma_inserted_unique(s: NodesView, k: Seq<char>, v: MeshNodeView)
    requires
        keys_unique(s),
    ensures
        keys_unique(inserted(s, k, v)),
{
    let t = inserted(s, k, v);
    if has_key(s, k) {
        let i = key_index(s, k);
        assert(keys_of(t) =~= keys_of(s));
        lemma_unique_same_keys(s, t);
    } else {
        lemma_has_key_keys(s, k);
        assert(keys_of(t) =~= keys_of(s).push(k));
        lemma_unique_same_keys_push(s, t, k);
    }
}

/// Reading a key after storing under it gives the stored node; every other
/// key reads as before.
pub proof fn law_get_after_insert(s: NodesView, k: Seq<char>, v: MeshNodeView, other: Seq<char>)
    requires
        keys_unique(s),
        other != k,
    ensures
        lookup(inserted(s, k, v), k) == Some(v),
        lookup(inserted(s, k, v), other) == lookup(s, other),
{
    let t = inserted(s, k, v);
    lemma_inserted_unique(s, k, v);
    let pos = if has_key(s, k) { key_index(s, k) } else { s.len() as int };
    assert(t[pos] == (k, v));
    lemma_key_index(t, pos);
    if has_key(s, other) {
        let j = key_index(s, other);
        lemma_key_index(s, j);
        assert(j != pos);
        assert(t[j] == s[j]);
        lemma_key_index(t, j);
    }
    if has_key(t, other) {
        let j = choose|j: int| #![trigger t[j]] 0 <= j < t.len() && t[j].0 == other;
        assert(j != pos);
        assert(t[j] == s[j]);
        assert(has_key(s, other));
    }
}

/// After removing a key it reads as absent; every other key reads as before.
pub proof fn law_get_after_remove(s: NodesView, k: Seq<char>, other: Seq<char>)
    requires
        keys_unique(s),
        other != k,
    ensures
        lookup(removed(s, k), k) is None,
        lookup(removed(s, k), other) == lookup(s, other),
{
    let t = removed(s, k);
    if has_key(s, k) {
        let i = key_index(s, k);
        lemma_key_index(s, i);
        assert(keys_of(t) =~= keys_of(s).remove(i));
        if has_key(t, k) {
            let j = choose|j: int| #![trigger t[j]] 0 <= j < t.len() && t[j].0 == k;
            let j2 = if j < i { j } else { j + 1 };
            assert(t[j] == s[j2]);
        }
        assert forall|a: int, b: int| 0 <= a < t.len() && 0 <= b < t.len() && a != b implies #[trigger] t[a].0 != #[trigger] t[b].0 by {
            let a2 = if a < i { a } else { a + 1 };
            let b2 = if b < i { b } else { b + 1 };
            assert(t[a] == s[a2] && t[b] == s[b2]);
        }
        if has_key(s, other) {
            let j = key_index(s, other);
            lemma_key_index(s, j);
            let j2 = if j < i { j } else { j - 1 };
            assert(t[j2] == s[j]);
            lemma_key_index(t, j2);
        }
        if has_key(t, other) {
            let j = choose|j: int| #![trigger t[j]] 0 <= j < t.len() && t[j].0 == other;
            let j2 = if j < i { j } else { j + 1 };
            assert(t[j] == s[j2]);
            assert(has_key(s, other));
        }
    }
}

/// When the source is not among the nodes (as after the local node leaves)
/// and every node is stored under its own id, nothing is routed.
pub proof fn law_no_routes_without_source(r: RoutesView, s: NodesView, src: Seq<char>, t: Seq<char>)
    requires
        stored_by_id(s),
        !has_key(s, src),
        routes_valid(r, s, src),
    ensures
        !has_route(r, t),
{
    if has_route(r, t) {
        let p = choose|p: Seq<Seq<char>>| #[trigger] walk_between(s, src, t, p);
        assert(p.len() >= 2);
        assert(adjacent(s, p[0], p[0int + 1]));
        if crate::graph::lists_child(s, src, p[1]) {
            let i = choose|i: int| #![trigger s[i]] 0 <= i < s.len() && s[i].1.id == src && s[i].1.children_ids.contains(p[1]);
            assert(s[i].0 == src);
        }
    }
}

/// Routing is a function of the nodes and the source: any two valid route
/// tables for the same nodes and source have a route to the same names, and
/// to each the same next hop along the same path. So two tables rebuilt from
/// the same nodes agree, and rebuilding a table again changes no route.
pub proof fn law_routes_determined(r1: RoutesView, r2: RoutesView, s: NodesView, src: Seq<char>, t: Seq<char>)
    requires
        routes_valid(r1, s, src),
        routes_valid(r2, s, src),
    ensures
        has_route(r1, t) == has_route(r2, t),
        has_route(r1, t) ==> r1[route_index(r1, t)] == r2[route_index(r2, t)],
{
    if has_route(r1, t) {
        assert(has_route(r2, t));
        let e1 = r1[route_index(r1, t)];
        let e2 = r2[route_index(r2, t)];
        crate::walk_order::lemma_first_unique(s, src, t, e1.2, e2.2);
    }
}

/// Two maps with the same keys, in the same order, find a key at the same
/// position.
proof fn lemma_lookup_same_keys(s: NodesView, t: NodesView, x: Seq<char>)
    requires
        keys_unique(s),
        keys_of(s) == keys_of(t),
    ensures
        keys_unique(t),
        has_key(t, x) == has_key(s, x),
        has_key(s, x) ==> key_index(t, x) == key_index(s, x) && lookup(t, x) == Some(t[key_index(s, x)].1),
        !has_key(s, x) ==> lookup(t, x) is None,
{
    lemma_unique_same_keys(s, t);
    lemma_has_key_keys(s, x);
    lemma_has_key_keys(t, x);
    assert(keys_of(s).len() == s.len() && keys_of(t).len() == t.len());
    if has_key(s, x) {
        let j = key_index(s, x);
        lemma_key_index(s, j);
        assert(keys_of(s)[j] == keys_of(t)[j]);
        assert(t[j].0 == x);
        lemma_key_index(t, j);
    }
}

/// Changing the node under `p` changes what `p` reads as, and nothing else.
proof fn lemma_lookup_modified(s: NodesView, p: Seq<char>, f: spec_fn(MeshNodeView) -> MeshNodeView, x: Seq<char>)
    requires
        keys_unique(s),
    ensures
        keys_unique(modified(s, p, f)),
        lookup(modified(s, p, f), x) == if x == p && has_key(s, p) {
            Some(f(lookup(s, p).unwrap()))
        } else {
            lookup(s, x)
        },
{
    let t = modified(s, p, f);
    lemma_keys_modified(s, p, f);
    lemma_lookup_same_keys(s, t, x);
    if has_key(s, x) {
        let j = key_index(s, x);
        lemma_key_index(s, j);
        if has_key(s, p) {
            let q = key_index(s, p);
            lemma_key_index(s, q);
        }
    }
}

/// Setting the parent of the nodes under `keys` changes what those keys read
/// as in their parent only, and nothing else.
proof fn lemma_lookup_set_parents(s: NodesView, keys: Seq<Seq<char>>, par: Option<Seq<char>>, x: Seq<char>)
    requires
        keys_unique(s),
    ensures
        keys_unique(set_parents(s, keys, par)),
        lookup(set_parents(s, keys, par), x) == match lookup(s, x) {
            Some(m) => Some(if keys.contains(x) { MeshNodeView { parent_id: par, ..m } } else { m }),
            None => None,
        },
{
    let t = set_parents(s, keys, par);
    lemma_keys_set_parents(s, keys, par);
    lemma_lookup_same_keys(s, t, x);
    if has_key(s, x) {
        let j = key_index(s, x);
        lemma_key_index(s, j);
    }
}

/// Removing the entry under `k` keeps the keys unique.
proof fn lemma_removed_unique(s: NodesView, k: Seq<char>)
    requires
        keys_unique(s),
    ensures
        keys_unique(removed(s, k)),
{
    let t = removed(s, k);
    if has_key(s, k) {
        let i = key_index(s, k);
        assert forall|a: int, b: int| 0 <= a < t.len() && 0 <= b < t.len() && a != b implies #[trigger] t[a].0 != #[trigger] t[b].0 by {
            let a2 = if a < i { a } else { a + 1 };
            let b2 = if b < i { b } else { b + 1 };
            assert(t[a] == s[a2] && t[b] == s[b2]);
        }
    }
}

/// A name other than `k`.
spec fn other_name(k: Seq<char>) -> Seq<char> {
    k.push('x')
}

/// After `add_node(n)` the node stored under `n.id` is `n` as given, whether
/// or not that id was known before: same id, device type, capabilities,
/// address, status and last-seen stamp. (Only its parent and children may be
/// adjusted, where `n` names itself as its own parent or child.)
pub proof fn law_added_node_stored(s: NodesView, n: MeshNodeView)
    requires
        keys_unique(s),
    ensures
        lookup(nodes_after_add(s, n), n.id) matches Some(m) && {
            &&& m.id == n.id
            &&& m.device_type == n.device_type
            &&& m.capabilities == n.capabilities
            &&& m.address == n.address
            &&& m.status == n.status
            &&& m.last_seen == n.last_seen
        },
{
    let s1 = inserted(s, n.id, n);
    lemma_inserted_unique(s, n.id, n);
    assert(other_name(n.id).len() != n.id.len());
    law_get_after_insert(s, n.id, n, other_name(n.id));
    let s2 = match n.parent_id {
        Some(p) => modified(s1, p, |m: MeshNodeView| crate::node_map::add_child_to(m, n.id)),
        None => s1,
    };
    match n.parent_id {
        Some(p) => lemma_lookup_modified(s1, p, |m: MeshNodeView| crate::node_map::add_child_to(m, n.id), n.id),
        None => {},
    }
    lemma_lookup_set_parents(s2, n.children_ids, Some(n.id), n.id);
}

/// What `add_node(n)` does to any other known name `x`: it stays a key; the
/// node under `n`'s parent lists `n.id` among its children (appended once if
/// it was missing); the nodes under `n`'s children get `n.id` as parent; every
/// other field, and every other node, is as before. A name that was not a
/// key, other than `n.id`, still is not one.
pub proof fn law_add_node_links(s: NodesView, n: MeshNodeView, x: Seq<char>)
    requires
        keys_unique(s),
        x != n.id,
    ensures
        ({
            let t = nodes_after_add(s, n);
            &&& has_key(t, x) == has_key(s, x)
            &&& has_key(s, x) ==> {
                let before = lookup(s, x).unwrap();
                let after = lookup(t, x).unwrap();
                &&& after.id == before.id
                &&& after.device_type == before.device_type
                &&& after.capabilities == before.capabilities
                &&& after.address == before.address
                &&& after.status == before.status
                &&& after.last_seen == before.last_seen
                &&& (n.parent_id == Some(x) ==> after.children_ids == if before.children_ids.contains(n.id) {
                        before.children_ids
                    } else {
                        before.children_ids.push(n.id)
                    })
                &&& (n.parent_id == Some(x) ==> after.children_ids.contains(n.id))
                &&& (n.parent_id != Some(x) ==> after.children_ids == before.children_ids)
                &&& (n.children_ids.contains(x) ==> after.parent_id == Some(n.id))
                &&& (!n.children_ids.contains(x) ==> after.parent_id == before.parent_id)
            }
        }),
{
    let s1 = inserted(s, n.id, n);
    lemma_inserted_unique(s, n.id, n);
    law_get_after_insert(s, n.id, n, x);
    let s2 = match n.parent_id {
        Some(p) => modified(s1, p, |m: MeshNodeView| crate::node_map::add_child_to(m, n.id)),
        None => s1,
    };
    match n.parent_id {
        Some(p) => lemma_lookup_modified(s1, p, |m: MeshNodeView| crate::node_map::add_child_to(m, n.id), x),
        None => {},
    }
    lemma_lookup_set_parents(s2, n.children_ids, Some(n.id), x);
    let t = nodes_after_add(s, n);
    assert(t == set_parents(s2, n.children_ids, Some(n.id)));
    if has_key(s, x) && n.parent_id == Some(x) {
        let before = lookup(s, x).unwrap();
        if !before.children_ids.contains(n.id) {
            assert(before.children_ids.push(n.id)[before.children_ids.len() as int] == n.id);
        }
    }
}

/// What `remove_node(k)` leaves under any name `x`, when `k` held the node
/// `n`: nothing under `k`; every other name stays a key exactly when it was
/// one; the node under `n`'s parent no longer lists `k` among its children;
/// the nodes under `n`'s children have no parent; every other field, and
/// every other node, is as before.
pub proof fn law_remove_node_unlinks(s: NodesView, k: Seq<char>, x: Seq<char>)
    requires
        keys_unique(s),
        has_key(s, k),
    ensures
        ({
            let n = lookup(s, k).unwrap();
            let t = nodes_after_remove(s, k);
            &&& lookup(t, k) is None
            &&& x != k ==> has_key(t, x) == has_key(s, x)
            &&& x != k && has_key(s, x) ==> {
                let before = lookup(s, x).unwrap();
                let after = lookup(t, x).unwrap();
                &&& after.id == before.id
                &&& after.device_type == before.device_type
                &&& after.capabilities == before.capabilities
                &&& after.address == before.address
                &&& after.status == before.status
                &&& after.last_seen == before.last_seen
                &&& (n.parent_id == Some(x) ==> forall|c: Seq<char>|
                    #[trigger] after.children_ids.contains(c) <==> (before.children_ids.contains(c) && c != k))
                &&& (n.parent_id != Some(x) ==> after.children_ids == before.children_ids)
                &&& (n.children_ids.contains(x) ==> after.parent_id is None)
                &&& (!n.children_ids.contains(x) ==> after.parent_id == before.parent_id)
            }
        }),
{
    let n = lookup(s, k).unwrap();
    let s1 = removed(s, k);
    lemma_removed_unique(s, k);
    let y = if x != k { x } else { other_name(k) };
    assert(other_name(k).len() != k.len());
    law_get_after_remove(s, k, y);
    let s2 = match n.parent_id {
        Some(p) => modified(s1, p, |m: MeshNodeView| crate::node_map::drop_child_from(m, k)),
        None => s1,
    };
    match n.parent_id {
        Some(p) => {
            lemma_lookup_modified(s1, p, |m: MeshNodeView| crate::node_map::drop_child_from(m, k), x);
            lemma_lookup_modified(s1, p, |m: MeshNodeView| crate::node_map::drop_child_from(m, k), k);
            if p != k {
                law_get_after_remove(s, k, p);
            }
        },
        None => {},
    }
    lemma_lookup_set_parents(s2, n.children_ids, None, x);
    lemma_lookup_set_parents(s2, n.children_ids, None, k);
    let t = nodes_after_remove(s, k);
    assert(t == set_parents(s2, n.children_ids, None));
    if x != k && has_key(s, x) && n.parent_id == Some(x) {
        let before = lookup(s, x).unwrap();
        let after = lookup(t, x).unwrap();
        assert(after.children_ids == crate::node_map::drop_child_from(before, k).children_ids);
        assert forall|c: Seq<char>| #[trigger] after.children_ids.contains(c) <==> (before.children_ids.contains(c) && c != k) by {
            crate::node_map::lemma_drop_child_contains(before, k, c);
        }
    }
}

/// What `leave` leaves under any name `x`, for the local node `local`: nothing
/// under the local id; every other name stays a key exactly when it was one;
/// the node under the local node's parent no longer lists the local id among
/// its children; the nodes under the local node's children have no parent;
/// every other field, and every other node, is as before.
pub proof fn law_leave_unlinks(s: NodesView, local: MeshNodeView, x: Seq<char>)
    requires
        keys_unique(s),
    ensures
        ({
            let k = local.id;
            let t = nodes_after_leave(s, local);
            &&& lookup(t, k) is None
            &&& x != k ==> has_key(t, x) == has_key(s, x)
            &&& x != k && has_key(s, x) ==> {
                let before = lookup(s, x).unwrap();
                let after = lookup(t, x).unwrap();
                &&& after.id == before.id
                &&& after.device_type == before.device_type
                &&& after.capabilities == before.capabilities
                &&& after.address == before.address
                &&& after.status == before.status
                &&& after.last_seen == before.last_seen
                &&& (local.parent_id == Some(x) ==> forall|c: Seq<char>|
                    #[trigger] after.children_ids.contains(c) <==> (before.children_ids.contains(c) && c != k))
                &&& (local.parent_id != Some(x) ==> after.children_ids == before.children_ids)
                &&& (local.children_ids.contains(x) ==> after.parent_id is None)
                &&& (!local.children_ids.contains(x) ==> after.parent_id == before.parent_id)
            }
        }),
{
    let k = local.id;
    let s1 = match local.parent_id {
        Some(p) => modified(s, p, |m: MeshNodeView| crate::node_map::drop_child_from(m, k)),
        None => s,
    };
    match local.parent_id {
        Some(p) => {
            lemma_lookup_modified(s, p, |m: MeshNodeView| crate::node_map::drop_child_from(m, k), x);
        },
        None => {},
    }
    let s2 = set_parents(s1, local.children_ids, None);
    lemma_lookup_set_parents(s1, local.children_ids, None, x);
    let y = if x != k { x } else { other_name(k) };
    assert(other_name(k).len() != k.len());
    law_get_after_remove(s2, k, y);
    let t = nodes_after_leave(s, local);
    assert(t == removed(s2, k));
    if x != k && has_key(s, x) && local.parent_id == Some(x) {
        let before = lookup(s, x).unwrap();
        let after = lookup(t, x).unwrap();
        assert(after.children_ids == crate::node_map::drop_child_from(before, k).children_ids);
        assert forall|c: Seq<char>| #[trigger] after.children_ids.contains(c) <==> (before.children_ids.contains(c) && c != k) by {
            crate::node_map::lemma_drop_child_contains(before, k, c);
        }
    }
}

/// A map is classified as a hierarchy only when some node with children has
/// no parent (a root) and some node with children has a parent; so a map in
/// which every node has a parent is never a hierarchy. Conversely, a map of
/// two or more nodes that is neither a star nor a full mesh and has both is
/// one.
pub proof fn law_hierarchy_needs_root_and_middle(s: NodesView)
    ensures
        kind_of(s) == TopologyKind::Hierarchical ==> {
            &&& exists|i: int| #![trigger s[i]]
                0 <= i < s.len() && s[i].1.parent_id is None && s[i].1.children_ids.len() > 0
            &&& exists|j: int| #![trigger s[j]]
                0 <= j < s.len() && s[j].1.parent_id is Some && s[j].1.children_ids.len() > 0
        },
        s.len() > 1 && !star_shaped(s) && !fully_meshed(s)
            && (exists|i: int| #![trigger s[i]]
                0 <= i < s.len() && s[i].1.parent_id is None && s[i].1.children_ids.len() > 0)
            && (exists|j: int| #![trigger s[j]]
                0 <= j < s.len() && s[j].1.parent_id is Some && s[j].1.children_ids.len() > 0)
            ==> kind_of(s) == TopologyKind::Hierarchical,
{
}

/// How many entries hold a node whose id is not `id`.
pub open spec fn count_others(s: NodesView, id: Seq<char>) -> nat
    decreases s.len(),
{
    if s.len() == 0 {
        0
    } else {
        count_others(s.drop_last(), id) + if s.last().1.id != id { 1nat } else { 0nat }
    }
}

/// The neighbours are every stored node whose id is not `id`, whatever its
/// status, and nothing else: one entry for each such node (so as many as
/// there are), each of them a stored node with another id.
pub proof fn law_neighbors_are_all_other_nodes(s: NodesView, id: Seq<char>)
    ensures
        neighbors_view(s, id).len() == count_others(s, id),
        forall|i: int| #![trigger s[i]] 0 <= i < s.len() && s[i].1.id != id ==> neighbors_view(s, id).contains(s[i].1),
        forall|m: MeshNodeView| #[trigger] neighbors_view(s, id).contains(m) ==>
            m.id != id && exists|i: int| #![trigger s[i]] 0 <= i < s.len() && s[i].1 == m,
    decreases s.len(),
{
    let a = s.map_values(|e: (Seq<char>, MeshNodeView)| e.1);
    let pred = |n: MeshNodeView| n.id != id;
    assert(neighbors_view(s, id) == a.filter(pred));
    broadcast use vstd::seq_lib::group_filter_ensures;
    assert forall|i: int| #![trigger s[i]] 0 <= i < s.len() && s[i].1.id != id implies neighbors_view(s, id).contains(s[i].1) by {
        assert(a[i] == s[i].1);
        a.lemma_filter_contains(pred, i);
    }
    assert forall|m: MeshNodeView| #[trigger] neighbors_view(s, id).contains(m) implies
        m.id != id && exists|i: int| #![trigger s[i]] 0 <= i < s.len() && s[i].1 == m by {
        a.lemma_filter_contains_rev(pred, m);
        let i = choose|i: int| 0 <= i < a.len() && a[i] == m;
        assert(s[i].1 == m);
        let j = choose|j: int| 0 <= j < a.filter(pred).len() && a.filter(pred)[j] == m;
        a.lemma_filter_pred(pred, j);
    }
    if s.len() > 0 {
        law_neighbors_are_all_other_nodes(s.drop_last(), id);
        let b = s.drop_last().map_values(|e: (Seq<char>, MeshNodeView)| e.1);
        assert(a.drop_last() =~= b);
        assert(neighbors_view(s.drop_last(), id) == b.filter(pred));
        reveal(Seq::filter);
        assert(a.last() == s.last().1);
    }
}

/// `states` arise from one another by `calls`, in order: each call takes
/// the state before it to the one after it.
pub open spec fn runs(states: Seq<ShellMeshView>, calls: Seq<MeshCall>) -> bool {
    &&& states.len() == calls.len() + 1
    &&& forall|i: int| 0 <= i < calls.len() ==> call_step(#[trigger] calls[i], states[i], states[i + 1])
}

/// The messages that `calls` put in the inbox, oldest first: those of the
/// sends that returned `Ok` and of the broadcasts.
pub open spec fn delivered_messages(calls: Seq<MeshCall>) -> Seq<MeshMessageView>
    decreases calls.len(),
{
    if calls.len() == 0 {
        Seq::empty()
    } else {
        let earlier = delivered_messages(calls.drop_last());
        match calls.last() {
            MeshCall::Send { message, delivered } => if delivered { earlier.push(message) } else { earlier },
            MeshCall::Broadcast { message } => earlier.push(message),
            _ => earlier,
        }
    }
}

/// A run cut short is still a run.
proof fn lemma_runs_prefix(states: Seq<ShellMeshView>, calls: Seq<MeshCall>)
    requires
        runs(states, calls),
        calls.len() > 0,
    ensures
        runs(states.drop_last(), calls.drop_last()),
{
    assert forall|i: int| 0 <= i < calls.drop_last().len() implies
        call_step(#[trigger] calls.drop_last()[i], states.drop_last()[i], states.drop_last()[i + 1]) by {
        assert(call_step(calls[i], states[i], states[i + 1]));
    }
}

/// Over any run, the inbox ends as it began followed by the messages of the
/// sends that returned `Ok` and of the broadcasts, in the order of the calls.
/// So from a new mesh `inbox_len` counts those calls, and the inbox only ever
/// grows: each state's inbox begins with every earlier one's.
pub proof fn law_inbox_holds_delivered_messages(states: Seq<ShellMeshView>, calls: Seq<MeshCall>)
    requires
        runs(states, calls),
    ensures
        states.last().inbox == states[0].inbox + delivered_messages(calls),
        states.last().inbox.len() == states[0].inbox.len() + delivered_messages(calls).len(),
        forall|i: int, j: int| 0 <= i <= j < states.len() ==>
            (#[trigger] states[i]).inbox.len() <= (#[trigger] states[j]).inbox.len()
            && states[j].inbox.subrange(0, states[i].inbox.len() as int) == states[i].inbox,
    decreases calls.len(),
{
    if calls.len() == 0 {
        assert(states[0].inbox + delivered_messages(calls) =~= states[0].inbox);
    } else {
        let n = calls.len() - 1;
        lemma_runs_prefix(states, calls);
        law_inbox_holds_delivered_messages(states.drop_last(), calls.drop_last());
        assert(states.drop_last().last() == states[n]);
        assert(states.drop_last()[0] == states[0]);
        assert(call_step(calls[n], states[n], states[n + 1]));
        assert(calls.last() == calls[n]);
        let before = states[0].inbox + delivered_messages(calls.drop_last());
        match calls[n] {
            MeshCall::Send { message, delivered } => {
                if delivered {
                    assert(states[0].inbox + delivered_messages(calls) =~= before.push(message));
                }
            },
            MeshCall::Broadcast { message } => {
                assert(states[0].inbox + delivered_messages(calls) =~= before.push(message));
            },
            _ => {},
        }
        assert forall|i: int, j: int| 0 <= i <= j < states.len() implies
            (#[trigger] states[i]).inbox.len() <= (#[trigger] states[j]).inbox.len()
            && states[j].inbox.subrange(0, states[i].inbox.len() as int) == states[i].inbox by {
            if j < states.len() - 1 {
                assert(states.drop_last()[i] == states[i]);
                assert(states.drop_last()[j] == states[j]);
            } else if i < j {
                assert(states.drop_last()[i] == states[i]);
                assert(states.drop_last()[n] == states[n]);
                let pi = states[i].inbox;
                let pn = states[n].inbox;
                assert(pn.subrange(0, pi.len() as int) == pi);
                assert(pn.len() <= states[j].inbox.len());
                assert(states[j].inbox.subrange(0, pn.len() as int) =~= pn);
                assert(states[j].inbox.subrange(0, pi.len() as int) =~= pn.subrange(0, pi.len() as int));
            } else {
                assert(states[j].inbox.subrange(0, states[j].inbox.len() as int) =~= states[j].inbox);
            }
        }
    }
}

/// Over any run from a mesh that has not joined (such as a new one), the
/// mesh is joined exactly when some call was a `join` and no `leave` came
/// after it: `is_joined` follows the last `join` or `leave`, and no other
/// call changes it.
pub proof fn law_joined_follows_last_join_or_leave(states: Seq<ShellMeshView>, calls: Seq<MeshCall>)
    requires
        runs(states, calls),
        !states[0].joined,
    ensures
        states.last().joined <==> exists|i: int|
            0 <= i < calls.len() && #[trigger] calls[i] is Join
            && forall|j: int| i < j < calls.len() ==> !(#[trigger] calls[j] is Leave),
    decreases calls.len(),
{
    if calls.len() > 0 {
        let n = calls.len() - 1;
        let prev = calls.drop_last();
        lemma_runs_prefix(states, calls);
        law_joined_follows_last_join_or_leave(states.drop_last(), prev);
        assert(states.drop_last().last() == states[n]);
        assert(states.drop_last()[0] == states[0]);
        assert(call_step(calls[n], states[n], states[n + 1]));
        match calls[n] {
            MeshCall::Join => {
                assert(calls[n] is Join);
            },
            MeshCall::Leave => {
                assert(calls[n] is Leave);
            },
            _ => {
                if states[n].joined {
                    let i = choose|i: int|
                        0 <= i < prev.len() && #[trigger] prev[i] is Join
                        && forall|j: int| i < j < prev.len() ==> !(#[trigger] prev[j] is Leave);
                    assert(calls[i] is Join);
                    assert forall|j: int| i < j < calls.len() implies !(#[trigger] calls[j] is Leave) by {
                        if j < n {
                            assert(prev[j] == calls[j]);
                        }
                    }
                }
                if exists|i: int|
                    0 <= i < calls.len() && #[trigger] calls[i] is Join
                    && forall|j: int| i < j < calls.len() ==> !(#[trigger] calls[j] is Leave) {
                    let i = choose|i: int|
                        0 <= i < calls.len() && #[trigger] calls[i] is Join
                        && forall|j: int| i < j < calls.len() ==> !(#[trigger] calls[j] is Leave);
                    assert(i != n);
                    assert(prev[i] is Join);
                    assert forall|j: int| i < j < prev.len() implies !(#[trigger] prev[j] is Leave) by {
                        assert(prev[j] == calls[j]);
                    }
                }
            },
        }
    }
}

} // verus!
