//! The set of nodes a mesh knows, keyed by name, in a fixed order.
use vstd::prelude::*;
use crate::node::{MeshNode, MeshNodeView};
use crate::strings::contains_string;

verus! {

/// The contents of a node map: its entries, key and node, in order.
pub type NodesView = Seq<(Seq<char>, MeshNodeView)>;

/// Whether some entry of `s` has key `k`.
pub open spec fn has_key(s: NodesView, k: Seq<char>) -> bool {
    exists|i: int| #![trigger s[i]] 0 <= i < s.len() && s[i].0 == k
}

/// The position of the entry with key `k` (meaningful when there is one).
pub open spec fn key_index(s: NodesView, k: Seq<char>) -> int {
    choose|i: int| #![trigger s[i]] 0 <= i < s.len() && s[i].0 == k
}

/// No two entries share a key.
pub open spec fn keys_unique(s: NodesView) -> bool {
    forall|i: int, j: int|
        #![trigger s[i], s[j]]
        0 <= i < s.len() && 0 <= j < s.len() && i != j ==> s[i].0 != s[j].0
}

/// The node stored under `k`, if any.
pub open spec fn lookup(s: NodesView, k: Seq<char>) -> Option<MeshNodeView> {
    if has_key(s, k) {
        Some(s[key_index(s, k)].1)
    } else {
        None
    }
}

/// The keys of `s`, in order.
pub open spec fn keys_of(s: NodesView) -> Seq<Seq<char>> {
    s.map_values(|e: (Seq<char>, MeshNodeView)| e.0)
}

/// `s` with `v` stored under `k`: in place if `k` is present, else at the end.
pub open spec fn inserted(s: NodesView, k: Seq<char>, v: MeshNodeView) -> NodesView {
    if has_key(s, k) {
        s.update(key_index(s, k), (k, v))
    } else {
        s.push((k, v))
    }
}

/// `s` without the entry under `k`; the other entries keep their order.
pub open spec fn removed(s: NodesView, k: Seq<char>) -> NodesView {
    if has_key(s, k) {
        s.remove(key_index(s, k))
    } else {
        s
    }
}

/// `s` with the node under `k` replaced by `f` of it (unchanged if `k` is absent).
pub open spec fn modified(s: NodesView, k: Seq<char>, f: spec_fn(MeshNodeView) -> MeshNodeView) -> NodesView {
    if has_key(s, k) {
        s.update(key_index(s, k), (k, f(s[key_index(s, k)].1)))
    } else {
        s
    }
}

/// `s` with the parent of every node whose key is in `keys` set to `parent`.
pub open spec fn set_parents(s: NodesView, keys: Seq<Seq<char>>, parent: Option<Seq<char>>) -> NodesView {
    s.map_values(|e: (Seq<char>, MeshNodeView)|
        if keys.contains(e.0) {
            (e.0, MeshNodeView { parent_id: parent, ..e.1 })
        } else {
            e
        })
}

/// `n` with `c` appended to its children, unless it already lists it.
pub open spec fn add_child_to(n: MeshNodeView, c: Seq<char>) -> MeshNodeView {
    if n.children_ids.contains(c) {
        n
    } else {
        MeshNodeView { children_ids: n.children_ids.push(c), ..n }
    }
}

/// `n` with every occurrence of `c` dropped from its children.
pub open spec fn drop_child_from(n: MeshNodeView, c: Seq<char>) -> MeshNodeView {
    MeshNodeView { children_ids: n.children_ids.filter(|x: Seq<char>| x != c), ..n }
}

/// After dropping `c`, the children are the old ones other than `c`.
pub proof fn lemma_drop_child_contains(n: MeshNodeView, c: Seq<char>, y: Seq<char>)
    ensures
        drop_child_from(n, c).children_ids.contains(y) <==> (n.children_ids.contains(y) && y != c),
{
    broadcast use {vstd::seq_lib::group_filter_ensures, vstd::seq::Seq::lemma_filter_contains_rev};
    let kept = drop_child_from(n, c).children_ids;
    if kept.contains(y) {
        let j = choose|j: int| 0 <= j < kept.len() && kept[j] == y;
        assert(kept[j] != c);
        assert(n.children_ids.contains(y));
    }
    if n.children_ids.contains(y) && y != c {
        let j = choose|j: int| 0 <= j < n.children_ids.len() && n.children_ids[j] == y;
        assert(kept.contains(n.children_ids[j]));
    }
}

/// Every node is stored under its own id.
pub open spec fn stored_by_id(s: NodesView) -> bool {
    forall|i: int| #![trigger s[i]] 0 <= i < s.len() ==> s[i].0 == s[i].1.id
}

/// The key of an entry equals the position's key, so `key_index` finds it back.
pub proof fn lemma_key_index(s: NodesView, i: int)
    requires
        keys_unique(s),
        0 <= i < s.len(),
    ensures
        has_key(s, s[i].0),
        key_index(s, s[i].0) == i,
{
    assert(has_key(s, s[i].0));
}

/// A map of nodes keyed by name. Keys are unique; entries keep the order in
/// which their keys were first inserted.
#[derive(Debug)]
pub struct NodeMap {
    entries: Vec<(String, MeshNode)>,
}

/// The plain-value view of a sequence of entries.
pub open spec fn entries_view(es: Seq<(String, MeshNode)>) -> NodesView {
    es.map_values(|e: (String, MeshNode)| (e.0@, e.1@))
}

impl View for NodeMap {
    type V = NodesView;

    closed spec fn view(&self) -> NodesView {
        entries_view(self.entries@)
    }
}

impl Clone for NodeMap {
    fn clone(&self) -> (m: Self)
        ensures
            m@ == self@,
    {
        proof { use_type_invariant(self); }
        let mut entries: Vec<(String, MeshNode)> = Vec::new();
        for i in 0..self.entries.len()
            invariant
                entries.len() == i,
                i <= self.entries.len(),
                keys_unique(self@),
                forall|j: int| 0 <= j < i ==> (#[trigger] entries@[j]).0@ == self@[j].0 && entries@[j].1@ == self@[j].1,
        {
            let (k, n) = &self.entries[i];
            proof { assert(self@[i as int] == (k@, n@)); }
            entries.push((k.clone(), n.clone()));
        }
        proof {
            assert(entries_view(entries@) =~= self@);
        }
        NodeMap { entries }
    }
}

impl NodeMap {
    #[verifier::type_invariant]
    closed spec fn inv(self) -> bool {
        keys_unique(self@)
    }

    /// An empty map.
    pub fn new() -> (m: Self)
        ensures
            m@ == Seq::<(Seq<char>, MeshNodeView)>::empty(),
    {
        let m = NodeMap { entries: Vec::new() };
        assert(m@ =~= Seq::<(Seq<char>, MeshNodeView)>::empty());
        m
    }

    /// The number of entries. (Its keys are unique.)
    pub fn len(&self) -> (n: usize)
        ensures
            n == self@.len(),
            keys_unique(self@),
    {
        proof { use_type_invariant(self); }
        self.entries.len()
    }

    /// Whether the map has no entries.
    pub fn is_empty(&self) -> (b: bool)
        ensures
            b == (self@.len() == 0),
    {
        self.entries.len() == 0
    }

    /// The position of the entry with key `key`, if any.
    fn find(&self, key: &String) -> (idx: Option<usize>)
        ensures
            idx is Some <==> has_key(self@, key@),
            idx matches Some(i) ==> i < self@.len() && i == key_index(self@, key@) && self@[i as int].0 == key@,
    {
        proof { use_type_invariant(self); }
        let mut i: usize = 0;
        while i < self.entries.len()
            invariant
                i <= self.entries.len(),
                self@.len() == self.entries.len(),
                keys_unique(self@),
                forall|j: int| 0 <= j < i ==> #[trigger] self@[j].0 != key@,
            decreases self.entries.len() - i,
        {
            if self.entries[i].0 == *key {
                proof { lemma_key_index(self@, i as int); }
                return Some(i);
            }
            i = i + 1;
        }
        None
    }

    /// Whether some entry has key `key`.
    pub fn contains_key(&self, key: &str) -> (b: bool)
        ensures
            b == has_key(self@, key@),
    {
        let k = key.to_string();
        self.find(&k).is_some()
    }

    /// The node stored under `key`, if any.
    pub fn get(&self, key: &str) -> (node: Option<&MeshNode>)
        ensures
            node is Some <==> has_key(self@, key@),
            node matches Some(n) ==> lookup(self@, key@) == Some(n@),
    {
        let k = key.to_string();
        match self.find(&k) {
            Some(i) => Some(&self.entries[i].1),
            None => None,
        }
    }

    /// Stores `node` under `key`, returning the node it replaces.
    pub fn insert(&mut self, key: String, node: MeshNode) -> (prev: Option<MeshNode>)
        ensures
            keys_unique(final(self)@),
            final(self)@ == inserted(old(self)@, key@, node@),
            prev is Some <==> has_key(old(self)@, key@),
            prev matches Some(p) ==> lookup(old(self)@, key@) == Some(p@),
    {
        proof { use_type_invariant(&*self); }
        let ghost s = self@;
        match self.find(&key) {
            Some(i) => {
                let mut entries = Vec::new();
                std::mem::swap(&mut entries, &mut self.entries);
                let (_, prev) = entries.remove(i);
                entries.insert(i, (key, node));
                proof {
                    assert(entries_view(entries@) =~= inserted(s, key@, node@));
                }
                self.entries = entries;
                Some(prev)
            },
            None => {
                let mut entries = Vec::new();
                std::mem::swap(&mut entries, &mut self.entries);
                entries.push((key, node));
                proof {
                    assert(entries_view(entries@) =~= inserted(s, key@, node@));
                    assert(!has_key(s, key@));
                    let t = entries_view(entries@);
                    assert forall|a: int, b: int|
                        0 <= a < t.len() && 0 <= b < t.len() && a != b implies #[trigger] t[a].0 != #[trigger] t[b].0 by {
                        if a < s.len() && b < s.len() {
                            assert(s[a].0 != s[b].0);
                        } else if a < s.len() {
                            assert(s[a].0 != key@);
                        } else {
                            assert(s[b].0 != key@);
                        }
                    }
                }
                self.entries = entries;
                None
            },
        }
    }

    /// Removes the entry under `key`, returning its node.
    pub fn remove(&mut self, key: &str) -> (prev: Option<MeshNode>)
        ensures
            keys_unique(final(self)@),
            final(self)@ == removed(old(self)@, key@),
            prev is Some <==> has_key(old(self)@, key@),
            prev matches Some(p) ==> lookup(old(self)@, key@) == Some(p@),
    {
        proof { use_type_invariant(&*self); }
        let ghost s = self@;
        let k = key.to_string();
        match self.find(&k) {
            Some(i) => {
                let mut entries = Vec::new();
                std::mem::swap(&mut entries, &mut self.entries);
                let (_, prev) = entries.remove(i);
                proof {
                    let t = entries_view(entries@);
                    assert(t =~= removed(s, key@));
                    assert forall|a: int, b: int|
                        0 <= a < t.len() && 0 <= b < t.len() && a != b implies #[trigger] t[a].0 != #[trigger] t[b].0 by {
                        let a2 = if a < i { a } else { a + 1 };
                        let b2 = if b < i { b } else { b + 1 };
                        assert(t[a] == s[a2]);
                        assert(t[b] == s[b2]);
                        assert(s[a2].0 != s[b2].0);
                    }
                }
                self.entries = entries;
                Some(prev)
            },
            None => None,
        }
    }

    /// The keys, in order.
    pub fn keys(&self) -> (ks: Vec<String>)
        ensures
            ks.deep_view() == keys_of(self@),
    {
        let mut ks: Vec<String> = Vec::new();
        for i in 0..self.entries.len()
            invariant
                ks.len() == i,
                i <= self.entries.len(),
                self@.len() == self.entries.len(),
                forall|j: int| 0 <= j < i ==> #[trigger] ks@[j]@ == self@[j].0,
        {
            ks.push(self.entries[i].0.clone());
        }
        assert(ks.deep_view() =~= keys_of(self@));
        ks
    }

    /// Sets the parent of every node whose key is in `keys` to `parent`.
    pub(crate) fn set_parent_of_keys(&mut self, keys: &Vec<String>, parent: &Option<String>)
        ensures
            keys_unique(final(self)@),
            final(self)@ == set_parents(old(self)@, keys.deep_view(), parent.deep_view()),
    {
        let ghost s = self@;
        let n = self.entries.len();
        for i in 0..n
            invariant
                n == s.len(),
                self@.len() == n,
                forall|j: int| 0 <= j < i ==> #[trigger] self@[j] == set_parents(s, keys.deep_view(), parent.deep_view())[j],
                forall|j: int| i <= j < n ==> #[trigger] self@[j] == s[j],
        {
            let k = &self.entries[i].0;
            proof {
                assert(self@[i as int] == s[i as int]);
                assert(k@ == s[i as int].0);
            }
            if contains_string(keys, k) {
                let mut node = self.entries[i].1.clone();
                node.parent_id = crate::strings::copy_opt_string(parent);
                let ghost before = self@;
                self.replace_node_at(i, node);
                proof {
                    assert forall|j: int| 0 <= j < n && j != i implies #[trigger] self@[j] == before[j] by {}
                }
            }
        }
        proof {
            assert(self@ =~= set_parents(s, keys.deep_view(), parent.deep_view()));
            use_type_invariant(&*self);
        }
    }

    /// Adds `child` to the children of the node under `key`, unless it is
    /// absent or already lists it.
    pub(crate) fn add_child(&mut self, key: &String, child: &String)
        ensures
            keys_unique(final(self)@),
            final(self)@ == modified(old(self)@, key@, |n: MeshNodeView| add_child_to(n, child@)),
    {
        let ghost s = self@;
        match self.position(key) {
            Some(i) => {
                let mut node = self.entries[i].1.clone();
                if !contains_string(&node.children_ids, child) {
                    node.children_ids.push(child.clone());
                    proof {
                        assert(node.children_ids.deep_view() =~= s[i as int].1.children_ids.push(child@));
                    }
                }
                self.replace_node_at(i, node);
                proof {
                    assert(self@ =~= modified(s, key@, |n: MeshNodeView| add_child_to(n, child@)));
                }
            },
            None => {},
        }
    }

    /// Drops `child` from the children of the node under `key`, if present.
    pub(crate) fn remove_child(&mut self, key: &String, child: &String)
        ensures
            keys_unique(final(self)@),
            final(self)@ == modified(old(self)@, key@, |n: MeshNodeView| drop_child_from(n, child@)),
    {
        let ghost s = self@;
        match self.position(key) {
            Some(i) => {
                let mut node = self.entries[i].1.clone();
                let ghost cs = s[i as int].1.children_ids;
                let ghost pred = |x: Seq<char>| x != child@;
                let mut kept: Vec<String> = Vec::new();
                for j in 0..node.children_ids.len()
                    invariant
                        node@ == s[i as int].1,
                        cs == node@.children_ids,
                        pred == (|x: Seq<char>| x != child@),
                        kept.deep_view() == cs.take(j as int).filter(pred),
                {
                    let c = &node.children_ids[j];
                    let ghost before = kept.deep_view();
                    proof {
                        assert(c@ == cs[j as int]);
                        assert(cs.take(j + 1) =~= cs.take(j as int).push(c@));
                        cs.take(j as int).lemma_filter_push(c@, pred);
                    }
                    if *c != *child {
                        kept.push(c.clone());
                        proof {
                            assert(kept.deep_view() =~= before.push(c@));
                        }
                    }
                }
                proof {
                    assert(cs.take(cs.len() as int) =~= cs);
                }
                node.children_ids = kept;
                self.replace_node_at(i, node);
                proof {
                    assert(self@ =~= modified(s, key@, |n: MeshNodeView| drop_child_from(n, child@)));
                }
            },
            None => {},
        }
    }

    /// Replaces the node at position `i`, keeping its key.
    pub(crate) fn replace_node_at(&mut self, i: usize, node: MeshNode)
        requires
            i < old(self)@.len(),
        ensures
            final(self)@ == old(self)@.update(i as int, (old(self)@[i as int].0, node@)),
    {
        proof { use_type_invariant(&*self); }
        let ghost s = self@;
        let mut entries = Vec::new();
        std::mem::swap(&mut entries, &mut self.entries);
        let (key, _) = entries.remove(i);
        entries.insert(i, (key, node));
        proof {
            let t = entries_view(entries@);
            assert(t =~= s.update(i as int, (s[i as int].0, node@)));
            assert forall|a: int, b: int|
                0 <= a < t.len() && 0 <= b < t.len() && a != b implies #[trigger] t[a].0 != #[trigger] t[b].0 by {
                assert(t[a].0 == s[a].0);
                assert(t[b].0 == s[b].0);
            }
        }
        self.entries = entries;
    }

    /// Position of the entry with key `key`, if any.
    pub(crate) fn position(&self, key: &String) -> (idx: Option<usize>)
        ensures
            keys_unique(self@),
            idx is Some <==> has_key(self@, key@),
            idx matches Some(i) ==> i < self@.len() && i == key_index(self@, key@) && self@[i as int].0 == key@,
    {
        proof { use_type_invariant(self); }
        self.find(key)
    }

    /// The entries, in order.
    pub(crate) fn entries(&self) -> (es: &Vec<(String, MeshNode)>)
        ensures
            keys_unique(self@),
            es@.len() == self@.len(),
            forall|i: int| 0 <= i < es@.len() ==> (#[trigger] es@[i]).0@ == self@[i].0 && es@[i].1@ == self@[i].1,
    {
        proof { use_type_invariant(self); }
        &self.entries
    }
}

} // verus!
