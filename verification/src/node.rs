//! Mesh nodes: what a device is, what it can do and where it sits in the tree.
use vstd::prelude::*;
use crate::clock::{
    Stamp, instant_now, instant_elapsed, new_lock, share_stamp, store_stamp, load_stamp, duration_from_secs,
};
use crate::strings::{owned_strings, copy_strings, copy_opt_string};

verus! {

/// The kind of hardware a node runs on.
#[derive(Debug, Clone, Copy, PartialEq, Eq, Structural)]
pub enum DeviceType {
    ESP32,
    Jetson,
    Desktop,
    Server,
    Cloud,
}

/// Whether a node can take work.
#[derive(Debug, Clone, Copy, PartialEq, Eq, Structural)]
pub enum NodeStatus {
    Online,
    Offline,
    Busy,
}

/// A device of the mesh. `last_seen` holds the instant of its last heartbeat;
/// a clone shares it with the node it was cloned from.
#[derive(Debug)]
pub struct MeshNode {
    pub id: String,
    pub device_type: DeviceType,
    pub capabilities: Vec<String>,
    pub address: String,
    pub parent_id: Option<String>,
    pub children_ids: Vec<String>,
    pub status: NodeStatus,
    pub last_seen: Stamp,
}

/// What a node is: its plain values, and the handle on its last-seen stamp
/// (equal for two nodes exactly when they share it).
pub struct MeshNodeView {
    pub id: Seq<char>,
    pub device_type: DeviceType,
    pub capabilities: Seq<Seq<char>>,
    pub address: Seq<char>,
    pub parent_id: Option<Seq<char>>,
    pub children_ids: Seq<Seq<char>>,
    pub status: NodeStatus,
    pub last_seen: Stamp,
}

impl View for MeshNode {
    type V = MeshNodeView;

    open spec fn view(&self) -> MeshNodeView {
        MeshNodeView {
            id: self.id@,
            device_type: self.device_type,
            capabilities: self.capabilities.deep_view(),
            address: self.address@,
            parent_id: self.parent_id.deep_view(),
            children_ids: self.children_ids.deep_view(),
            status: self.status,
            last_seen: self.last_seen,
        }
    }
}

impl MeshNodeView {
    /// A fresh node: no capabilities, no parent, no children, online, with
    /// the stamp `last_seen`.
    pub open spec fn fresh(id: Seq<char>, device_type: DeviceType, address: Seq<char>, last_seen: Stamp) -> MeshNodeView {
        MeshNodeView {
            id,
            device_type,
            capabilities: Seq::empty(),
            address,
            parent_id: None,
            children_ids: Seq::empty(),
            status: NodeStatus::Online,
            last_seen,
        }
    }
}

impl Clone for MeshNode {
    /// A copy of every field that shares the last-seen stamp.
    fn clone(&self) -> (res: Self)
        ensures
            res@ == self@,
    {
        MeshNode {
            id: self.id.clone(),
            device_type: self.device_type,
            capabilities: copy_strings(&self.capabilities),
            address: self.address.clone(),
            parent_id: copy_opt_string(&self.parent_id),
            children_ids: copy_strings(&self.children_ids),
            status: self.status,
            last_seen: share_stamp(&self.last_seen),
        }
    }
}

impl MeshNode {
    /// A new online node with no capabilities, parent or children, seen now:
    /// its stamp is a new one, holding the clock's reading at the call.
    pub fn new(id: &str, device_type: DeviceType, address: &str) -> (node: Self)
        ensures
            node@ == MeshNodeView::fresh(id@, device_type, address@, node@.last_seen),
    {
        let node = MeshNode {
            id: id.to_string(),
            device_type,
            capabilities: Vec::new(),
            address: address.to_string(),
            parent_id: None,
            children_ids: Vec::new(),
            status: NodeStatus::Online,
            last_seen: std::sync::Arc::new(new_lock(instant_now())),
        };
        assert(node.capabilities.deep_view() =~= Seq::<Seq<char>>::empty());
        assert(node.children_ids.deep_view() =~= Seq::<Seq<char>>::empty());
        node
    }

    /// The node with its capability tags replaced by `caps`.
    pub fn with_capabilities(self, caps: Vec<&str>) -> (node: Self)
        ensures
            node@ == (MeshNodeView { capabilities: caps.deep_view(), ..self@ }),
    {
        let mut node = self;
        node.capabilities = owned_strings(&caps);
        node
    }

    /// The node with its parent set to `parent_id`.
    pub fn with_parent(self, parent_id: &str) -> (node: Self)
        ensures
            node@ == (MeshNodeView { parent_id: Some(parent_id@), ..self@ }),
    {
        let mut node = self;
        node.parent_id = Some(parent_id.to_string());
        node
    }

    /// The node with its children replaced by `children`.
    pub fn with_children(self, children: Vec<&str>) -> (node: Self)
        ensures
            node@ == (MeshNodeView { children_ids: children.deep_view(), ..self@ }),
    {
        let mut node = self;
        node.children_ids = owned_strings(&children);
        node
    }

    /// Stores the clock's reading at the call in the node's stamp, where
    /// every clone of the node sees it. The stamp's contents are not visible
    /// to Verus, so nothing is stated of them; the node's fields are untouched.
    pub fn touch(&self) {
        store_stamp(&self.last_seen, instant_now());
    }

    /// The time elapsed since the reading in the node's stamp, or
    /// `u64::MAX` seconds when the stamp's lock is poisoned. It depends on the
    /// clock, so nothing is stated of it.
    pub fn last_seen_duration(&self) -> std::time::Duration {
        match load_stamp(&self.last_seen) {
            Some(t) => instant_elapsed(&t),
            None => duration_from_secs(u64::MAX),
        }
    }
}

} // verus!
