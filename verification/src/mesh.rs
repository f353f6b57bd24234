//! The mesh as seen from one node: who is in it, how to reach them, what
//! arrived, and what happened.
use vstd::prelude::*;
use crate::node::{DeviceType, NodeStatus, MeshNode, MeshNodeView};
use crate::node_map::{
    NodeMap, NodesView, has_key, lookup, inserted, removed, modified, set_parents, add_child_to,
    drop_child_from, keys_of, keys_unique, stored_by_id,
};
use crate::message::{MeshMessage, MeshMessageView};
use crate::routing::{RoutingTable, RoutesView, routes_valid, has_route, route_index};
use crate::topology::{MeshTopology, kind_of, edges_of};
use crate::graph::reachable;
use crate::walk_order::first_shortest_walk;
use crate::clock::Stamp;
use crate::strings::{owned_strings, distinct_strings, contains_string};

verus! {

/// Something that happened in the mesh.
#[derive(Debug, Clone)]
pub enum MeshEvent {
    NodeJoined { node: MeshNode },
    NodeLeft { node_id: String },
    TaskCompleted { task_id: String, result: String },
    ResourceAvailable { node_id: String, resources: Vec<String> },
    MessageReceived { message: MeshMessage },
}

/// An event as plain values.
pub enum MeshEventView {
    NodeJoined { node: MeshNodeView },
    NodeLeft { node_id: Seq<char> },
    TaskCompleted { task_id: Seq<char>, result: Seq<char> },
    ResourceAvailable { node_id: Seq<char>, resources: Seq<Seq<char>> },
    MessageReceived { message: MeshMessageView },
}

impl View for MeshEvent {
    type V = MeshEventView;

    open spec fn view(&self) -> MeshEventView {
        match self {
            MeshEvent::NodeJoined { node } => MeshEventView::NodeJoined { node: node@ },
            MeshEvent::NodeLeft { node_id } => MeshEventView::NodeLeft { node_id: node_id@ },
            MeshEvent::TaskCompleted { task_id, result } => MeshEventView::TaskCompleted {
                task_id: task_id@,
                result: result@,
            },
            MeshEvent::ResourceAvailable { node_id, resources } => MeshEventView::ResourceAvailable {
                node_id: node_id@,
                resources: resources.deep_view(),
            },
            MeshEvent::MessageReceived { message } => MeshEventView::MessageReceived { message: message@ },
        }
    }
}

/// The state of a mesh as plain values.
pub struct ShellMeshView {
    pub local: MeshNodeView,
    pub nodes: NodesView,
    pub routes: RoutesView,
    pub inbox: Seq<MeshMessageView>,
    pub joined: bool,
    pub events: Seq<MeshEventView>,
}

/// The nodes after `n` is added: stored under its id, listed among its
/// parent's children (when the parent is known and does not list it yet),
/// and made the parent of each of its children that is known.
pub open spec fn nodes_after_add(s: NodesView, n: MeshNodeView) -> NodesView {
    let s1 = inserted(s, n.id, n);
    let s2 = match n.parent_id {
        Some(p) => modified(s1, p, |m: MeshNodeView| add_child_to(m, n.id)),
        None => s1,
    };
    set_parents(s2, n.children_ids, Some(n.id))
}

/// The nodes after the one under `id` is removed: dropped from its parent's
/// children, and its children left without a parent. Unchanged if absent.
pub open spec fn nodes_after_remove(s: NodesView, id: Seq<char>) -> NodesView {
    match lookup(s, id) {
        Some(n) => {
            let s1 = removed(s, id);
            let s2 = match n.parent_id {
                Some(p) => modified(s1, p, |m: MeshNodeView| drop_child_from(m, id)),
                None => s1,
            };
            set_parents(s2, n.children_ids, None)
        },
        None => s,
    }
}

/// The nodes after the local node `local` leaves: dropped from its parent's
/// children, its children left without a parent, and its entry removed.
pub open spec fn nodes_after_leave(s: NodesView, local: MeshNodeView) -> NodesView {
    let s1 = match local.parent_id {
        Some(p) => modified(s, p, |m: MeshNodeView| drop_child_from(m, local.id)),
        None => s,
    };
    removed(set_parents(s1, local.children_ids, None), local.id)
}

/// The nodes other than the local one (by id), in order.
pub open spec fn neighbors_view(s: NodesView, local_id: Seq<char>) -> Seq<MeshNodeView> {
    s.map_values(|e: (Seq<char>, MeshNodeView)| e.1).filter(|n: MeshNodeView| n.id != local_id)
}

/// A node that can take a task needing `reqs`: not the local node, online,
/// and offering every required capability.
pub open spec fn can_take(n: MeshNodeView, local_id: Seq<char>, reqs: Set<Seq<char>>) -> bool {
    &&& n.id != local_id
    &&& n.status == NodeStatus::Online
    &&& reqs.subset_of(n.capabilities.to_set())
}

/// How many distinct capabilities a node offers beyond those required.
pub open spec fn surplus(n: MeshNodeView, reqs: Set<Seq<char>>) -> int {
    n.capabilities.to_set().len() - reqs.len()
}

/// Entry `i` is where a task needing `reqs` goes: it can take it, no node that
/// can has a smaller surplus, and every earlier one that can has a larger one.
pub open spec fn best_candidate(s: NodesView, local_id: Seq<char>, reqs: Set<Seq<char>>, i: int) -> bool {
    &&& 0 <= i < s.len()
    &&& can_take(s[i].1, local_id, reqs)
    &&& forall|j: int| #![trigger s[j]] 0 <= j < s.len() && can_take(s[j].1, local_id, reqs)
        ==> surplus(s[j].1, reqs) >= surplus(s[i].1, reqs)
    &&& forall|j: int| #![trigger s[j]] 0 <= j < i && can_take(s[j].1, local_id, reqs)
        ==> surplus(s[j].1, reqs) > surplus(s[i].1, reqs)
}

/// A call of a public method on a mesh, as the joined flag and the inbox see
/// it: `join`, `leave`, `send` (with the message and whether it returned
/// `Ok`), `broadcast` (with the message), or any other method.
pub enum MeshCall {
    Join,
    Leave,
    Send { message: MeshMessageView, delivered: bool },
    Broadcast { message: MeshMessageView },
    Other,
}

/// What `call` does to the joined flag and the inbox of `before`, giving
/// `after`: `join` sets the flag, `leave` clears it, a delivered `send` and a
/// `broadcast` append their message, and nothing else touches either.
pub open spec fn call_step(call: MeshCall, before: ShellMeshView, after: ShellMeshView) -> bool {
    match call {
        MeshCall::Join => after.joined && after.inbox == before.inbox,
        MeshCall::Leave => !after.joined && after.inbox == before.inbox,
        MeshCall::Send { message, delivered } => after.joined == before.joined
            && after.inbox == (if delivered { before.inbox.push(message) } else { before.inbox }),
        MeshCall::Broadcast { message } => after.joined == before.joined
            && after.inbox == before.inbox.push(message),
        MeshCall::Other => after.joined == before.joined && after.inbox == before.inbox,
    }
}

/// The text of the error for a message to an unknown node.
pub open spec fn not_found_text(target: Seq<char>) -> Seq<char> {
    "Target node '"@ + target + "' not found"@
}

/// The nodes a mesh knows and the routes over them, held together so that
/// both change in one step.
struct Graph {
    nodes: NodeMap,
    routing: RoutingTable,
}

impl Graph {
    /// No nodes and no routes.
    fn empty() -> (g: Self)
        ensures
            g.nodes@ == Seq::<(Seq<char>, MeshNodeView)>::empty(),
            g.routing@ == Seq::<(Seq<char>, Seq<char>, Seq<Seq<char>>)>::empty(),
    {
        Graph { nodes: NodeMap::new(), routing: RoutingTable::new() }
    }
}

/// A mesh as one node sees it. Every operation that changes the nodes
/// recomputes the routes, and events are queued for whoever listens.
pub struct ShellMesh {
    local: MeshNode,
    graph: Graph,
    inbox: Vec<MeshMessage>,
    joined: bool,
    events: Vec<MeshEvent>,
}

impl View for ShellMesh {
    type V = ShellMeshView;

    closed spec fn view(&self) -> ShellMeshView {
        ShellMeshView {
            local: self.local@,
            nodes: self.graph.nodes@,
            routes: self.graph.routing@,
            inbox: self.inbox@.map_values(|m: MeshMessage| m@),
            joined: self.joined,
            events: self.events@.map_values(|e: MeshEvent| e@),
        }
    }
}

/// The nodes of `m` are keyed uniquely, each under its own id, and its routes
/// are those of the breadth-first search from the local node over them.
pub open spec fn routes_current(m: ShellMeshView) -> bool {
    &&& keys_unique(m.nodes)
    &&& stored_by_id(m.nodes)
    &&& routes_valid(m.routes, m.nodes, m.local.id)
}

/// With no nodes, the only valid routes are none.
proof fn lemma_no_nodes_no_routes(src: Seq<char>)
    ensures
        routes_valid(Seq::empty(), Seq::empty(), src),
{
    let s: NodesView = Seq::empty();
    let r: RoutesView = Seq::empty();
    assert forall|t: Seq<char>| #[trigger] has_route(r, t) <==> (t != src && reachable(s, src, t)) by {
        if reachable(s, src, t) && t != src {
            let p = choose|p: Seq<Seq<char>>| #[trigger] crate::graph::walk_between(s, src, t, p);
            assert(crate::graph::adjacent(s, p[0], p[1]));
        }
    }
}

impl ShellMesh {
    /// At every moment the routes are current.
    #[verifier::type_invariant]
    closed spec fn wf(self) -> bool {
        routes_current(self@)
    }

    /// Takes the nodes and routes out of the mesh, leaving none.
    fn take_graph(&mut self) -> (g: Graph)
        ensures
            g.nodes@ == old(self)@.nodes,
            g.routing@ == old(self)@.routes,
            keys_unique(g.nodes@),
            stored_by_id(g.nodes@),
            final(self)@ == (ShellMeshView { nodes: Seq::empty(), routes: Seq::empty(), ..old(self)@ }),
    {
        proof {
            use_type_invariant(&*self);
            lemma_no_nodes_no_routes(self.local@.id);
        }
        let mut g = Graph::empty();
        std::mem::swap(&mut g, &mut self.graph);
        g
    }

    /// Puts `nodes` back into the mesh with the routes recomputed over them.
    fn put_graph(&mut self, g: Graph)
        requires
            keys_unique(g.nodes@),
            stored_by_id(g.nodes@),
        ensures
            final(self)@ == (ShellMeshView { nodes: g.nodes@, routes: final(self)@.routes, ..old(self)@ }),
            routes_valid(final(self)@.routes, g.nodes@, old(self)@.local.id),
    {
        let mut g = g;
        g.routing.rebuild(&g.nodes, self.local.id.as_str());
        self.graph = g;
    }

    /// Queues an event.
    fn emit_event(&mut self, event: MeshEvent)
        ensures
            final(self)@ == (ShellMeshView { events: old(self)@.events.push(event@), ..old(self)@ }),
    {
        proof { use_type_invariant(&*self); }
        let mut events: Vec<MeshEvent> = Vec::new();
        std::mem::swap(&mut events, &mut self.events);
        let ghost before = events@;
        events.push(event);
        proof {
            assert(events@.map_values(|e: MeshEvent| e@) =~= before.map_values(|e: MeshEvent| e@).push(event@));
        }
        self.events = events;
    }

    /// Appends a message to the inbox.
    fn deliver(&mut self, message: MeshMessage)
        ensures
            final(self)@ == (ShellMeshView { inbox: old(self)@.inbox.push(message@), ..old(self)@ }),
    {
        proof { use_type_invariant(&*self); }
        let mut inbox: Vec<MeshMessage> = Vec::new();
        std::mem::swap(&mut inbox, &mut self.inbox);
        let ghost before = inbox@;
        inbox.push(message);
        proof {
            assert(inbox@.map_values(|m: MeshMessage| m@) =~= before.map_values(|m: MeshMessage| m@).push(message@));
        }
        self.inbox = inbox;
    }

    /// A mesh holding only the local node, not joined, with an empty inbox.
    pub fn new(local: MeshNode) -> (mesh: Self)
        ensures
            routes_current(mesh@),
            mesh@.local == local@,
            mesh@.nodes == seq![(local@.id, local@)],
            mesh@.inbox == Seq::<MeshMessageView>::empty(),
            !mesh@.joined,
            mesh@.events == Seq::<MeshEventView>::empty(),
    {
        let mut nodes = NodeMap::new();
        nodes.insert(local.id.clone(), local.clone());
        let mut routing = RoutingTable::new();
        routing.rebuild(&nodes, local.id.as_str());
        let mesh = ShellMesh { local, graph: Graph { nodes, routing }, inbox: Vec::new(), joined: false, events: Vec::new() };
        proof {
            assert(mesh@.nodes =~= seq![(local@.id, local@)]);
            assert(mesh@.inbox =~= Seq::<MeshMessageView>::empty());
            assert(mesh@.events =~= Seq::<MeshEventView>::empty());
        }
        mesh
    }

    /// Adds (or replaces) `node`, links it with its known parent and
    /// children, recomputes the routes and queues a `NodeJoined` event.
    pub fn add_node(&mut self, node: MeshNode)
        ensures
            call_step(MeshCall::Other, old(self)@, final(self)@),
            routes_current(final(self)@),
            final(self)@.nodes == nodes_after_add(old(self)@.nodes, node@),
            final(self)@.local == old(self)@.local,
            final(self)@.inbox == old(self)@.inbox,
            final(self)@.joined == old(self)@.joined,
            final(self)@.events == old(self)@.events.push(MeshEventView::NodeJoined { node: node@ }),
    {
        proof { use_type_invariant(&*self); }
        let id = node.id.clone();
        let mut g = self.take_graph();
        g.nodes.insert(id.clone(), node.clone());
        match &node.parent_id {
            Some(p) => g.nodes.add_child(p, &id),
            None => {},
        }
        g.nodes.set_parent_of_keys(&node.children_ids, &Some(id.clone()));
        self.put_graph(g);
        self.emit_event(MeshEvent::NodeJoined { node });
    }

    /// Removes the node under `node_id` (if known), unlinks it from its parent
    /// and children, recomputes the routes and queues a `NodeLeft` event.
    pub fn remove_node(&mut self, node_id: &str)
        ensures
            call_step(MeshCall::Other, old(self)@, final(self)@),
            routes_current(final(self)@),
            final(self)@.nodes == nodes_after_remove(old(self)@.nodes, node_id@),
            final(self)@.local == old(self)@.local,
            final(self)@.inbox == old(self)@.inbox,
            final(self)@.joined == old(self)@.joined,
            final(self)@.events == old(self)@.events.push(MeshEventView::NodeLeft { node_id: node_id@ }),
    {
        proof { use_type_invariant(&*self); }
        let id = node_id.to_string();
        let mut g = self.take_graph();
        match g.nodes.remove(node_id) {
            Some(node) => {
                match &node.parent_id {
                    Some(p) => g.nodes.remove_child(p, &id),
                    None => {},
                }
                g.nodes.set_parent_of_keys(&node.children_ids, &None);
            },
            None => {},
        }
        self.put_graph(g);
        self.emit_event(MeshEvent::NodeLeft { node_id: id });
    }

    /// Joins the mesh through `bootstrap_addr`: marks the mesh joined, adds a
    /// Jetson node named and addressed by `bootstrap_addr`, and returns the
    /// topology that results.
    pub fn join(&mut self, bootstrap_addr: &str) -> (res: Result<MeshTopology, String>)
        ensures
            call_step(MeshCall::Join, old(self)@, final(self)@),
            routes_current(final(self)@),
            exists|seen: Stamp|
                #![trigger MeshNodeView::fresh(bootstrap_addr@, DeviceType::Jetson, bootstrap_addr@, seen)]
                final(self)@.nodes == nodes_after_add(
                    old(self)@.nodes,
                    MeshNodeView::fresh(bootstrap_addr@, DeviceType::Jetson, bootstrap_addr@, seen),
                ) && final(self)@.events == old(self)@.events.push(MeshEventView::NodeJoined {
                    node: MeshNodeView::fresh(bootstrap_addr@, DeviceType::Jetson, bootstrap_addr@, seen),
                }),
            final(self)@.joined,
            final(self)@.local == old(self)@.local,
            final(self)@.inbox == old(self)@.inbox,
            res matches Ok(topo) && topo.kind == kind_of(final(self)@.nodes)
                && topo.nodes.deep_view() == keys_of(final(self)@.nodes)
                && topo.edges.deep_view() == edges_of(final(self)@.nodes),
    {
        proof { use_type_invariant(&*self); }
        self.joined = true;
        let bootstrap_node = MeshNode::new(bootstrap_addr, DeviceType::Jetson, bootstrap_addr);
        self.add_node(bootstrap_node);
        let topology = self.topology();
        Ok(topology)
    }

    /// Leaves the mesh: drops the local node from its parent's children,
    /// clears its children's parent, removes it, marks the mesh not joined and
    /// recomputes the routes.
    pub fn leave(&mut self) -> (res: Result<(), String>)
        ensures
            call_step(MeshCall::Leave, old(self)@, final(self)@),
            routes_current(final(self)@),
            res is Ok,
            final(self)@.nodes == nodes_after_leave(old(self)@.nodes, old(self)@.local),
            !final(self)@.joined,
            final(self)@.local == old(self)@.local,
            final(self)@.inbox == old(self)@.inbox,
            final(self)@.events == old(self)@.events,
    {
        proof { use_type_invariant(&*self); }
        let local_id = self.local.id.clone();
        let mut g = self.take_graph();
        match &self.local.parent_id {
            Some(p) => g.nodes.remove_child(p, &local_id),
            None => {},
        }
        g.nodes.set_parent_of_keys(&self.local.children_ids, &None);
        g.nodes.remove(local_id.as_str());
        self.put_graph(g);
        self.joined = false;
        Ok(())
    }

    /// Delivers `message` to the inbox if `target` is a known node; otherwise
    /// an error naming the target.
    pub fn send(&mut self, target: &str, message: MeshMessage) -> (res: Result<(), String>)
        ensures
            call_step(MeshCall::Send { message: message@, delivered: res is Ok }, old(self)@, final(self)@),
            routes_current(final(self)@),
            res is Ok <==> has_key(old(self)@.nodes, target@),
            res matches Err(e) ==> e@ == not_found_text(target@),
            final(self)@ == (if res is Ok {
                ShellMeshView { inbox: old(self)@.inbox.push(message@), ..old(self)@ }
            } else {
                old(self)@
            }),
    {
        proof { use_type_invariant(&*self); }
        if !self.graph.nodes.contains_key(target) {
            let mut e = "Target node '".to_string();
            e.append(target);
            e.append("' not found");
            return Err(e);
        }
        self.deliver(message);
        Ok(())
    }

    /// Delivers `message` to the inbox for all nodes.
    pub fn broadcast(&mut self, message: MeshMessage) -> (res: Result<(), String>)
        ensures
            call_step(MeshCall::Broadcast { message: message@ }, old(self)@, final(self)@),
            routes_current(final(self)@),
            res is Ok,
            final(self)@ == (ShellMeshView { inbox: old(self)@.inbox.push(message@), ..old(self)@ }),
    {
        proof { use_type_invariant(&*self); }
        self.deliver(message);
        Ok(())
    }

    /// Hands over the queued events, oldest first, and clears the queue.
    pub fn take_events(&mut self) -> (events: Vec<MeshEvent>)
        ensures
            call_step(MeshCall::Other, old(self)@, final(self)@),
            routes_current(final(self)@),
            events@.map_values(|e: MeshEvent| e@) == old(self)@.events,
            final(self)@ == (ShellMeshView { events: Seq::empty(), ..old(self)@ }),
    {
        proof { use_type_invariant(&*self); }
        let mut out: Vec<MeshEvent> = Vec::new();
        std::mem::swap(&mut out, &mut self.events);
        proof {
            assert(self@.events =~= Seq::<MeshEventView>::empty());
        }
        out
    }

    /// Copies of every node other than the local one, in order.
    pub fn discover_neighbors(&self) -> (found: Vec<MeshNode>)
        ensures
            found@.map_values(|n: MeshNode| n@) == neighbors_view(self@.nodes, self@.local.id),
    {
        proof { use_type_invariant(&*self); }
        let ghost s = self.graph.nodes@;
        let ghost pred = |n: MeshNodeView| n.id != self.local@.id;
        let ghost all = s.map_values(|e: (Seq<char>, MeshNodeView)| e.1);
        let es = self.graph.nodes.entries();
        let mut found: Vec<MeshNode> = Vec::new();
        for i in 0..es.len()
            invariant
                s == self.graph.nodes@,
                all == s.map_values(|e: (Seq<char>, MeshNodeView)| e.1),
                pred == (|n: MeshNodeView| n.id != self.local@.id),
                es@.len() == s.len(),
                forall|i: int| 0 <= i < es@.len() ==> (#[trigger] es@[i]).0@ == s[i].0 && es@[i].1@ == s[i].1,
                found@.map_values(|n: MeshNode| n@) == all.take(i as int).filter(pred),
        {
            let node = &es[i].1;
            let ghost before = found@.map_values(|n: MeshNode| n@);
            proof {
                assert(node@ == all[i as int]);
                assert(all.take(i + 1) =~= all.take(i as int).push(node@));
                all.take(i as int).lemma_filter_push(node@, pred);
            }
            if node.id != self.local.id {
                found.push(node.clone());
                proof {
                    assert(found@.map_values(|n: MeshNode| n@) =~= before.push(node@));
                }
            }
        }
        proof {
            assert(all.take(es.len() as int) =~= all);
        }
        found
    }

    /// Picks the node to hand a task needing `requirements` to: among the
    /// online nodes other than the local one that offer every required
    /// capability, one with the fewest extra capabilities, the first in order
    /// on a tie. `None` when no node qualifies. The task itself is not sent.
    pub fn delegate_task(&self, task: &str, requirements: Vec<&str>) -> (chosen: Option<String>)
        ensures
            chosen is None <==> !exists|i: int| #![trigger self@.nodes[i]]
                0 <= i < self@.nodes.len()
                && can_take(self@.nodes[i].1, self@.local.id, requirements.deep_view().to_set()),
            chosen matches Some(id) ==> has_key(self@.nodes, id@),
            chosen matches Some(id) ==> exists|i: int|
                best_candidate(self@.nodes, self@.local.id, requirements.deep_view().to_set(), i)
                && #[trigger] self@.nodes[i].1.id == id@,
    {
        let ghost s = self.graph.nodes@;
        let ghost local_id = self.local@.id;
        let reqs = owned_strings(&requirements);
        let req_set = distinct_strings(&reqs);
        let ghost rs = requirements.deep_view().to_set();
        assert(reqs.deep_view().to_set() == rs);
        let es = self.graph.nodes.entries();
        let mut best: Option<usize> = None;
        let mut best_score: usize = 0;
        for i in 0..es.len()
            invariant
                s == self.graph.nodes@,
                local_id == self.local@.id,
                rs == requirements.deep_view().to_set(),
                req_set.deep_view().to_set() == rs,
                req_set.deep_view().len() == rs.len(),
                es@.len() == s.len(),
                forall|i: int| 0 <= i < es@.len() ==> (#[trigger] es@[i]).0@ == s[i].0 && es@[i].1@ == s[i].1,
                match best {
                    None => forall|j: int| #![trigger s[j]] 0 <= j < i ==> !can_take(s[j].1, local_id, rs),
                    Some(b) => {
                        &&& b < i
                        &&& can_take(s[b as int].1, local_id, rs)
                        &&& best_score == surplus(s[b as int].1, rs)
                        &&& forall|j: int| #![trigger s[j]] 0 <= j < i && can_take(s[j].1, local_id, rs)
                            ==> surplus(s[j].1, rs) >= best_score
                        &&& forall|j: int| #![trigger s[j]] 0 <= j < b && can_take(s[j].1, local_id, rs)
                            ==> surplus(s[j].1, rs) > best_score
                    },
                },
        {
            let node = &es[i].1;
            assert(node@ == s[i as int].1);
            if node.id != self.local.id && node.status == NodeStatus::Online {
                let caps = distinct_strings(&node.capabilities);
                let mut covered = true;
                let mut r: usize = 0;
                while r < req_set.len()
                    invariant
                        r <= req_set.len(),
                        node@ == s[i as int].1,
                        caps.deep_view().to_set() == node@.capabilities.to_set(),
                        covered == forall|m: int| 0 <= m < r ==> caps.deep_view().contains(#[trigger] req_set.deep_view()[m]),
                    decreases req_set.len() - r,
                {
                    if !contains_string(&caps, &req_set[r]) {
                        covered = false;
                    }
                    proof {
                        assert(req_set.deep_view()[r as int] == req_set@[r as int]@);
                    }
                    r = r + 1;
                }
                proof {
                    let cs = node@.capabilities.to_set();
                    assert(covered == rs.subset_of(cs)) by {
                        if covered {
                            assert forall|x: Seq<char>| rs.contains(x) implies cs.contains(x) by {
                                assert(req_set.deep_view().to_set().contains(x));
                                let m = choose|m: int| 0 <= m < req_set.deep_view().len() && req_set.deep_view()[m] == x;
                                assert(caps.deep_view().contains(req_set.deep_view()[m]));
                                assert(caps.deep_view().to_set().contains(x));
                            }
                        }
                        if rs.subset_of(cs) {
                            assert forall|m: int| 0 <= m < req_set.len() implies caps.deep_view().contains(#[trigger] req_set.deep_view()[m]) by {
                                assert(req_set.deep_view().to_set().contains(req_set.deep_view()[m]));
                                assert(caps.deep_view().to_set().contains(req_set.deep_view()[m]));
                            }
                        }
                    }
                }
                if covered {
                    proof {
                        vstd::seq_lib::seq_to_set_is_finite(node@.capabilities);
                        vstd::set_lib::lemma_len_subset(rs, node@.capabilities.to_set());
                    }
                    let extra = caps.len() - req_set.len();
                    assert(extra == surplus(s[i as int].1, rs));
                    let better = match best {
                        None => true,
                        Some(_) => extra < best_score,
                    };
                    if better {
                        best = Some(i);
                        best_score = extra;
                    }
                }
            }
        }
        assert(s == self@.nodes && local_id == self@.local.id);
        match best {
            Some(b) => {
                proof {
                    assert(best_candidate(s, local_id, rs, b as int));
                    use_type_invariant(self);
                    assert(s[b as int].0 == s[b as int].1.id);
                }
                Some(es[b].1.id.clone())
            },
            None => None,
        }
    }

    /// The path from the local node to `target`; empty when there is none.
    pub fn route_to(&self, target: &str) -> (path: Vec<String>)
        ensures
            path.deep_view() == (if has_route(self@.routes, target@) {
                self@.routes[route_index(self@.routes, target@)].2
            } else {
                Seq::empty()
            }),
            path.len() > 0 <==> (target@ != self@.local.id && reachable(self@.nodes, self@.local.id, target@)),
            path.len() > 0 ==> first_shortest_walk(self@.nodes, self@.local.id, target@, path.deep_view()),
    {
        proof { use_type_invariant(&*self); }
        match self.graph.routing.route_to(target) {
            Some(p) => {
                proof {
                    let r = self@.routes;
                    let i = route_index(r, target@);
                    assert(r[i].0 == target@);
                    assert(r[i].2.len() >= 2);
                }
                p
            },
            None => {
                let p: Vec<String> = Vec::new();
                assert(p.deep_view() =~= Seq::<Seq<char>>::empty());
                p
            },
        }
    }

    /// The shape of the mesh, its node names and its edges.
    pub fn topology(&self) -> (topo: MeshTopology)
        ensures
            topo.kind == kind_of(self@.nodes),
            topo.nodes.deep_view() == keys_of(self@.nodes),
            topo.edges.deep_view() == edges_of(self@.nodes),
    {
        MeshTopology::detect(&self.graph.nodes)
    }

    /// Stores the clock's reading in the stamp of the local node and of every
    /// known node, one reading each. The stamps are locks whose contents
    /// Verus does not see, so nothing is stated of them; the mesh's fields
    /// are untouched.
    pub fn heartbeat(&self) {
        self.local.touch();
        let es = self.graph.nodes.entries();
        for i in 0..es.len() {
            es[i].1.touch();
        }
    }

    /// The local node.
    pub fn local_node(&self) -> (node: &MeshNode)
        ensures
            node@ == self@.local,
    {
        &self.local
    }

    /// Whether the mesh has been joined (and not left since).
    pub fn is_joined(&self) -> (b: bool)
        ensures
            b == self@.joined,
    {
        self.joined
    }

    /// The number of known nodes.
    pub fn node_count(&self) -> (n: usize)
        ensures
            n == self@.nodes.len(),
    {
        self.graph.nodes.len()
    }

    /// The number of messages in the inbox.
    pub fn inbox_len(&self) -> (n: usize)
        ensures
            n == self@.inbox.len(),
    {
        self.inbox.len()
    }
}

} // verus!
