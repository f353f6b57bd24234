use std::sync::Arc;
use shell_mesh::message::epoch_millis;
use std::time::{Duration, Instant};
use shell_mesh::{
    DeviceType, MeshEvent, MeshMessage, MeshNode, MeshTopology, MessageType, NodeMap, NodeStatus,
    RoutingTable, ShellMesh, TopologyKind,
};

fn node(id: &str) -> MeshNode {
    MeshNode::new(id, DeviceType::Desktop, "10.0.0.9:9000")
}

fn mesh() -> ShellMesh {
    ShellMesh::new(MeshNode::new("local", DeviceType::Desktop, "127.0.0.1:9000"))
}

#[test]
fn new_node_is_fresh_and_online() {
    let n = MeshNode::new("esp-01", DeviceType::ESP32, "192.168.1.10");
    assert_eq!(n.id, "esp-01");
    assert_eq!(n.address, "192.168.1.10");
    assert_eq!(n.device_type, DeviceType::ESP32);
    assert_eq!(n.status, NodeStatus::Online);
    assert!(n.capabilities.is_empty());
    assert!(n.children_ids.is_empty());
    assert_eq!(n.parent_id, None);
}

#[test]
fn builders_set_their_field_only() {
    let n = MeshNode::new("srv-01", DeviceType::Server, "10.0.0.1")
        .with_capabilities(vec!["inference", "storage"])
        .with_children(vec!["esp-01"])
        .with_parent("cloud");
    assert_eq!(n.capabilities, vec!["inference".to_string(), "storage".to_string()]);
    assert_eq!(n.children_ids, vec!["esp-01".to_string()]);
    assert_eq!(n.parent_id, Some("cloud".to_string()));
    assert_eq!(n.id, "srv-01");
    let m = n.with_capabilities(vec!["gpu"]);
    assert_eq!(m.capabilities, vec!["gpu".to_string()]);
}

#[test]
fn clone_keeps_every_field_and_shares_the_stamp() {
    let n = node("a").with_capabilities(vec!["x"]).with_parent("p").with_children(vec!["c"]);
    let c = n.clone();
    assert_eq!(c.id, n.id);
    assert_eq!(c.capabilities, n.capabilities);
    assert_eq!(c.parent_id, n.parent_id);
    assert_eq!(c.children_ids, n.children_ids);
    assert!(Arc::ptr_eq(&c.last_seen, &n.last_seen));
}

#[test]
fn touching_a_clone_refreshes_the_original() {
    let n = node("n");
    let c = n.clone();
    let before = *n.last_seen.lock().unwrap();
    while before.elapsed() < Duration::from_millis(20) {}
    c.touch();
    assert!(*n.last_seen.lock().unwrap() > before);
    assert!(n.last_seen_duration() < Duration::from_millis(20));
}

#[test]
fn message_with_timestamp_is_exact() {
    let m = MeshMessage::with_timestamp("a", Some("b"), MessageType::TaskResult, "done", 42);
    assert_eq!(m.from, "a");
    assert_eq!(m.to, Some("b".to_string()));
    assert_eq!(m.message_type, MessageType::TaskResult);
    assert_eq!(m.payload, "done");
    assert_eq!(m.timestamp, 42);
    assert!(!m.is_broadcast());
}

#[test]
fn discovery_and_heartbeat_are_broadcasts() {
    let d = MeshMessage::discovery("esp-01");
    assert!(d.is_broadcast());
    assert_eq!(d.payload, "discover");
    assert_eq!(d.message_type, MessageType::Discovery);
    let h = MeshMessage::heartbeat("esp-01");
    assert!(h.is_broadcast());
    assert_eq!(h.payload, "heartbeat");
    assert_eq!(h.message_type, MessageType::Heartbeat);
}

#[test]
fn new_message_is_stamped_with_the_clock() {
    let m = MeshMessage::new("esp-01", Some("srv-01"), MessageType::TaskRequest, "run inference");
    // Milliseconds since the epoch: well past 2020-09-13.
    assert!(m.timestamp > 1_600_000_000_000);
    assert_eq!(m.to, Some("srv-01".to_string()));
}

#[test]
fn node_map_insert_get_remove() {
    let mut m = NodeMap::new();
    assert!(m.is_empty());
    assert!(m.insert("a".to_string(), node("a")).is_none());
    assert!(m.insert("b".to_string(), node("b")).is_none());
    let prev = m.insert("a".to_string(), node("a").with_parent("b"));
    assert_eq!(prev.unwrap().parent_id, None);
    assert_eq!(m.len(), 2);
    assert_eq!(m.keys(), vec!["a".to_string(), "b".to_string()]);
    assert_eq!(m.get("a").unwrap().parent_id, Some("b".to_string()));
    assert!(m.contains_key("b"));
    assert!(m.remove("b").is_some());
    assert!(m.remove("b").is_none());
    assert!(!m.contains_key("b"));
    assert!(m.get("b").is_none());
    assert_eq!(m.len(), 1);
    let c = m.clone();
    assert_eq!(c.keys(), m.keys());
}

#[test]
fn detect_single_node_is_star_without_edges() {
    let mut m = NodeMap::new();
    m.insert("solo".to_string(), node("solo").with_children(vec!["x"]));
    let t = MeshTopology::detect(&m);
    assert_eq!(t.kind, TopologyKind::Star);
    assert_eq!(t.nodes, vec!["solo".to_string()]);
    assert!(t.edges.is_empty());
    let e = MeshTopology::detect(&NodeMap::new());
    assert_eq!(e.kind, TopologyKind::Star);
    assert!(e.nodes.is_empty());
}

#[test]
fn detect_star_lists_edges_once() {
    let mut m = NodeMap::new();
    m.insert("hub".to_string(), node("hub").with_children(vec!["e1", "e2", "gone"]));
    m.insert("e1".to_string(), node("e1").with_parent("hub"));
    m.insert("e2".to_string(), node("e2").with_parent("hub"));
    let t = MeshTopology::detect(&m);
    assert_eq!(t.kind, TopologyKind::Star);
    assert_eq!(t.nodes, vec!["hub".to_string(), "e1".to_string(), "e2".to_string()]);
    let pair = |a: &str, b: &str| (a.to_string(), b.to_string());
    assert_eq!(t.edges, vec![pair("hub", "e1"), pair("hub", "e2")]);
}

#[test]
fn detect_parent_edge_added_when_child_not_listed() {
    let mut m = NodeMap::new();
    m.insert("p".to_string(), node("p"));
    m.insert("c".to_string(), node("c").with_parent("p").with_children(vec!["p"]));
    let t = MeshTopology::detect(&m);
    let pair = |a: &str, b: &str| (a.to_string(), b.to_string());
    assert_eq!(t.edges, vec![pair("c", "p"), pair("p", "c")]);
}

#[test]
fn detect_hierarchy_and_custom() {
    let mut m = NodeMap::new();
    m.insert("root".to_string(), node("root").with_children(vec!["mid"]));
    m.insert("mid".to_string(), node("mid").with_parent("root").with_children(vec!["leaf"]));
    m.insert("leaf".to_string(), node("leaf").with_parent("mid"));
    m.insert("other".to_string(), node("other"));
    assert_eq!(MeshTopology::detect(&m).kind, TopologyKind::Hierarchical);

    let mut c = NodeMap::new();
    c.insert("a".to_string(), node("a"));
    c.insert("b".to_string(), node("b"));
    c.insert("x".to_string(), node("x"));
    assert_eq!(MeshTopology::detect(&c).kind, TopologyKind::Custom);
}

#[test]
fn detect_star_rejects_hub_listing_itself() {
    let mut m = NodeMap::new();
    m.insert("hub".to_string(), node("hub").with_children(vec!["hub", "e1"]));
    m.insert("e1".to_string(), node("e1"));
    m.insert("e2".to_string(), node("e2"));
    assert_ne!(MeshTopology::detect(&m).kind, TopologyKind::Star);
}

#[test]
fn routing_table_finds_shortest_paths() {
    // a - b - c - d, and a - d directly
    let mut m = NodeMap::new();
    m.insert("a".to_string(), node("a").with_children(vec!["b", "d"]));
    m.insert("b".to_string(), node("b").with_children(vec!["c"]));
    m.insert("c".to_string(), node("c").with_children(vec!["d"]));
    m.insert("d".to_string(), node("d"));
    let mut r = RoutingTable::new();
    r.rebuild(&m, "a");
    assert_eq!(r.route_to("d").unwrap(), vec!["a".to_string(), "d".to_string()]);
    assert_eq!(r.route_to("c").unwrap().len(), 3);
    assert_eq!(r.route_to("b").unwrap(), vec!["a".to_string(), "b".to_string()]);
    let hop = r.next_hop("c").unwrap();
    assert!(hop == "b" || hop == "d");
    assert_eq!(r.route_to("c").unwrap()[1], hop);
    assert_eq!(r.next_hop("d"), Some("d"));
    assert!(r.route_to("a").is_none());
    assert!(r.next_hop("zz").is_none());
    let copy = r.clone();
    assert_eq!(copy.route_to("d"), r.route_to("d"));
}

#[test]
fn routing_ignores_unknown_children_and_other_components() {
    let mut m = NodeMap::new();
    m.insert("a".to_string(), node("a").with_children(vec!["ghost", "b"]));
    m.insert("b".to_string(), node("b"));
    m.insert("island".to_string(), node("island"));
    let mut r = RoutingTable::default();
    r.rebuild(&m, "b");
    assert_eq!(r.route_to("a").unwrap(), vec!["b".to_string(), "a".to_string()]);
    assert!(r.route_to("ghost").is_none());
    assert!(r.route_to("island").is_none());
}

#[test]
fn send_error_names_the_target() {
    let mut mesh = mesh();
    let err = mesh.send("ghost", MeshMessage::with_timestamp("local", Some("ghost"), MessageType::Tick, "", 0));
    assert_eq!(err, Err("Target node 'ghost' not found".to_string()));
    assert_eq!(mesh.inbox_len(), 0);
    assert!(mesh.send("local", MeshMessage::heartbeat("local")).is_ok());
    assert_eq!(mesh.inbox_len(), 1);
    assert!(mesh.broadcast(MeshMessage::discovery("local")).is_ok());
    assert_eq!(mesh.inbox_len(), 2);
}

#[test]
fn add_node_links_parent_and_children() {
    let mut mesh = mesh();
    mesh.add_node(node("kid"));
    mesh.add_node(node("mid").with_parent("local").with_children(vec!["kid"]));
    let neighbors = mesh.discover_neighbors();
    let kid = neighbors.iter().find(|n| n.id == "kid").unwrap();
    assert_eq!(kid.parent_id, Some("mid".to_string()));
    assert_eq!(mesh.route_to("kid"), vec!["local".to_string(), "mid".to_string(), "kid".to_string()]);
    let topo = mesh.topology();
    assert!(topo.edges.contains(&("local".to_string(), "mid".to_string())));
    assert!(topo.edges.contains(&("mid".to_string(), "kid".to_string())));
    // Adding a known id again keeps the count.
    mesh.add_node(node("kid"));
    assert_eq!(mesh.node_count(), 3);
}

#[test]
fn remove_node_unlinks_and_reports() {
    let mut mesh = mesh();
    mesh.add_node(node("mid").with_parent("local"));
    mesh.add_node(node("kid").with_parent("mid"));
    mesh.take_events();
    mesh.remove_node("mid");
    assert_eq!(mesh.node_count(), 2);
    let kid = mesh.discover_neighbors().into_iter().find(|n| n.id == "kid").unwrap();
    assert_eq!(kid.parent_id, None);
    assert!(mesh.route_to("kid").is_empty());
    assert!(mesh.route_to("mid").is_empty());
    let events = mesh.take_events();
    assert_eq!(events.len(), 1);
    match &events[0] {
        MeshEvent::NodeLeft { node_id } => assert_eq!(node_id, "mid"),
        _ => panic!("expected NodeLeft"),
    }
    // Removing an unknown node changes nothing but is still reported.
    mesh.remove_node("nobody");
    assert_eq!(mesh.node_count(), 2);
    assert_eq!(mesh.take_events().len(), 1);
}

#[test]
fn join_adds_bootstrap_jetson_and_leave_removes_local() {
    let mut mesh = ShellMesh::new(
        MeshNode::new("local", DeviceType::Desktop, "127.0.0.1:9000").with_parent("boot"),
    );
    let topo = mesh.join("boot").unwrap();
    assert!(mesh.is_joined());
    assert_eq!(topo.nodes, vec!["local".to_string(), "boot".to_string()]);
    let boot = mesh.discover_neighbors().into_iter().find(|n| n.id == "boot").unwrap();
    assert_eq!(boot.device_type, DeviceType::Jetson);
    assert_eq!(boot.address, "boot");
    assert!(mesh.leave().is_ok());
    assert!(!mesh.is_joined());
    assert_eq!(mesh.node_count(), 1);
    assert!(mesh.discover_neighbors()[0].children_ids.is_empty());
}

#[test]
fn delegate_prefers_fewest_extra_capabilities_then_first() {
    let mut mesh = mesh();
    mesh.add_node(node("big").with_capabilities(vec!["gpu", "ml", "storage"]));
    mesh.add_node(node("small").with_capabilities(vec!["gpu", "ml", "ml"]));
    mesh.add_node(node("twin").with_capabilities(vec!["ml", "gpu"]));
    let mut busy = node("busy").with_capabilities(vec!["gpu", "ml"]);
    busy.status = NodeStatus::Busy;
    mesh.add_node(busy);
    assert_eq!(mesh.delegate_task("t", vec!["gpu", "ml", "gpu"]), Some("small".to_string()));
    assert_eq!(mesh.delegate_task("t", vec![]), Some("small".to_string()));
    assert_eq!(mesh.delegate_task("t", vec!["storage"]), Some("big".to_string()));
    assert_eq!(mesh.delegate_task("t", vec!["tpu"]), None);
}

#[test]
fn delegate_never_picks_the_local_node() {
    let mut mesh = ShellMesh::new(
        MeshNode::new("local", DeviceType::Desktop, "127.0.0.1:9000").with_capabilities(vec!["gpu"]),
    );
    assert_eq!(mesh.delegate_task("t", vec!["gpu"]), None);
    mesh.add_node(node("w").with_capabilities(vec!["gpu", "x"]));
    assert_eq!(mesh.delegate_task("t", vec!["gpu"]), Some("w".to_string()));
}

#[test]
fn heartbeat_changes_no_contents() {
    let mut mesh = mesh();
    mesh.add_node(node("a").with_parent("local"));
    let before = mesh.topology();
    mesh.heartbeat();
    let after = mesh.topology();
    assert_eq!(before.nodes, after.nodes);
    assert_eq!(before.edges, after.edges);
    assert_eq!(mesh.node_count(), 2);
}

#[test]
fn readme_quick_start() {
    let esp = MeshNode::new("esp-01", DeviceType::ESP32, "192.168.1.10")
        .with_capabilities(vec!["sensor", "gpio"]);
    let server = MeshNode::new("srv-01", DeviceType::Server, "10.0.0.1")
        .with_capabilities(vec!["inference", "storage"])
        .with_children(vec!["esp-01"]);

    let mut nodes = NodeMap::new();
    nodes.insert(esp.id.clone(), esp);
    nodes.insert(server.id.clone(), server);
    let topo = MeshTopology::detect(&nodes);
    assert_eq!(topo.kind, TopologyKind::Star);

    let msg = MeshMessage::discovery("esp-01");
    assert!(msg.is_broadcast());

    let task = MeshMessage::new("esp-01", Some("srv-01"), MessageType::TaskRequest, "run inference");
    assert!(!task.is_broadcast());
    assert_eq!(task.payload, "run inference");
}

#[test]
fn remove_undoes_add() {
    let mut mesh = mesh();
    mesh.add_node(node("a").with_parent("local"));
    let keys_before = mesh.topology().nodes;
    mesh.add_node(node("fresh").with_parent("a").with_children(vec!["a"]));
    assert_eq!(mesh.node_count(), 3);
    mesh.remove_node("fresh");
    assert_eq!(mesh.topology().nodes, keys_before);
}

#[test]
fn full_mesh_needs_every_node_linked_to_every_other() {
    let mut m = NodeMap::new();
    m.insert("a".to_string(), node("a").with_children(vec!["x"]));
    m.insert("b".to_string(), node("b").with_children(vec!["y"]));
    m.insert("c".to_string(), node("c").with_children(vec!["z"]));
    assert_eq!(MeshTopology::detect(&m).kind, TopologyKind::Custom);

    let mut full = NodeMap::new();
    full.insert("a".to_string(), node("a").with_children(vec!["b"]).with_parent("c"));
    full.insert("b".to_string(), node("b").with_children(vec!["c", "a"]));
    full.insert("c".to_string(), node("c").with_children(vec!["a", "b"]));
    assert_eq!(MeshTopology::detect(&full).kind, TopologyKind::FullMesh);
}

#[test]
fn heartbeat_refreshes_every_stamp() {
    let mut mesh = mesh();
    mesh.add_node(node("a").with_parent("local"));
    mesh.add_node(node("b"));
    let held = mesh.discover_neighbors();
    let long_ago = Instant::now();
    *mesh.local_node().last_seen.lock().unwrap() = long_ago;
    for n in &held {
        *n.last_seen.lock().unwrap() = long_ago;
    }
    while long_ago.elapsed() < Duration::from_millis(20) {}
    mesh.heartbeat();
    assert!(*mesh.local_node().last_seen.lock().unwrap() > long_ago);
    for n in &held {
        assert!(*n.last_seen.lock().unwrap() > long_ago);
    }
    assert_eq!(mesh.route_to("a"), vec!["local".to_string(), "a".to_string()]);
    assert_eq!(mesh.node_count(), 3);
}

#[test]
fn no_routes_after_leaving() {
    let mut mesh = mesh();
    mesh.add_node(node("a").with_parent("local"));
    mesh.add_node(node("b").with_parent("a"));
    assert_eq!(mesh.route_to("b").len(), 3);
    mesh.leave().unwrap();
    assert!(mesh.route_to("a").is_empty());
    assert!(mesh.route_to("b").is_empty());
}

#[test]
fn delegated_id_is_a_known_node() {
    let mut mesh = mesh();
    mesh.add_node(node("w").with_capabilities(vec!["gpu"]));
    let chosen = mesh.delegate_task("t", vec!["gpu"]).unwrap();
    assert!(mesh.topology().nodes.contains(&chosen));
}

#[test]
fn epoch_millis_after_the_epoch() {
    assert_eq!(epoch_millis(false, 0, 0), 0);
    assert_eq!(epoch_millis(false, 1, 500_000_000), 1500);
    assert_eq!(epoch_millis(false, 2, 5_000_000), 2005);
    assert_eq!(epoch_millis(false, 1_700_000_000, 123_456_789), 1_700_000_000_123);
    assert_eq!(epoch_millis(false, 0, 999_999), 0);
}

#[test]
fn epoch_millis_before_the_epoch_rounds_down() {
    assert_eq!(epoch_millis(true, 1, 500_000_000), -1500);
    assert_eq!(epoch_millis(true, 2, 0), -2000);
    assert_eq!(epoch_millis(true, 0, 1), -1);
    assert_eq!(epoch_millis(true, 0, 1_000_000), -1);
    assert_eq!(epoch_millis(true, 0, 1_000_001), -2);
    assert_eq!(epoch_millis(true, 3, 250_000_000), -3250);
}

#[test]
fn epoch_millis_clamps_beyond_the_calendar() {
    assert_eq!(epoch_millis(false, u64::MAX, 0), i64::MAX);
    assert_eq!(epoch_millis(true, u64::MAX, 0), i64::MIN);
    assert_eq!(epoch_millis(false, 9_000_000_000_000_000, 0), i64::MAX);
    assert_eq!(epoch_millis(true, 9_000_000_000_000_000, 0), i64::MIN);
}

#[test]
fn is_joined_follows_the_last_join_or_leave() {
    let mut mesh = mesh();
    assert!(!mesh.is_joined());
    mesh.add_node(node("a"));
    assert!(!mesh.is_joined());
    assert!(mesh.join("boot").is_ok());
    assert!(mesh.is_joined());
    mesh.add_node(node("b"));
    mesh.remove_node("a");
    assert!(mesh.send("b", MeshMessage::heartbeat("local")).is_ok());
    assert!(mesh.broadcast(MeshMessage::discovery("local")).is_ok());
    let _ = mesh.take_events();
    mesh.heartbeat();
    assert!(mesh.is_joined());
    assert!(mesh.leave().is_ok());
    assert!(!mesh.is_joined());
    mesh.add_node(node("c"));
    assert!(!mesh.is_joined());
    assert!(mesh.join("boot2").is_ok());
    assert!(mesh.join("boot3").is_ok());
    assert!(mesh.is_joined());
}

#[test]
fn inbox_len_counts_delivered_sends_and_broadcasts() {
    let mut mesh = mesh();
    mesh.add_node(node("a"));
    assert!(mesh.send("a", MeshMessage::with_timestamp("local", Some("a"), MessageType::Tick, "1", 1)).is_ok());
    assert!(mesh.send("ghost", MeshMessage::with_timestamp("local", Some("ghost"), MessageType::Tick, "2", 2)).is_err());
    assert!(mesh.broadcast(MeshMessage::with_timestamp("local", None, MessageType::Tick, "3", 3)).is_ok());
    assert!(mesh.join("boot").is_ok());
    mesh.remove_node("a");
    assert!(mesh.send("a", MeshMessage::with_timestamp("local", Some("a"), MessageType::Tick, "4", 4)).is_err());
    assert!(mesh.leave().is_ok());
    let _ = mesh.take_events();
    assert!(mesh.send("boot", MeshMessage::with_timestamp("local", Some("boot"), MessageType::Tick, "5", 5)).is_ok());
    assert_eq!(mesh.inbox_len(), 3);
}

fn diamond(first: &str, second: &str) -> NodeMap {
    let mut nodes = NodeMap::new();
    nodes.insert("local".to_string(), node("local").with_children(vec![first, second]));
    nodes.insert("a".to_string(), node("a").with_children(vec!["c"]));
    nodes.insert("b".to_string(), node("b").with_children(vec!["c"]));
    nodes.insert("c".to_string(), node("c"));
    nodes
}

#[test]
fn equally_short_routes_follow_the_order_links_are_read() {
    let mut table = RoutingTable::new();
    table.rebuild(&diamond("a", "b"), "local");
    assert_eq!(table.route_to("c"), Some(vec!["local".to_string(), "a".to_string(), "c".to_string()]));
    assert_eq!(table.next_hop("c"), Some("a"));
    table.rebuild(&diamond("b", "a"), "local");
    assert_eq!(table.route_to("c"), Some(vec!["local".to_string(), "b".to_string(), "c".to_string()]));
    assert_eq!(table.next_hop("c"), Some("b"));
}

#[test]
fn rebuilding_from_the_same_nodes_gives_the_same_routes() {
    let nodes = diamond("b", "a");
    let mut first = RoutingTable::new();
    first.rebuild(&diamond("a", "b"), "a");
    first.rebuild(&nodes, "local");
    let mut second = RoutingTable::new();
    second.rebuild(&nodes, "local");
    second.rebuild(&nodes, "local");
    for t in ["local", "a", "b", "c", "nowhere"] {
        assert_eq!(first.route_to(t), second.route_to(t));
        assert_eq!(first.next_hop(t), second.next_hop(t));
    }
}
