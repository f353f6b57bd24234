use shell_mesh::{DeviceType, MeshEvent, MeshMessage, MeshNode, MeshTopology, MessageType, NodeMap, ShellMesh, TopologyKind};
use std::time::Duration;

fn make_test_mesh() -> ShellMesh {
    let local = MeshNode::new("local", DeviceType::Desktop, "127.0.0.1:9000");
    ShellMesh::new(local)
}

#[test]
fn test_new_creates_mesh_with_local_node() {
    let mesh = make_test_mesh();
    assert_eq!(mesh.node_count(), 1);
    assert_eq!(mesh.local_node().id, "local");
    assert_eq!(mesh.local_node().device_type, DeviceType::Desktop);
}

#[test]
fn test_join_discovers_existing_mesh() {
    let mut mesh = make_test_mesh();
    let topo = mesh.join("192.168.1.10:9000").unwrap();
    assert!(mesh.is_joined());
    assert!(topo.nodes.contains(&"192.168.1.10:9000".to_string()));
}

#[test]
fn test_send_delivers_to_specific_node() {
    let mut mesh = make_test_mesh();
    let target = MeshNode::new("target", DeviceType::Jetson, "10.0.0.1:9000");
    mesh.add_node(target);

    let msg = MeshMessage::new("local", Some("target"), MessageType::TaskRequest, "do work");
    let result = mesh.send("target", msg);
    assert!(result.is_ok());
    assert_eq!(mesh.inbox_len(), 1);
}

#[test]
fn test_send_to_unknown_node_fails() {
    let mut mesh = make_test_mesh();
    let msg = MeshMessage::new("local", Some("ghost"), MessageType::TaskRequest, "???");
    let result = mesh.send("ghost", msg);
    assert!(result.is_err());
}

#[test]
fn test_broadcast_reaches_all_nodes() {
    let mut mesh = make_test_mesh();
    mesh.add_node(MeshNode::new("a", DeviceType::ESP32, "10.0.0.2:9000"));
    mesh.add_node(MeshNode::new("b", DeviceType::ESP32, "10.0.0.3:9000"));

    let msg = MeshMessage::new("local", None, MessageType::Discovery, "hello all");
    let result = mesh.broadcast(msg);
    assert!(result.is_ok());
}

#[test]
fn test_discover_neighbors_returns_connected() {
    let mut mesh = make_test_mesh();
    mesh.add_node(MeshNode::new("a", DeviceType::ESP32, "10.0.0.2:9000"));
    mesh.add_node(MeshNode::new("b", DeviceType::Jetson, "10.0.0.3:9000"));

    let neighbors = mesh.discover_neighbors();
    assert_eq!(neighbors.len(), 2);
    let ids: Vec<&str> = neighbors.iter().map(|n| n.id.as_str()).collect();
    assert!(ids.contains(&"a"));
    assert!(ids.contains(&"b"));
}

#[test]
fn test_route_to_finds_path_in_star() {
    let mut mesh = make_test_mesh();
    // Hub = local, children = esp1, esp2: adding a node with a parent lists it
    // among the parent's children, and every change recomputes the routes.
    let _local = mesh.local_node().clone();
    let mut esp1 = MeshNode::new("esp1", DeviceType::ESP32, "10.0.0.2:9000");
    esp1.parent_id = Some("local".to_string());
    let mut esp2 = MeshNode::new("esp2", DeviceType::ESP32, "10.0.0.3:9000");
    esp2.parent_id = Some("local".to_string());

    mesh.add_node(esp1);
    mesh.add_node(esp2);

    let path = mesh.route_to("esp2");
    assert!(!path.is_empty());
    assert_eq!(*path.last().unwrap(), "esp2");
}

#[test]
fn test_route_to_finds_path_in_mesh() {
    let mut mesh = make_test_mesh();
    // Full mesh: local <-> a <-> b, local <-> b
    let mut a = MeshNode::new("a", DeviceType::Desktop, "10.0.0.2:9000");
    a.children_ids = vec!["local".into(), "b".into()];
    let mut b = MeshNode::new("b", DeviceType::Desktop, "10.0.0.3:9000");
    b.children_ids = vec!["local".into(), "a".into()];

    mesh.add_node(a);
    mesh.add_node(b);

    let path = mesh.route_to("b");
    assert!(!path.is_empty());
    assert_eq!(*path.last().unwrap(), "b");
}

#[test]
fn test_delegate_task_finds_capable_node() {
    let mut mesh = make_test_mesh();
    let node = MeshNode::new("worker", DeviceType::Jetson, "10.0.0.2:9000")
        .with_capabilities(vec!["gpu", "ml"]);
    mesh.add_node(node);

    let result = mesh.delegate_task("train model", vec!["gpu", "ml"]);
    assert_eq!(result, Some("worker".to_string()));
}

#[test]
fn test_delegate_task_returns_none_if_no_capable_node() {
    let mut mesh = make_test_mesh();
    let node = MeshNode::new("weak", DeviceType::ESP32, "10.0.0.2:9000")
        .with_capabilities(vec!["sensor"]);
    mesh.add_node(node);

    let result = mesh.delegate_task("train model", vec!["gpu", "ml"]);
    assert_eq!(result, None);
}

#[test]
fn test_topology_detection_star() {
    let mut nodes = NodeMap::new();
    let hub = MeshNode::new("hub", DeviceType::Jetson, "10.0.0.1:9000")
        .with_children(vec!["esp1", "esp2", "esp3"]);
    let esp1 = MeshNode::new("esp1", DeviceType::ESP32, "10.0.0.2:9000").with_parent("hub");
    let esp2 = MeshNode::new("esp2", DeviceType::ESP32, "10.0.0.3:9000").with_parent("hub");
    let esp3 = MeshNode::new("esp3", DeviceType::ESP32, "10.0.0.4:9000").with_parent("hub");

    nodes.insert("hub".to_string(), hub);
    nodes.insert("esp1".to_string(), esp1);
    nodes.insert("esp2".to_string(), esp2);
    nodes.insert("esp3".to_string(), esp3);

    let topo = MeshTopology::detect(&nodes);
    assert_eq!(topo.kind, TopologyKind::Star);
}

#[test]
fn test_topology_detection_mesh() {
    let mut nodes = NodeMap::new();
    // 3 nodes all connected to each other
    let a = MeshNode::new("a", DeviceType::Desktop, "10.0.0.1:9000").with_children(vec!["b", "c"]);
    let b = MeshNode::new("b", DeviceType::Desktop, "10.0.0.2:9000").with_children(vec!["a", "c"]);
    let c = MeshNode::new("c", DeviceType::Desktop, "10.0.0.3:9000").with_children(vec!["a", "b"]);

    nodes.insert("a".to_string(), a);
    nodes.insert("b".to_string(), b);
    nodes.insert("c".to_string(), c);

    let topo = MeshTopology::detect(&nodes);
    assert_eq!(topo.kind, TopologyKind::FullMesh);
}

#[test]
fn test_leave_removes_node_from_mesh() {
    let mut mesh = make_test_mesh();
    mesh.add_node(MeshNode::new("other", DeviceType::Desktop, "10.0.0.2:9000"));
    assert_eq!(mesh.node_count(), 2);

    mesh.leave().unwrap();
    assert!(!mesh.is_joined());
}

#[test]
fn test_heartbeat_updates_last_seen() {
    let mut mesh = make_test_mesh();
    let node = MeshNode::new("sensor", DeviceType::ESP32, "10.0.0.2:9000");
    mesh.add_node(node);

    // Let some time pass
    let start = std::time::Instant::now();
    while start.elapsed() < Duration::from_millis(10) {}
    mesh.heartbeat();

    let neighbors = mesh.discover_neighbors();
    let sensor = neighbors.iter().find(|n| n.id == "sensor").unwrap();
    assert!(sensor.last_seen_duration() < Duration::from_millis(100));
    assert!(mesh.local_node().last_seen_duration() < Duration::from_millis(100));
}

#[test]
fn test_on_event_fires_node_joined() {
    let mut mesh = make_test_mesh();
    let mut events: Vec<String> = Vec::new();

    mesh.add_node(MeshNode::new("newbie", DeviceType::ESP32, "10.0.0.5:9000"));

    for e in mesh.take_events() {
        match e {
            MeshEvent::NodeJoined { node } => events.push(format!("joined:{}", node.id)),
            _ => {}
        }
    }
    assert_eq!(events.len(), 1);
    assert_eq!(events[0], "joined:newbie");
}
