# shell_mesh

A mesh of heterogeneous devices (ESP32 to cloud) that detects its own shape,
routes by breadth-first search, and adapts as nodes join and leave. The
library is written in Verus: each operation carries a contract, and Verus
proves the code meets it.

Layout:

- `src/node.rs` – devices (`MeshNode`) and their plain-value view; a node's
  last-seen stamp is shared by its clones.
- `src/node_map.rs` – `NodeMap`, the nodes keyed by name, with unique keys.
- `src/graph.rs` – links between nodes, walks, and the facts about them.
- `src/walk_order.rs` – the order in which the search reads links, and the
  first shortest walk to a node in that order.
- `src/routing.rs` – `RoutingTable`: breadth-first search, proved to give the
  first shortest walk to exactly the reachable nodes.
- `src/topology.rs` – `MeshTopology::detect`: star, full mesh, hierarchy or custom.
- `src/message.rs` – `MeshMessage`, and clock readings as epoch milliseconds.
- `src/mesh.rs` – `ShellMesh`: the mesh as one node sees it; every change
  keeps the routes current and queues an event.
- `src/laws.rs` – properties that relate several operations, including
  what any sequence of calls does to the joined flag and the inbox.
- `app/` – serde-ready copies of the data types, and `SharedMesh`, a
  thread-safe handle that passes events to a registered callback.
