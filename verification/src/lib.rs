//! A self-organising mesh of heterogeneous devices: typed nodes, messages,
//! topology detection and breadth-first routing, with the behaviour of each
//! operation stated as a contract and proved.

mod clock;
mod strings;
pub mod node;
pub mod node_map;
pub mod graph;
pub mod walk_order;
pub mod routing;
pub mod topology;
pub mod message;
pub mod mesh;
pub mod laws;

pub use node::{DeviceType, NodeStatus, MeshNode, MeshNodeView};
pub use node_map::NodeMap;
pub use routing::RoutingTable;
pub use topology::{TopologyKind, MeshTopology};
pub use message::{MessageType, MeshMessage, MeshMessageView};
pub use mesh::{MeshEvent, MeshEventView, MeshCall, ShellMesh, ShellMeshView};
