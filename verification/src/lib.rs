//! Control-plane library for a simulated packet network.
//!
//! The library keeps an observer-facing model of a live network — which
//! nodes exist, how they are connected, and which display events the
//! observer should see — consistent with the network itself while operators
//! crash nodes, add and remove links, change drop rates, or swap the whole
//! topology. The decisions (registry lookups, edge bookkeeping, command
//! dispatch outcomes, event classification and downsampling) are verified;
//! the surrounding process (threads, signal handling, the rendering of the
//! graph) lives outside the library and only feeds it plain values.

pub mod command;
pub mod controller;
pub mod dispatcher;
pub mod events;
pub mod graph;
pub mod populate;
pub mod registry;

pub use command::Command;
pub use command::SendError;
pub use command::SendRecord;
pub use controller::validate_config;
pub use controller::ConfigLoadError;
pub use controller::NewTopology;
pub use controller::SimulationController;
pub use dispatcher::send_drone_command;
pub use dispatcher::ChannelMap;
pub use dispatcher::ChannelSet;
pub use events::process_event;
pub use events::DownsampleState;
pub use events::DroneEvent;
pub use events::MessageStruct;
pub use events::Packet;
pub use events::PacketType;
pub use graph::check_edges;
pub use graph::ClientServerStruct;
pub use graph::DroneStruct;
pub use graph::EdgeStruct;
pub use populate::populate_all;
pub use populate::ParsedClient;
pub use populate::ParsedDrone;
pub use populate::ParsedServer;
pub use registry::get_node_type;
pub use registry::NodeType;
pub use registry::Registry;
