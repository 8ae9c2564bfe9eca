//! A minimal peer-to-peer overlay core: a peer registry that tracks live
//! connections and their advertised addresses, a wire codec for the four
//! protocol messages, the event-driven discovery engine that converges the
//! overlay toward a full mesh, and the periodic gossip emitter.
//!
//! Transport I/O, logging, and argument handling live outside this crate;
//! everything here is pure in-memory logic with proved contracts.

pub mod addr;
pub mod emitter;
pub mod engine;
pub mod message;
pub mod peers_storage;
pub mod text;

pub use addr::Address;
pub use emitter::{gossip_text, gossip_tick};
pub use engine::{EngineOutput, NetEvent};
pub use message::{decode, encode, Message, MessageView, ProtocolError};
pub use peers_storage::{PeerAddr, PeerEndpoint, PeerEntry, PeersStorage, RegistryView};
pub use text::{format_addr, format_elapsed, format_list_of_addrs};
