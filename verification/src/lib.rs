//! `meshcore` — the sans-IO protocol core for a Bluetooth LE mesh messenger.
//!
//! Time is injected through [`clock::Clock`]; outbound frames are collected by the node and handed
//! to the platform, so every decision the core makes is a function of its state and inputs. That
//! is what lets the simulator ([`sim`]) drive many virtual nodes deterministically.
//!
//! Layering (bottom-up): [`wire`] (packet codec) → [`frag`] (link framing) →
//! [`identity`] (keys + proof-of-work) → [`relay`] (flood control) →
//! [`store`] / [`channels`] → [`node`] (the orchestrator).

pub mod bytes;
pub mod channels;
pub mod clock;
pub mod compress;
pub mod config;
pub mod crypto;
pub mod error;
pub mod ffi;
pub mod fpmap;
pub mod frag;
pub mod identity;
pub mod node;
pub mod noise;
pub mod payload;
pub mod random;
pub mod relay;
pub mod sim;
pub mod store;
pub mod text;
pub mod transport;
pub mod wire;

pub use clock::{Clock, ManualClock};
pub use config::Tunables;
pub use error::Error;
pub use identity::LocalIdentity;
pub use node::{MeshEvent, MeshNode};
pub use transport::{LinkId, Transport, TransportEvent};
pub use wire::{EphId, MsgType, Packet, PROTOCOL_VERSION};
