//! A traffic-analysis defense for a VPN, with both halves: the policy that pins the defense
//! on, and the data plane that shapes packets.

pub mod bytes;
pub mod crypto;
pub mod engine;
pub mod ffi;
pub mod handshake;
pub mod levels;
pub mod measure;
pub mod order;
pub mod policy;
pub mod seal;
pub mod session;
pub mod text;
pub mod time;
pub mod timers;
pub mod transport;
pub mod wgbridge;
pub mod wgconf;
pub mod wire;
pub mod workload;
