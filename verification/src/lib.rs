//! A hybrid (super-peer) signaling topology: the server's peer table and the
//! clients' bookkeeping, with their contracts.

pub mod balance;
pub mod client;
pub mod handshake;
pub mod laws;
pub mod peer_id;
pub mod state;
pub mod super_client;
pub mod text;
pub mod topology;
pub mod wire;
