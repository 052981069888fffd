//! Peers: their addresses as trackers give them, and the wire protocol.

pub mod peer;
pub mod peer_connection;
