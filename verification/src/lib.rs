//! Core logic of a leeching BitTorrent client: metainfo arithmetic, the
//! piece-assembly state machine, the peer wire protocol and the tracker
//! announce rules, all stated as contracts and proved.

pub mod endian;
pub mod error;
pub mod hash;
pub mod peers;
pub mod pieces;
pub mod swarm;
pub mod torrent;
pub mod trackers;
