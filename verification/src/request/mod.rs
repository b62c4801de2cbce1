//! The peer wire protocol and the decisions of workers and coordinator.

pub mod client;
pub mod download_laws;
pub mod handshake;
pub mod message;
pub mod peer_stream;
pub mod storage;
pub mod piece_assembly;
pub mod torrent_message;
pub mod wire;
