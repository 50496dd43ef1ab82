//! The verified core of a BitTorrent client.

pub mod bencode;
pub mod buffer;
pub mod digest;
pub mod download;
pub mod file;
pub mod peer_id;
pub mod text;
pub mod tracker;
