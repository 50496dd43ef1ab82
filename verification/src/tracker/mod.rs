//! Finding peers with the help of trackers.

pub mod address;
pub mod exchange;
pub mod exchange_laws;
pub mod peers;
pub mod picker;
pub mod udp;

pub use peers::{Address, Peer, Peers};
pub use udp::UdpTracker;
