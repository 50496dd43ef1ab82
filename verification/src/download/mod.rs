//! Downloading the pieces of a torrent from seeds.

use vstd::prelude::*;

pub mod bitfield;
pub mod file;
pub mod handshake;
pub mod laws;
pub mod peer_msg;
pub mod piece;
pub mod seed;
pub mod session;
pub mod session_laws;

pub use bitfield::Bitfield;
pub use file::File;
pub use handshake::{Handshake, HandshakeCodec};
pub use peer_msg::{Message, MessageCodec};

verus! {

/// Why bytes are no frame.
#[derive(Copy, Clone, Debug, PartialEq, Eq)]
pub enum CodecError {
    /// The frame is of no known kind.
    InvalidData,
}

} // verus!
