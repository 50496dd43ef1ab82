//! The peers that a tracker knows.

use vstd::prelude::*;

use crate::bencode::meta_info::InvalidLength;
use crate::buffer::u16_at;

verus! {

/// Where a peer listens.
#[derive(Copy, Clone, Debug, PartialEq, Eq)]
pub struct Address {
    pub ip: [u8; 4],
    pub port: u16,
}

#[derive(Clone, Debug, PartialEq)]
pub struct Peer {
    pub id: Option<String>,
    pub ip: [u8; 4],
    pub port: u16,
}

pub struct Peers(Vec<Peer>);

impl View for Peers {
    type V = Seq<Peer>;

    closed spec fn view(&self) -> Seq<Peer> {
        self.0@
    }
}

/// Whether a peer is the one that six bytes tell: four for its address and two for its port.
pub open spec fn is_compact(peer: Peer, bytes: Seq<u8>) -> bool {
    &&& peer.id is None
    &&& peer.ip@ == bytes.take(4)
    &&& peer.port == u16_at(bytes, 4)
}

impl Peers {
    /// Reads peers of six bytes each.
    pub fn from_bytes(v: &[u8]) -> (res: Result<Peers, InvalidLength>)
        ensures
            match res {
                Ok(peers) => {
                    &&& v@.len() == 6 * peers@.len()
                    &&& forall|i: int|
                        0 <= i < peers@.len() ==> is_compact(
                            #[trigger] peers@[i],
                            v@.subrange(6 * i, 6 * i + 6),
                        )
                },
                Err(error) => error.len == v@.len() && v@.len() % 6 != 0,
            },
    {
        if v.len() % 6 != 0 {
            return Err(InvalidLength { len: v.len() });
        }
        let len: usize = v.len();
        let mut peers: Vec<Peer> = Vec::new();
        let mut at: usize = 0;
        while at < len
            invariant
                at <= len == v@.len(),
                at == 6 * peers@.len(),
                len % 6 == 0,
                forall|i: int|
                    0 <= i < peers@.len() ==> is_compact(
                        #[trigger] peers@[i],
                        v@.subrange(6 * i, 6 * i + 6),
                    ),
            decreases len - at,
        {
            let ip = [v[at], v[at + 1], v[at + 2], v[at + 3]];
            let port: u16 = v[at + 4] as u16 * 0x100 + v[at + 5] as u16;
            assert(ip@ =~= v@.subrange(at as int, at + 6).take(4));
            peers.push(Peer { id: None, ip, port });
            at += 6;
        }
        Ok(Peers(peers))
    }
}

impl std::ops::Deref for Peers {
    type Target = Vec<Peer>;

    fn deref(&self) -> (peers: &Vec<Peer>)
        ensures
            peers@ == self@,
    {
        &self.0
    }
}

/// A compact peer has no name, the first four bytes as its address and the other two as its port.
pub proof fn law_compact_peer(peer: Peer, bytes: Seq<u8>)
    requires
        bytes.len() == 6,
        is_compact(peer, bytes),
    ensures
        peer.id is None,
        forall|j: int| 0 <= j < 4 ==> peer.ip@[j] == bytes[j],
        peer.port as int == bytes[4] * 0x100 + bytes[5],
{
    assert forall|j: int| 0 <= j < 4 implies peer.ip@[j] == bytes[j] by {
        assert(bytes.take(4)[j] == bytes[j]);
    }
}

} // verus!
