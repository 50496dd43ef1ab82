//! The handshake that opens a connection between two peers.

use bytes::BytesMut;
use vstd::prelude::*;

use super::CodecError;
use crate::buffer::{self, contents};
use crate::text::ascii_text;

verus! {

/// The size of a handshake on the wire.
pub const HANDSHAKE_SIZE: usize = 68;

/// The characters of `BitTorrent protocol`.
pub open spec fn protocol_name() -> Seq<u8> {
    seq![
        0x42, 0x69, 0x74, 0x54, 0x6f, 0x72, 0x72, 0x65, 0x6e, 0x74, 0x20, 0x70, 0x72, 0x6f, 0x74,
        0x6f, 0x63, 0x6f, 0x6c,
    ]
}

#[derive(Clone, Copy, Debug, PartialEq, Eq)]
pub struct Handshake {
    pub length: u8,
    pub protocol: [u8; 19],
    pub reserved: [u8; 8],
    pub info_hash: [u8; 20],
    pub peer_id: [u8; 20],
}

impl Handshake {
    /// The fields in the order in which they stand on the wire.
    pub open spec fn fields(self) -> Seq<u8> {
        seq![self.length] + self.protocol@ + self.reserved@ + self.info_hash@ + self.peer_id@
    }

    /// What is sent: the fields, with the reserved bytes zero.
    pub open spec fn wire(self) -> Seq<u8> {
        seq![self.length] + self.protocol@ + Seq::new(8, |i: int| 0u8) + self.info_hash@
            + self.peer_id@
    }

    /// The handshake for a torrent by a peer.
    pub fn new(info_hash: [u8; 20], peer_id: [u8; 20]) -> (res: Handshake)
        ensures
            res.length == 19,
            res.protocol@ == protocol_name(),
            res.reserved@ == Seq::new(8, |i: int| 0u8),
            res.info_hash == info_hash,
            res.peer_id == peer_id,
    {
        let protocol: [u8; 19] = [
            0x42, 0x69, 0x74, 0x54, 0x6f, 0x72, 0x72, 0x65, 0x6e, 0x74, 0x20, 0x70, 0x72, 0x6f,
            0x74, 0x6f, 0x63, 0x6f, 0x6c,
        ];
        assert(protocol@ =~= protocol_name());
        let reserved: [u8; 8] = [0; 8];
        assert(reserved@ =~= Seq::new(8, |i: int| 0u8));
        Handshake { length: 19, protocol, reserved, info_hash, peer_id }
    }
}

impl Default for Handshake {
    fn default() -> (res: Self)
        ensures
            res.length == 0,
            res.protocol@ == Seq::new(19, |i: int| 0u8),
            res.reserved@ == Seq::new(8, |i: int| 0u8),
            res.info_hash@ == Seq::new(20, |i: int| 0u8),
            res.peer_id@ == Seq::new(20, |i: int| 0u8),
    {
        let res = Self {
            length: 0,
            protocol: [0; 19],
            reserved: [0; 8],
            info_hash: [0; 20],
            peer_id: [0; 20],
        };
        assert(res.protocol@ =~= Seq::new(19, |i: int| 0u8));
        assert(res.reserved@ =~= Seq::new(8, |i: int| 0u8));
        assert(res.info_hash@ =~= Seq::new(20, |i: int| 0u8));
        assert(res.peer_id@ =~= Seq::new(20, |i: int| 0u8));
        res
    }
}

pub struct HandshakeCodec;

impl HandshakeCodec {
    /// Takes a handshake from the front of a buffer, once all of it has arrived.
    pub fn decode(&mut self, buf: &mut BytesMut) -> (res: Result<Option<Handshake>, CodecError>)
        ensures
            match res {
                Ok(None) => contents(*old(buf)).len() < HANDSHAKE_SIZE && contents(*final(buf))
                    == contents(*old(buf)),
                Ok(Some(handshake)) => {
                    &&& contents(*old(buf)).len() >= HANDSHAKE_SIZE
                    &&& handshake.fields() == contents(*old(buf)).take(HANDSHAKE_SIZE as int)
                    &&& contents(*final(buf)) == contents(*old(buf)).skip(HANDSHAKE_SIZE as int)
                },
                Err(_) => false,
            },
    {
        if buffer::len(buf) < HANDSHAKE_SIZE {
            return Ok(None);
        }
        let ghost s = contents(*buf);
        let mut handshake = Handshake::default();
        handshake.length = buffer::get_u8(buf);
        buffer::copy_to_slice(buf, &mut handshake.protocol);
        buffer::copy_to_slice(buf, &mut handshake.reserved);
        buffer::copy_to_slice(buf, &mut handshake.info_hash);
        buffer::copy_to_slice(buf, &mut handshake.peer_id);
        assert(handshake.fields() =~= s.take(68));
        assert(contents(*buf) =~= s.skip(68));
        Ok(Some(handshake))
    }

    /// Adds a handshake to the end of a buffer.
    pub fn encode(&mut self, item: Handshake, dst: &mut BytesMut) -> (res: Result<(), CodecError>)
        requires
            contents(*old(dst)).len() + HANDSHAKE_SIZE <= isize::MAX,
        ensures
            res is Ok,
            contents(*final(dst)) == contents(*old(dst)) + item.wire(),
    {
        let ghost s = contents(*dst);
        buffer::reserve(dst, HANDSHAKE_SIZE);
        buffer::put_u8(dst, item.length);
        buffer::put(dst, &item.protocol);
        buffer::put_bytes(dst, 0, 8);
        buffer::put(dst, &item.info_hash);
        buffer::put(dst, &item.peer_id);
        assert(contents(*dst) =~= s + item.wire());
        Ok(())
    }
}

/// What is read of a handshake that was sent is that handshake, with the reserved bytes zero.
pub proof fn law_handshake_round_trip(sent: Handshake, read: Handshake, after: Seq<u8>)
    requires
        read.fields() == (sent.wire() + after).take(HANDSHAKE_SIZE as int),
    ensures
        (sent.wire() + after).skip(HANDSHAKE_SIZE as int) == after,
        read.length == sent.length,
        read.protocol@ == sent.protocol@,
        read.reserved@ == Seq::new(8, |i: int| 0u8),
        read.info_hash@ == sent.info_hash@,
        read.peer_id@ == sent.peer_id@,
{
    let a = read.fields();
    let b = sent.wire();
    assert((b + after).take(68) =~= b);
    assert((b + after).skip(68) =~= after);
    assert(read.length == a[0]);
    assert(read.protocol@ =~= a.subrange(1, 20));
    assert(sent.protocol@ =~= b.subrange(1, 20));
    assert(read.reserved@ =~= a.subrange(20, 28));
    assert(b.subrange(20, 28) =~= Seq::new(8, |i: int| 0u8));
    assert(read.info_hash@ =~= a.subrange(28, 48));
    assert(sent.info_hash@ =~= b.subrange(28, 48));
    assert(read.peer_id@ =~= a.subrange(48, 68));
    assert(sent.peer_id@ =~= b.subrange(48, 68));
}

/// The name of the protocol is the one that all peers know.
pub proof fn law_protocol_name()
    ensures
        ascii_text(protocol_name()) == "BitTorrent protocol"@,
        protocol_name().len() == 19,
{
    reveal_strlit("BitTorrent protocol");
    assert(ascii_text(protocol_name()) =~= "BitTorrent protocol"@);
}

/// A handshake takes 68 bytes: the length of the name, the name, eight zeros, the info hash from
/// byte 28 on and the name of the peer from byte 48 on.
pub proof fn law_handshake_layout(h: Handshake)
    ensures
        h.wire().len() == 68,
        h.wire()[0] == h.length,
        h.wire().subrange(1, 20) == h.protocol@,
        forall|i: int| 20 <= i < 28 ==> h.wire()[i] == 0,
        h.wire().subrange(28, 48) == h.info_hash@,
        h.wire().subrange(48, 68) == h.peer_id@,
{
    assert(h.wire().subrange(1, 20) =~= h.protocol@);
    assert(h.wire().subrange(28, 48) =~= h.info_hash@);
    assert(h.wire().subrange(48, 68) =~= h.peer_id@);
}

/// Each field of a handshake that is read from `s` is what stands at its place there.
pub proof fn law_handshake_is_read_by_place(h: Handshake, s: Seq<u8>)
    requires
        s.len() >= HANDSHAKE_SIZE,
        h.fields() == s.take(HANDSHAKE_SIZE as int),
    ensures
        HANDSHAKE_SIZE == 68,
        h.length == s[0],
        h.protocol@ == s.subrange(1, 20),
        h.reserved@ == s.subrange(20, 28),
        h.info_hash@ == s.subrange(28, 48),
        h.peer_id@ == s.subrange(48, 68),
{
    let f = h.fields();
    assert(f[0] == s[0]);
    assert(h.protocol@ =~= f.subrange(1, 20));
    assert(h.reserved@ =~= f.subrange(20, 28));
    assert(h.info_hash@ =~= f.subrange(28, 48));
    assert(h.peer_id@ =~= f.subrange(48, 68));
    assert(f.subrange(1, 20) =~= s.subrange(1, 20));
    assert(f.subrange(20, 28) =~= s.subrange(20, 28));
    assert(f.subrange(28, 48) =~= s.subrange(28, 48));
    assert(f.subrange(48, 68) =~= s.subrange(48, 68));
}

} // verus!
