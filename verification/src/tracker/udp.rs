//! The protocol of trackers that are reached by datagrams.

use bytes::BytesMut;
use vstd::prelude::*;
use vstd::slice::slice_subrange;
use vstd::utf8::{decode_utf8, valid_utf8};

use super::address::{host_and_port, tracker_address, url_parts};
use super::peers::Address;
use crate::buffer::{
    self, contents, law_numbers_have_their_length, lemma_u32_at, lemma_u64_at, u16_at, u16_bytes,
    u32_at, u32_bytes, u64_at, u64_bytes,
};
use crate::text::{from_utf8_lossy, is_utf8};

verus! {

pub const PROTOCOL_ID: u64 = 0x41727101980;

pub const ACTION_CONNECT: u32 = 0;

pub const ACTION_ANNOUNCE: u32 = 1;

pub const ACTION_ERROR: u32 = 3;

/// The length of a request for a connection, and of its reply.
pub const CONNECT_SIZE: usize = 16;

/// The length of an announcement.
pub const ANNOUNCE_SIZE: usize = 98;

/// The length of the reply to an announcement, without the peers.
pub const ANNOUNCE_REPLY_SIZE: usize = 20;

/// How many nanoseconds a second has.
pub const SECOND: u64 = 1_000_000_000;

/// How long a connection is used.
pub const CONNECTION_SECONDS: u64 = 60;

/// How many seconds to wait for a reply at each attempt.
pub const RETRY_TIMEOUT: [u64; 3] = [15, 45, 105];

/// Why a tracker is of no use.
#[derive(Debug, PartialEq)]
pub enum TrackerError {
    /// The URL of the tracker cannot be parsed.
    InvalidUrl,
    /// The URL of the tracker has no host.
    MissingHost,
    /// The URL of the tracker has no port.
    MissingPort,
    /// Not all of the request has been sent.
    ShortSend,
    /// The reply is too short, or too long.
    InvalidLength,
    /// The reply is to another request.
    WrongTransaction,
    /// The tracker reports an error.
    Refused(String),
    /// The reply is to a request of another kind.
    UnexpectedAction { expected: u32, received: u32 },
    /// The time to announce again has not come.
    TooEarly,
    /// The bytes of the peers do not divide into addresses.
    InvalidPeers,
}

/// What we know of a tracker. Points in time are in nanoseconds.
pub struct UdpTracker {
    /// What is to be sent, or what has been received.
    pub buf: BytesMut,
    /// The number by which the tracker knows us.
    pub key: u32,
    /// The number of the connection.
    pub conn_id: u64,
    /// When the number of the connection was received.
    pub conn_id_ts: u64,
    /// When we may announce again.
    pub next_announce: u64,
}

/// A request for a connection.
pub open spec fn connect_bytes(tx_id: u32) -> Seq<u8> {
    u64_bytes(PROTOCOL_ID) + u32_bytes(ACTION_CONNECT) + u32_bytes(tx_id)
}

/// What is not the same in every announcement.
pub struct Announcement {
    pub info_hash: [u8; 20],
    pub peer_id: [u8; 20],
    pub downloaded: u64,
    pub left: u64,
    pub uploaded: u64,
    pub port: u16,
}

/// An announcement: no event, the address that it comes from, and as many peers as the tracker
/// likes.
pub open spec fn announce_bytes(conn_id: u64, tx_id: u32, key: u32, a: Announcement) -> Seq<u8> {
    u64_bytes(conn_id) + u32_bytes(ACTION_ANNOUNCE) + u32_bytes(tx_id) + a.info_hash@ + a.peer_id@
        + u64_bytes(a.downloaded) + u64_bytes(a.left) + u64_bytes(a.uploaded) + u32_bytes(0)
        + u32_bytes(0) + u32_bytes(key) + u32_bytes(u32::MAX) + u16_bytes(a.port)
}

/// Whether an error is the one for a reply with an action that is not the expected one. A reply
/// that reports an error carries its text.
pub open spec fn is_refusal(
    error: TrackerError,
    expected: u32,
    action: u32,
    text: Seq<u8>,
) -> bool {
    match error {
        TrackerError::Refused(message) => action == ACTION_ERROR && message@ == decode_utf8(text),
        TrackerError::UnexpectedAction { expected: wanted, received } => action != ACTION_ERROR
            && wanted == expected && received == action,
        _ => false,
    }
}

/// What is left of `text` after a reply with an action that is not the expected one.
pub open spec fn after_refusal(action: u32, text: Seq<u8>) -> Seq<u8> {
    if action == ACTION_ERROR {
        seq![]
    } else {
        text
    }
}

/// Whether a reply can be read: where it reports an error, it does so in UTF-8.
pub open spec fn legible(s: Seq<u8>, tx_id: u32) -> bool {
    u32_at(s, 0) == ACTION_ERROR && u32_at(s, 4) == tx_id ==> valid_utf8(s.skip(8))
}

/// Whether the reply to a request for a connection can be read.
pub open spec fn can_read_connect(s: Seq<u8>, tx_id: u32) -> bool {
    s.len() == CONNECT_SIZE ==> legible(s, tx_id)
}

/// Whether the reply to an announcement can be read, and every interval that it may hold leads to
/// a point in time.
pub open spec fn can_read_announce(s: Seq<u8>, tx_id: u32, now: u64) -> bool {
    &&& s.len() >= ANNOUNCE_REPLY_SIZE ==> legible(s, tx_id)
    &&& now + u32::MAX * SECOND <= u64::MAX
}

/// The address in the six bytes of `s` from `at` on.
pub open spec fn is_address_at(address: Address, s: Seq<u8>, at: int) -> bool {
    address.ip@ == s.subrange(at, at + 4) && address.port == u16_at(s, at + 4)
}

/// Calls `rand::random`. The number is left to chance, so nothing is said of it.
#[verifier::external_body]
fn random_u32() -> u32 {
    rand::random()
}

/// How many seconds to wait for a reply at each attempt; nothing, after the last attempt.
pub fn retry_timeout(attempt: usize) -> (seconds: Option<u64>)
    ensures
        seconds == if attempt < RETRY_TIMEOUT@.len() {
            Some(RETRY_TIMEOUT@[attempt as int])
        } else {
            None
        },
{
    if attempt < RETRY_TIMEOUT.len() {
        Some(RETRY_TIMEOUT[attempt])
    } else {
        None
    }
}

impl UdpTracker {
    /// A tracker that we have no connection with.
    pub fn new(key: u32, now: u64) -> (tracker: Self)
        ensures
            contents(tracker.buf) == Seq::<u8>::empty(),
            tracker.key == key,
            tracker.conn_id == 0,
            tracker.conn_id_ts == now,
            tracker.next_announce == now,
    {
        Self {
            buf: buffer::with_capacity(512),
            key,
            conn_id: 0,
            conn_id_ts: now,
            next_announce: now,
        }
    }

    /// The address of the tracker with a URL, and the tracker, which knows us by a random number.
    pub fn connect(url: &str, now: u64) -> (res: Result<(String, Self), TrackerError>)
        ensures
            match url_parts(url@) {
                None => res == Err::<(String, Self), _>(TrackerError::InvalidUrl),
                Some((None, _)) => res == Err::<(String, Self), _>(TrackerError::MissingHost),
                Some((Some(_), None)) => res == Err::<(String, Self), _>(
                    TrackerError::MissingPort,
                ),
                Some((Some(host), Some(port))) => match res {
                    Ok((address, tracker)) => {
                        &&& address@ == host_and_port(host, port)
                        &&& contents(tracker.buf) == Seq::<u8>::empty()
                        &&& tracker.conn_id == 0
                        &&& tracker.conn_id_ts == now
                        &&& tracker.next_announce == now
                    },
                    Err(_) => false,
                },
            },
    {
        let key: u32 = random_u32();
        match tracker_address(url) {
            Ok(address) => Ok((address, Self::new(key, now))),
            Err(error) => Err(error),
        }
    }

    /// Writes a request for a connection with a random transaction number to the buffer.
    pub fn start_connect(&mut self) -> (tx_id: u32)
        ensures
            contents(final(self).buf) == connect_bytes(tx_id),
            contents(final(self).buf).len() == CONNECT_SIZE,
            final(self).same_but_buf(*old(self)),
    {
        let tx_id: u32 = random_u32();
        self.connect_request(tx_id);
        tx_id
    }

    /// Whether the time to announce has come.
    pub fn may_announce(&self, now: u64) -> (res: Result<(), TrackerError>)
        ensures
            res == if now < self.next_announce {
                Err(TrackerError::TooEarly)
            } else {
                Ok(())
            },
    {
        if now < self.next_announce {
            return Err(TrackerError::TooEarly);
        }
        Ok(())
    }

    /// Whether the connection is too old to be used.
    pub fn needs_connection(&self, now: u64) -> (res: bool)
        ensures
            res == (now - self.conn_id_ts > CONNECTION_SECONDS * SECOND),
    {
        now > self.conn_id_ts && now - self.conn_id_ts > CONNECTION_SECONDS * SECOND
    }

    /// Writes an announcement with a random transaction number to the buffer.
    pub fn announce(&mut self, announcement: &Announcement) -> (tx_id: u32)
        ensures
            contents(final(self).buf) == announce_bytes(
                old(self).conn_id,
                tx_id,
                old(self).key,
                *announcement,
            ),
            contents(final(self).buf).len() == ANNOUNCE_SIZE,
            final(self).same_but_buf(*old(self)),
    {
        let tx_id: u32 = random_u32();
        self.announce_request(tx_id, announcement);
        tx_id
    }

    /// Whether all but the buffer is what it was.
    pub open spec fn same_but_buf(self, before: Self) -> bool {
        &&& self.key == before.key
        &&& self.conn_id == before.conn_id
        &&& self.conn_id_ts == before.conn_id_ts
        &&& self.next_announce == before.next_announce
    }

    /// Writes a request for a connection to the buffer.
    pub fn connect_request(&mut self, tx_id: u32)
        ensures
            contents(final(self).buf) == connect_bytes(tx_id),
            contents(final(self).buf).len() == CONNECT_SIZE,
            final(self).same_but_buf(*old(self)),
    {
        buffer::clear(&mut self.buf);
        buffer::put_u64(&mut self.buf, PROTOCOL_ID);
        buffer::put_u32(&mut self.buf, ACTION_CONNECT);
        buffer::put_u32(&mut self.buf, tx_id);
        assert(contents(self.buf) =~= connect_bytes(tx_id));
    }

    /// Writes an announcement to the buffer.
    pub fn announce_request(&mut self, tx_id: u32, announcement: &Announcement)
        ensures
            contents(final(self).buf) == announce_bytes(
                old(self).conn_id,
                tx_id,
                old(self).key,
                *announcement,
            ),
            contents(final(self).buf).len() == ANNOUNCE_SIZE,
            final(self).same_but_buf(*old(self)),
    {
        buffer::clear(&mut self.buf);
        buffer::put_u64(&mut self.buf, self.conn_id);
        buffer::put_u32(&mut self.buf, ACTION_ANNOUNCE);
        buffer::put_u32(&mut self.buf, tx_id);
        buffer::put(&mut self.buf, &announcement.info_hash);
        buffer::put(&mut self.buf, &announcement.peer_id);
        buffer::put_u64(&mut self.buf, announcement.downloaded);
        buffer::put_u64(&mut self.buf, announcement.left);
        buffer::put_u64(&mut self.buf, announcement.uploaded);
        buffer::put_u32(&mut self.buf, 0);
        buffer::put_u32(&mut self.buf, 0);
        buffer::put_u32(&mut self.buf, self.key);
        buffer::put_i32(&mut self.buf, -1);
        buffer::put_u16(&mut self.buf, announcement.port);
        assert(contents(self.buf) =~= announce_bytes(
            self.conn_id,
            tx_id,
            self.key,
            *announcement,
        ));
    }

    /// Notes how much of the request has been sent, and makes room for the reply where it was all.
    pub fn request_sent(&mut self, n: usize) -> (res: Result<(), TrackerError>)
        ensures
            final(self).same_but_buf(*old(self)),
            match res {
                Ok(()) => n == contents(old(self).buf).len() && contents(final(self).buf) == Seq::<
                    u8,
                >::empty(),
                Err(error) => n != contents(old(self).buf).len() && error == TrackerError::ShortSend
                    && contents(final(self).buf) == contents(old(self).buf),
            },
    {
        if buffer::len(&self.buf) != n {
            return Err(TrackerError::ShortSend);
        }
        buffer::clear(&mut self.buf);
        Ok(())
    }

    /// Whether a reply of at least eight bytes can be read.
    fn is_legible(&self, tx_id: u32) -> (res: bool)
        requires
            contents(self.buf).len() >= 8,
        ensures
            res == legible(contents(self.buf), tx_id),
    {
        let bytes = buffer::as_slice(&self.buf);
        let action: u32 = buffer::read_u32(bytes, 0);
        let reply_to: u32 = buffer::read_u32(bytes, 4);
        if action != ACTION_ERROR || reply_to != tx_id {
            return true;
        }
        let text = slice_subrange(bytes, 8, bytes.len());
        assert(text@ =~= bytes@.skip(8));
        is_utf8(text)
    }

    /// Whether [`UdpTracker::connect_reply`] accepts what has been received.
    pub fn accepts_connect_reply(&self, tx_id: u32) -> (res: bool)
        ensures
            res == can_read_connect(contents(self.buf), tx_id),
    {
        buffer::len(&self.buf) != CONNECT_SIZE || self.is_legible(tx_id)
    }

    /// Whether [`UdpTracker::announce_reply`] accepts what has been received.
    pub fn accepts_announce_reply(&self, tx_id: u32, now: u64) -> (res: bool)
        ensures
            res == can_read_announce(contents(self.buf), tx_id, now),
    {
        now <= u64::MAX - u32::MAX as u64 * SECOND && (buffer::len(&self.buf)
            < ANNOUNCE_REPLY_SIZE || self.is_legible(tx_id))
    }

    /// Checks the action of a reply, of which the buffer holds what follows.
    fn validate_action(&mut self, expected: u32, action: u32) -> (res: Result<(), TrackerError>)
        requires
            action == ACTION_ERROR ==> valid_utf8(contents(old(self).buf)),
        ensures
            final(self).same_but_buf(*old(self)),
            match res {
                Ok(()) => action == expected && contents(final(self).buf) == contents(
                    old(self).buf,
                ),
                Err(error) => {
                    &&& action != expected
                    &&& is_refusal(error, expected, action, contents(old(self).buf))
                    &&& contents(final(self).buf) == after_refusal(action, contents(old(self).buf))
                },
            },
    {
        if action == expected {
            return Ok(());
        }
        if action == ACTION_ERROR {
            let mut msg: Vec<u8> = vec![0; buffer::len(&self.buf)];
            buffer::copy_to_slice(&mut self.buf, &mut msg);
            assert(msg@ =~= contents(old(self).buf));
            assert(contents(self.buf) =~= seq![]);
            return Err(TrackerError::Refused(from_utf8_lossy(msg.as_slice())));
        }
        Err(TrackerError::UnexpectedAction { expected, received: action })
    }

    /// Whether this is what `before` becomes when the reply to a request for a connection is read,
    /// and `res` is what comes of it.
    pub open spec fn is_after_connect_reply(
        self,
        before: Self,
        tx_id: u32,
        now: u64,
        res: Result<(), TrackerError>,
    ) -> bool {
        let s = contents(before.buf);
        let rest = contents(self.buf);
        &&& self.key == before.key
        &&& self.next_announce == before.next_announce
        &&& match res {
            Ok(()) => {
                &&& s.len() == CONNECT_SIZE
                &&& u32_at(s, 0) == ACTION_CONNECT
                &&& u32_at(s, 4) == tx_id
                &&& self.conn_id == u64_at(s, 8)
                &&& self.conn_id_ts == now
                &&& rest == Seq::<u8>::empty()
            },
            Err(error) => {
                &&& self.conn_id == before.conn_id
                &&& self.conn_id_ts == before.conn_id_ts
                &&& if s.len() != CONNECT_SIZE {
                    error == TrackerError::InvalidLength && rest == s
                } else if u32_at(s, 4) != tx_id {
                    error == TrackerError::WrongTransaction && rest == s.skip(8)
                } else {
                    &&& u32_at(s, 0) != ACTION_CONNECT
                    &&& is_refusal(error, ACTION_CONNECT, u32_at(s, 0), s.skip(8))
                    &&& rest == after_refusal(u32_at(s, 0), s.skip(8))
                }
            },
        }
    }

    /// Reads the reply to a request for a connection.
    pub fn connect_reply(&mut self, tx_id: u32, now: u64) -> (res: Result<(), TrackerError>)
        requires
            can_read_connect(contents(old(self).buf), tx_id),
        ensures
            final(self).is_after_connect_reply(*old(self), tx_id, now, res),
    {
        let ghost s = contents(self.buf);
        if buffer::len(&self.buf) != CONNECT_SIZE {
            return Err(TrackerError::InvalidLength);
        }
        let action: u32 = buffer::get_u32(&mut self.buf);
        let reply_to: u32 = buffer::get_u32(&mut self.buf);
        assert(contents(self.buf) =~= s.skip(8));
        if reply_to != tx_id {
            return Err(TrackerError::WrongTransaction);
        }
        match self.validate_action(ACTION_CONNECT, action) {
            Ok(()) => {},
            Err(error) => return Err(error),
        }
        self.conn_id = buffer::get_u64(&mut self.buf);
        self.conn_id_ts = now;
        assert(contents(self.buf) =~= seq![]);
        Ok(())
    }

    /// Whether this is what `before` becomes when the reply to an announcement is read, and `res`
    /// is what comes of it. The next announcement is put off even where the peers cannot be read.
    pub open spec fn is_after_announce_reply(
        self,
        before: Self,
        tx_id: u32,
        now: u64,
        res: Result<(Vec<Address>, u32), TrackerError>,
    ) -> bool {
        let s = contents(before.buf);
        let rest = contents(self.buf);
        let accepted = s.len() >= ANNOUNCE_REPLY_SIZE && u32_at(s, 4) == tx_id && u32_at(
            s,
            0,
        ) == ACTION_ANNOUNCE;
        &&& self.key == before.key
        &&& self.conn_id == before.conn_id
        &&& self.conn_id_ts == before.conn_id_ts
        &&& self.next_announce == if accepted {
            now + u32_at(s, 8) * SECOND
        } else {
            before.next_announce as int
        }
        &&& match res {
            Ok((peers, seeders)) => {
                &&& accepted
                &&& seeders == u32_at(s, 16)
                &&& s.len() == ANNOUNCE_REPLY_SIZE + 6 * peers@.len()
                &&& forall|i: int|
                    0 <= i < peers@.len() ==> is_address_at(
                        #[trigger] peers@[i],
                        s,
                        ANNOUNCE_REPLY_SIZE + 6 * i,
                    )
                &&& rest == Seq::<u8>::empty()
            },
            Err(error) => if s.len() < ANNOUNCE_REPLY_SIZE {
                error == TrackerError::InvalidLength && rest == s
            } else if u32_at(s, 4) != tx_id {
                error == TrackerError::WrongTransaction && rest == s.skip(8)
            } else if u32_at(s, 0) != ACTION_ANNOUNCE {
                &&& is_refusal(error, ACTION_ANNOUNCE, u32_at(s, 0), s.skip(8))
                &&& rest == after_refusal(u32_at(s, 0), s.skip(8))
            } else {
                &&& error == TrackerError::InvalidPeers
                &&& (s.len() - ANNOUNCE_REPLY_SIZE) % 6 != 0
                &&& rest == s.skip(ANNOUNCE_REPLY_SIZE as int)
            },
        }
    }

    /// Reads the reply to an announcement: the addresses of peers, and how many of those that the
    /// tracker knows are seeds.
    pub fn announce_reply(&mut self, tx_id: u32, now: u64) -> (res: Result<
        (Vec<Address>, u32),
        TrackerError,
    >)
        requires
            can_read_announce(contents(old(self).buf), tx_id, now),
        ensures
            final(self).is_after_announce_reply(*old(self), tx_id, now, res),
    {
        let ghost s = contents(self.buf);
        if buffer::len(&self.buf) < ANNOUNCE_REPLY_SIZE {
            return Err(TrackerError::InvalidLength);
        }
        let action: u32 = buffer::get_u32(&mut self.buf);
        let reply_to: u32 = buffer::get_u32(&mut self.buf);
        assert(contents(self.buf) =~= s.skip(8));
        if reply_to != tx_id {
            return Err(TrackerError::WrongTransaction);
        }
        match self.validate_action(ACTION_ANNOUNCE, action) {
            Ok(()) => {},
            Err(error) => return Err(error),
        }
        let interval: u32 = buffer::get_u32(&mut self.buf);
        self.next_announce = now + interval as u64 * SECOND;
        let _leechers: u32 = buffer::get_u32(&mut self.buf);
        let seeders: u32 = buffer::get_u32(&mut self.buf);
        assert(contents(self.buf) =~= s.skip(20));
        if buffer::len(&self.buf) % 6 != 0 {
            return Err(TrackerError::InvalidPeers);
        }
        let num_peers: usize = buffer::len(&self.buf) / 6;
        let mut peers: Vec<Address> = Vec::new();
        while peers.len() < num_peers
            invariant
                peers@.len() <= num_peers,
                s.len() == ANNOUNCE_REPLY_SIZE + 6 * num_peers,
                contents(self.buf) =~= s.skip(ANNOUNCE_REPLY_SIZE + 6 * peers@.len()),
                forall|i: int|
                    0 <= i < peers@.len() ==> is_address_at(
                        #[trigger] peers@[i],
                        s,
                        ANNOUNCE_REPLY_SIZE + 6 * i,
                    ),
                self.key == old(self).key,
                self.conn_id == old(self).conn_id,
                self.conn_id_ts == old(self).conn_id_ts,
                self.next_announce == now + u32_at(s, 8) * SECOND,
            decreases num_peers - peers@.len(),
        {
            let ghost at = ANNOUNCE_REPLY_SIZE + 6 * peers@.len();
            let mut ip: [u8; 4] = [0; 4];
            buffer::copy_to_slice(&mut self.buf, &mut ip);
            assert(ip@ =~= s.subrange(at, at + 4));
            let port: u16 = buffer::get_u16(&mut self.buf);
            peers.push(Address { ip, port });
        }
        assert(contents(self.buf) =~= seq![]);
        Ok((peers, seeders))
    }
}

/// Each field of a request for a connection stands at its place: the number of the protocol, the
/// action and the transaction.
pub proof fn law_connect_layout(tx_id: u32)
    ensures
        connect_bytes(tx_id).len() == 16,
        u64_at(connect_bytes(tx_id), 0) == 0x41727101980,
        u32_at(connect_bytes(tx_id), 8) == 0,
        u32_at(connect_bytes(tx_id), 12) == tx_id,
{
    let s = connect_bytes(tx_id);
    assert(s.subrange(0, 8) =~= u64_bytes(PROTOCOL_ID));
    lemma_u64_at(s, 0, PROTOCOL_ID);
    lemma_u32_at(s, 8, ACTION_CONNECT);
    lemma_u32_at(s, 12, tx_id);
}

/// Each field of an announcement stands at its place and can be read back from there.
pub proof fn law_announce_layout(conn_id: u64, tx_id: u32, key: u32, a: Announcement)
    ensures
        ({
            let s = announce_bytes(conn_id, tx_id, key, a);
            &&& s.len() == 98
            &&& u64_at(s, 0) == conn_id
            &&& u32_at(s, 8) == 1
            &&& u32_at(s, 12) == tx_id
            &&& s.subrange(16, 36) == a.info_hash@
            &&& s.subrange(36, 56) == a.peer_id@
            &&& u64_at(s, 56) == a.downloaded
            &&& u64_at(s, 64) == a.left
            &&& u64_at(s, 72) == a.uploaded
            &&& u32_at(s, 80) == 0
            &&& u32_at(s, 84) == 0
            &&& u32_at(s, 88) == key
            &&& u32_at(s, 92) == 0xffff_ffff
            &&& u16_at(s, 96) == a.port
        }),
{
    let s = announce_bytes(conn_id, tx_id, key, a);
    law_numbers_have_their_length(a.port, ACTION_ANNOUNCE, conn_id);
    law_numbers_have_their_length(a.port, tx_id, a.downloaded);
    law_numbers_have_their_length(a.port, key, a.left);
    law_numbers_have_their_length(a.port, u32::MAX, a.uploaded);
    law_numbers_have_their_length(a.port, 0, 0);
    lemma_thirteen_parts(
        seq![
            u64_bytes(conn_id),
            u32_bytes(ACTION_ANNOUNCE),
            u32_bytes(tx_id),
            a.info_hash@,
            a.peer_id@,
            u64_bytes(a.downloaded),
            u64_bytes(a.left),
            u64_bytes(a.uploaded),
            u32_bytes(0),
            u32_bytes(0),
            u32_bytes(key),
            u32_bytes(u32::MAX),
            u16_bytes(a.port),
        ],
        s,
    );
    lemma_u64_at(s, 0, conn_id);
    lemma_u32_there(s, 8, ACTION_ANNOUNCE);
    lemma_u32_there(s, 12, tx_id);
    lemma_u64_at(s, 56, a.downloaded);
    lemma_u64_at(s, 64, a.left);
    lemma_u64_at(s, 72, a.uploaded);
    lemma_u32_there(s, 80, 0);
    lemma_u32_there(s, 84, 0);
    lemma_u32_there(s, 88, key);
    lemma_u32_there(s, 92, u32::MAX);
    lemma_u16_there(s, 96, a.port);
}

/// Where thirteen parts of certain lengths stand, when they follow each other.
proof fn lemma_thirteen_parts(p: Seq<Seq<u8>>, s: Seq<u8>)
    requires
        p.len() == 13,
        p[0].len() == 8,
        p[1].len() == 4,
        p[2].len() == 4,
        p[3].len() == 20,
        p[4].len() == 20,
        p[5].len() == 8,
        p[6].len() == 8,
        p[7].len() == 8,
        p[8].len() == 4,
        p[9].len() == 4,
        p[10].len() == 4,
        p[11].len() == 4,
        p[12].len() == 2,
        s == p[0] + p[1] + p[2] + p[3] + p[4] + p[5] + p[6] + p[7] + p[8] + p[9] + p[10] + p[11]
            + p[12],
    ensures
        s.len() == 98,
        s.subrange(0, 8) == p[0],
        s.subrange(8, 12) == p[1],
        s.subrange(12, 16) == p[2],
        s.subrange(16, 36) == p[3],
        s.subrange(36, 56) == p[4],
        s.subrange(56, 64) == p[5],
        s.subrange(64, 72) == p[6],
        s.subrange(72, 80) == p[7],
        s.subrange(80, 84) == p[8],
        s.subrange(84, 88) == p[9],
        s.subrange(88, 92) == p[10],
        s.subrange(92, 96) == p[11],
        s.subrange(96, 98) == p[12],
{
    let q0 = p[0];
    let q1 = q0 + p[1];
    let q2 = q1 + p[2];
    let q3 = q2 + p[3];
    let q4 = q3 + p[4];
    let q5 = q4 + p[5];
    let q6 = q5 + p[6];
    let q7 = q6 + p[7];
    let q8 = q7 + p[8];
    let q9 = q8 + p[9];
    let q10 = q9 + p[10];
    let q11 = q10 + p[11];
    let q12 = q11 + p[12];
    assert(is_start(q12, s)) by {
        assert(s.take(98) =~= s);
    }
    lemma_prefixes(s, q11, p[12]);
    lemma_part(s, q11, p[12], q12);
    lemma_prefixes(s, q10, p[11]);
    lemma_part(s, q10, p[11], q11);
    lemma_prefixes(s, q9, p[10]);
    lemma_part(s, q9, p[10], q10);
    lemma_prefixes(s, q8, p[9]);
    lemma_part(s, q8, p[9], q9);
    lemma_prefixes(s, q7, p[8]);
    lemma_part(s, q7, p[8], q8);
    lemma_prefixes(s, q6, p[7]);
    lemma_part(s, q6, p[7], q7);
    lemma_prefixes(s, q5, p[6]);
    lemma_part(s, q5, p[6], q6);
    lemma_prefixes(s, q4, p[5]);
    lemma_part(s, q4, p[5], q5);
    lemma_prefixes(s, q3, p[4]);
    lemma_part(s, q3, p[4], q4);
    lemma_prefixes(s, q2, p[3]);
    lemma_part(s, q2, p[3], q3);
    lemma_prefixes(s, q1, p[2]);
    lemma_part(s, q1, p[2], q2);
    lemma_prefixes(s, q0, p[1]);
    lemma_part(s, q0, p[1], q1);
    assert(s.subrange(0, 8) =~= s.take(8));
}

/// Where the two bytes of a number stand, the number is read.
proof fn lemma_u16_there(s: Seq<u8>, at: int, n: u16)
    requires
        0 <= at,
        at + 2 <= s.len(),
        s.subrange(at, at + 2) == u16_bytes(n),
    ensures
        u16_at(s, at) == n,
{
    assert(s.subrange(at, at + 2)[0] == s[at]);
    assert(s.subrange(at, at + 2)[1] == s[at + 1]);
}

/// What begins with a sequence that is made of two parts begins with the first of them.
proof fn lemma_prefixes(s: Seq<u8>, before: Seq<u8>, part: Seq<u8>)
    ensures
        is_start(before + part, s) ==> is_start(before, s),
{
    if is_start(before + part, s) {
        assert(before =~= s.take(before.len() as int)) by {
            assert forall|i: int| 0 <= i < before.len() implies before[i] == s[i] by {
                assert((before + part)[i] == s.take((before + part).len() as int)[i]);
            }
        }
    }
}

/// Whether `s` begins with `t`.
spec fn is_start(t: Seq<u8>, s: Seq<u8>) -> bool {
    t.len() <= s.len() && t == s.take(t.len() as int)
}

/// Where `s` begins with two parts, the second stands behind the first.
proof fn lemma_part(s: Seq<u8>, before: Seq<u8>, part: Seq<u8>, both: Seq<u8>)
    requires
        both == before + part,
    ensures
        is_start(both, s) ==> s.subrange(
            before.len() as int,
            (before.len() + part.len()) as int,
        ) == part,
{
    if is_start(both, s) {
        assert forall|i: int| 0 <= i < part.len() implies s[before.len() + i] == part[i] by {
            assert(both[before.len() + i] == s.take(both.len() as int)[before.len() + i]);
        }
        assert(s.subrange(before.len() as int, (before.len() + part.len()) as int) =~= part);
    }
}

/// Where the four bytes of a number stand, the number is read.
proof fn lemma_u32_there(s: Seq<u8>, at: int, n: u32)
    requires
        0 <= at,
        at + 4 <= s.len(),
        s.subrange(at, at + 4) == u32_bytes(n),
    ensures
        u32_at(s, at) == n,
{
    assert(s.subrange(at, at + 4)[0] == s[at]);
    assert(s.subrange(at, at + 4)[1] == s[at + 1]);
    assert(s.subrange(at, at + 4)[2] == s[at + 2]);
    assert(s.subrange(at, at + 4)[3] == s[at + 3]);
    lemma_u32_at(s, at, n);
}

/// The waits of the protocol, in seconds, and the number of nanoseconds in each.
pub proof fn law_waits()
    ensures
        RETRY_TIMEOUT@ == seq![15u64, 45, 105],
        CONNECTION_SECONDS == 60,
        SECOND == 1_000_000_000,
{
    assert(RETRY_TIMEOUT@ =~= seq![15u64, 45, 105]);
}

/// A connection is taken up exactly from a reply of sixteen bytes to the transaction, with the
/// action of a request for a connection. Every other reply leaves the connection as it was, and is
/// answered by what is wrong with it.
pub proof fn law_connection_is_taken_up(
    after: UdpTracker,
    before: UdpTracker,
    tx_id: u32,
    now: u64,
    res: Result<(), TrackerError>,
)
    requires
        after.is_after_connect_reply(before, tx_id, now, res),
    ensures
        after.key == before.key,
        after.next_announce == before.next_announce,
        ({
            let s = contents(before.buf);
            &&& res is Ok <==> s.len() == 16 && u32_at(s, 0) == 0 && u32_at(s, 4) == tx_id
            &&& res is Ok ==> after.conn_id == u64_at(s, 8) && after.conn_id_ts == now
            &&& res is Err ==> after.conn_id == before.conn_id && after.conn_id_ts
                == before.conn_id_ts
            &&& s.len() != 16 ==> res == Err::<(), _>(TrackerError::InvalidLength)
            &&& s.len() == 16 && u32_at(s, 4) != tx_id ==> res == Err::<(), _>(
                TrackerError::WrongTransaction,
            )
            &&& s.len() == 16 && u32_at(s, 4) == tx_id && u32_at(s, 0) == 3 ==> match res {
                Err(TrackerError::Refused(message)) => message@ == decode_utf8(s.skip(8)),
                _ => false,
            }
            &&& s.len() == 16 && u32_at(s, 4) == tx_id && u32_at(s, 0) != 0 && u32_at(s, 0) != 3
                ==> res == Err::<(), _>(
                TrackerError::UnexpectedAction { expected: 0, received: u32_at(s, 0) },
            )
        }),
{
}

/// Peers are taken exactly from a reply to the transaction with the action of an announcement:
/// twenty bytes, with the number of seeds in the last four, and six bytes for each peer, four for
/// its address and two for its port. From then on, announcements wait as long as the reply says.
pub proof fn law_announcement_is_answered(
    after: UdpTracker,
    before: UdpTracker,
    tx_id: u32,
    now: u64,
    res: Result<(Vec<Address>, u32), TrackerError>,
)
    requires
        after.is_after_announce_reply(before, tx_id, now, res),
    ensures
        after.key == before.key,
        after.conn_id == before.conn_id,
        after.conn_id_ts == before.conn_id_ts,
        ({
            let s = contents(before.buf);
            let accepted = s.len() >= 20 && u32_at(s, 0) == 1 && u32_at(s, 4) == tx_id;
            &&& res is Ok <==> accepted && (s.len() - 20) % 6 == 0
            &&& accepted ==> after.next_announce == now + u32_at(s, 8) * 1_000_000_000
            &&& !accepted ==> after.next_announce == before.next_announce
            &&& match res {
                Ok((peers, seeders)) => {
                    &&& seeders == u32_at(s, 16)
                    &&& s.len() == 20 + 6 * peers@.len()
                    &&& forall|i: int, j: int|
                        0 <= i < peers@.len() && 0 <= j < 4 ==> (#[trigger] peers@[i].ip@[j])
                            == s[20 + 6 * i + j]
                    &&& forall|i: int|
                        0 <= i < peers@.len() ==> (#[trigger] peers@[i]).port as int
                            == s[24 + 6 * i] * 0x100 + s[25 + 6 * i]
                },
                Err(error) => {
                    &&& accepted ==> error == TrackerError::InvalidPeers
                    &&& s.len() < 20 ==> error == TrackerError::InvalidLength
                    &&& s.len() >= 20 && u32_at(s, 4) != tx_id ==> error
                        == TrackerError::WrongTransaction
                    &&& s.len() >= 20 && u32_at(s, 4) == tx_id && u32_at(s, 0) == 3 ==> match (
                    error) {
                        TrackerError::Refused(message) => message@ == decode_utf8(s.skip(8)),
                        _ => false,
                    }
                    &&& s.len() >= 20 && u32_at(s, 4) == tx_id && u32_at(s, 0) != 1 && u32_at(s, 0)
                        != 3 ==> error == (TrackerError::UnexpectedAction {
                        expected: 1,
                        received: u32_at(s, 0),
                    })
                },
            }
        }),
{
    if let Ok((peers, _)) = res {
        let s = contents(before.buf);
        assert forall|i: int, j: int| 0 <= i < peers@.len() && 0 <= j < 4 implies (
        #[trigger] peers@[i].ip@[j]) == s[20 + 6 * i + j] by {
            assert(is_address_at(peers@[i], s, 20 + 6 * i));
            assert(s.subrange(20 + 6 * i, 20 + 6 * i + 4)[j] == s[20 + 6 * i + j]);
        }
        assert forall|i: int| 0 <= i < peers@.len() implies (#[trigger] peers@[i]).port as int == s[
        24 + 6 * i] * 0x100 + s[25 + 6 * i] by {
            assert(is_address_at(peers@[i], s, 20 + 6 * i));
        }
    }
}

/// Only an error to the transaction that is not in UTF-8 cannot be read, nor anything at the end of
/// time.
pub proof fn law_replies_can_be_read(s: Seq<u8>, tx_id: u32, now: u64)
    ensures
        can_read_connect(s, tx_id) <==> !(s.len() == 16 && u32_at(s, 0) == 3 && u32_at(s, 4)
            == tx_id && !valid_utf8(s.skip(8))),
        now <= u64::MAX - 0xffff_ffff * 1_000_000_000 ==> (can_read_announce(s, tx_id, now) <==> !(
        s.len() >= 20 && u32_at(s, 0) == 3 && u32_at(s, 4) == tx_id && !valid_utf8(s.skip(8)))),
{
}

} // verus!
