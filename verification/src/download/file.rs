//! Putting a download together from the pieces of several seeds.

use std::sync::Arc;

use vstd::prelude::*;

use super::bitfield::{accepts_bitfield, can_check, is_full, is_seed, owned, Bitfield};
use super::peer_msg::Message;
use super::piece::splice;
use crate::bencode::meta_info::{law_pieces_cover_the_download, Info};
use crate::tracker::peers::Address;

verus! {

/// How many seeds to download from.
pub const MAX_SEEDS: usize = 5;

/// What the download from a seed reports.
pub enum DownloaderMsg {
    Disconnect(Address),
    Piece { index: u32, length: u32, bytes: Vec<u8> },
}

/// A download.
pub struct File {
    pub id: String,
    pub torrent_info: Arc<Info>,
    pub peers: Vec<Address>,
    /// The bytes of the download, zero where nothing has arrived.
    pub bytes: Vec<u8>,
}

/// `bytes` with those from `begin` to `end` replaced.
pub open spec fn spliced(bytes: Seq<u8>, begin: int, end: int, new: Seq<u8>) -> Seq<u8> {
    bytes.take(begin) + new + bytes.skip(end)
}

impl File {
    /// A download of which nothing has arrived.
    pub fn new(id: String, torrent_info: Info, peers: Vec<Address>) -> (file: Self)
        requires
            torrent_info.download_type.spec_len() <= isize::MAX,
        ensures
            file.id == id,
            *file.torrent_info == torrent_info,
            file.peers == peers,
            file.bytes@ == Seq::new(torrent_info.download_type.spec_len(), |i: int| 0u8),
    {
        let len: usize = torrent_info.total_length() as usize;
        let bytes = vec![0u8; len];
        assert(bytes@ =~= Seq::new(torrent_info.download_type.spec_len(), |i: int| 0u8));
        File { id, torrent_info: Arc::new(torrent_info), peers, bytes }
    }

    /// Whether a piece lies within the download.
    pub open spec fn has_room(self, msg: DownloaderMsg) -> bool {
        match msg {
            DownloaderMsg::Piece { index, length, .. } => self.torrent_info.piece_begin(
                index as int,
            ) + length <= self.bytes@.len(),
            DownloaderMsg::Disconnect(_) => true,
        }
    }

    /// Whether [`File::handle`] accepts a report.
    pub fn accepts(&self, msg: &DownloaderMsg) -> (res: bool)
        ensures
            res == self.has_room(*msg),
    {
        match msg {
            DownloaderMsg::Piece { index, length, .. } => {
                let index: u64 = *index as u64;
                let piece_length: u64 = self.torrent_info.piece_length as u64;
                assert(0 <= index * piece_length <= 0xffff_ffff * 0xffff_ffff) by (nonlinear_arith)
                    requires
                        0 <= index <= 0xffff_ffff,
                        0 <= piece_length <= 0xffff_ffff,
                ;
                index * piece_length + *length as u64 <= self.bytes.len() as u64
            },
            DownloaderMsg::Disconnect(_) => true,
        }
    }

    /// Takes in what the download from a seed reports: a piece is put in its place.
    pub fn handle(&mut self, msg: DownloaderMsg)
        requires
            old(self).has_room(msg),
        ensures
            final(self).id == old(self).id,
            final(self).torrent_info == old(self).torrent_info,
            final(self).peers == old(self).peers,
            final(self).bytes@ == match msg {
                DownloaderMsg::Piece { index, length, bytes } => {
                    let begin = old(self).torrent_info.piece_begin(index as int);
                    spliced(old(self).bytes@, begin, begin + length, bytes@)
                },
                DownloaderMsg::Disconnect(_) => old(self).bytes@,
            },
    {
        match msg {
            DownloaderMsg::Piece { index, length, bytes } => {
                let len: usize = self.bytes.len();
                proof {
                    let a = index as int;
                    let b = self.torrent_info.piece_length as int;
                    assert(a * b >= 0) by (nonlinear_arith)
                        requires
                            a >= 0,
                            b >= 0,
                    ;
                    assert(a * b + length <= len);
                }
                let begin: usize = index as usize * self.torrent_info.piece_length as usize;
                let end: usize = begin + length as usize;
                splice(&mut self.bytes, begin, end, bytes);
            },
            DownloaderMsg::Disconnect(_) => {},
        }
    }

    /// Whether nothing remains to be downloaded.
    pub fn is_finished(own: &Bitfield) -> (res: bool)
        requires
            own.can_count(),
        ensures
            res == (own.num_remaining() == 0),
    {
        own.remaining() == 0
    }

    /// The bytes of the download.
    pub fn into_bytes(self) -> (bytes: Vec<u8>)
        ensures
            bytes@ == self.bytes@,
    {
        self.bytes
    }
}

/// A piece that has been put in its place stays there while other pieces arrive, in whatever
/// order.
pub proof fn law_pieces_stay(info: Info, contents: Seq<u8>, i: int, j: int, piece: Seq<u8>)
    requires
        info.piece_length > 0,
        contents.len() == info.download_type.spec_len(),
        0 <= i < info.spec_num_pieces(),
        0 <= j < info.spec_num_pieces(),
        piece.len() == info.piece_len(i),
    ensures
        ({
            let begin = info.piece_begin(i);
            let after = spliced(contents, begin, begin + info.piece_len(i), piece);
            let other = info.piece_begin(j);
            &&& after.len() == contents.len()
            &&& after.subrange(other, other + info.piece_len(j)) == if j == i {
                piece
            } else {
                contents.subrange(other, other + info.piece_len(j))
            }
        }),
{
    let begin = info.piece_begin(i);
    let end = begin + info.piece_len(i);
    let other = info.piece_begin(j);
    let other_end = other + info.piece_len(j);
    let after = spliced(contents, begin, end, piece);
    lemma_piece_in_bounds(info, i);
    lemma_piece_in_bounds(info, j);
    let part = info.piece_length as int;
    if i < j {
        assert((i + 1) * part <= j * part) by (nonlinear_arith)
            requires
                i + 1 <= j,
                part > 0,
        ;
    } else if j < i {
        assert((j + 1) * part <= i * part) by (nonlinear_arith)
            requires
                j + 1 <= i,
                part > 0,
        ;
    }
    if i == j {
        assert(after.subrange(other, other_end) =~= piece);
    } else {
        assert(after.subrange(other, other_end) =~= contents.subrange(other, other_end));
    }
}

proof fn lemma_piece_in_bounds(info: Info, i: int)
    requires
        info.piece_length > 0,
        0 <= i < info.spec_num_pieces(),
    ensures
        0 <= info.piece_begin(i),
        0 < info.piece_len(i),
        info.piece_begin(i) + info.piece_len(i) <= info.download_type.spec_len(),
        info.piece_begin(i) + info.piece_len(i) <= (i + 1) * info.piece_length as int,
{
    law_pieces_cover_the_download(&info, i);
    let part = info.piece_length as int;
    assert(0 <= i * part) by (nonlinear_arith)
        requires
            i >= 0,
            part > 0,
    ;
    assert((i + 1) * part == i * part + part) by (nonlinear_arith);
}

/// Why a peer is not one to download from.
#[derive(Copy, Clone, Debug, PartialEq, Eq)]
pub enum PeerError {
    /// The stream ended before the first message.
    Ended,
    /// The peer does not own every piece.
    NotSeed,
    /// The first message is not a bitfield.
    NotBitfield,
}

/// Whether the first message of a peer can be looked at.
pub open spec fn can_check_first(total_pieces: usize, msg: Option<Message>) -> bool {
    match msg {
        Some(Message::Bitfield(bytes)) => can_check(total_pieces, bytes@),
        _ => true,
    }
}

/// Whether [`check_is_seed`] accepts the first message of a peer.
pub fn accepts_first(total_pieces: usize, msg: &Option<Message>) -> (res: bool)
    ensures
        res == can_check_first(total_pieces, *msg),
{
    match msg {
        Some(Message::Bitfield(bytes)) => accepts_bitfield(total_pieces, bytes.as_slice()),
        _ => true,
    }
}

/// Decides by its first message, if there is one, whether a peer is one to download from.
pub fn check_is_seed(total_pieces: usize, msg: Option<Message>) -> (res: Result<(), PeerError>)
    requires
        can_check_first(total_pieces, msg),
    ensures
        match msg {
            None => res == Err::<(), _>(PeerError::Ended),
            Some(Message::Bitfield(bytes)) => {
                let seed = forall|i: int|
                    0 <= i < 8 * (bytes@.len() - 1) || 0 <= i < total_pieces ==> owned(bytes@, i);
                &&& res is Ok <==> is_full(total_pieces as int, bytes@)
                &&& res == if seed {
                    Ok(())
                } else {
                    Err(PeerError::NotSeed)
                }
            },
            Some(_) => res == Err::<(), _>(PeerError::NotBitfield),
        },
{
    match msg {
        None => Err(PeerError::Ended),
        Some(Message::Bitfield(bytes)) => {
            if is_seed(total_pieces, bytes.as_slice()) {
                Ok(())
            } else {
                Err(PeerError::NotSeed)
            }
        },
        Some(_) => Err(PeerError::NotBitfield),
    }
}

/// Goes through the peers, one after the other, until there are enough seeds.
pub struct SeedPicker {
    /// How many peers have been checked.
    pub checked: usize,
    /// How many of them are seeds.
    pub num_seeds: usize,
}

impl SeedPicker {
    /// Whether there are no more seeds than peers that have been checked, nor than are wanted.
    pub open spec fn valid(self) -> bool {
        self.num_seeds <= self.checked && self.num_seeds <= MAX_SEEDS
    }

    /// Which of `num_peers` peers to check next, if any.
    pub open spec fn next(self, num_peers: nat) -> Option<int> {
        if self.num_seeds < MAX_SEEDS && self.checked < num_peers {
            Some(self.checked as int)
        } else {
            None
        }
    }

    pub fn new() -> (res: Self)
        ensures
            res.checked == 0,
            res.num_seeds == 0,
            res.valid(),
    {
        SeedPicker { checked: 0, num_seeds: 0 }
    }

    /// The next peer to check; none, when all have been checked or there are enough seeds.
    pub fn next_peer(&self, peers: &Vec<Address>) -> (res: Option<Address>)
        requires
            self.valid(),
        ensures
            res == match self.next(peers@.len()) {
                Some(i) => Some(peers@[i]),
                None => None,
            },
    {
        if self.num_seeds == MAX_SEEDS || self.checked >= peers.len() {
            return None;
        }
        Some(peers[self.checked])
    }

    /// Notes whether the next peer is a seed. One that does not answer in time is none.
    pub fn peer_checked(&mut self, seed: bool)
        requires
            old(self).valid(),
            old(self).checked < usize::MAX,
            old(self).num_seeds < MAX_SEEDS,
        ensures
            final(self).checked == old(self).checked + 1,
            final(self).num_seeds == old(self).num_seeds + (if seed {
                1int
            } else {
                0
            }),
            final(self).valid(),
    {
        self.checked += 1;
        if seed {
            self.num_seeds += 1;
        }
    }
}

/// Bytes that are put in the place of as many others change nothing else.
pub proof fn law_splice_replaces(bytes: Seq<u8>, begin: int, end: int, new: Seq<u8>, i: int)
    requires
        0 <= begin <= end <= bytes.len(),
    ensures
        spliced(bytes, begin, end, new).len() == bytes.len() - (end - begin) + new.len(),
        0 <= i < begin ==> spliced(bytes, begin, end, new)[i] == bytes[i],
        0 <= i < new.len() ==> spliced(bytes, begin, end, new)[begin + i] == new[i],
        end <= i < bytes.len() ==> spliced(bytes, begin, end, new)[i - (end - begin) + new.len()]
            == bytes[i],
{
}

/// A report of a piece has room where the piece ends within the download.
pub proof fn law_pieces_have_room(
    file: File,
    index: u32,
    length: u32,
    bytes: Vec<u8>,
    address: Address,
)
    ensures
        file.has_room(DownloaderMsg::Piece { index, length, bytes }) <==> index
            * file.torrent_info.piece_length + length <= file.bytes@.len(),
        file.has_room(DownloaderMsg::Disconnect(address)),
{
}

/// The peers are checked one after the other, from the first to the last, until five of them are
/// seeds.
pub proof fn law_peers_are_checked_in_turn(picker: SeedPicker, num_peers: nat)
    ensures
        picker.next(num_peers) == if picker.num_seeds >= 5 || picker.checked >= num_peers {
            None
        } else {
            Some(picker.checked as int)
        },
{
}

/// Only a bitfield as the first message can be such that it cannot be looked at.
pub proof fn law_first_messages_can_be_looked_at(total_pieces: usize, msg: Option<Message>)
    ensures
        !(msg matches Some(Message::Bitfield(_))) ==> can_check_first(total_pieces, msg),
        msg matches Some(Message::Bitfield(bytes)) ==> can_check_first(total_pieces, msg)
            == can_check(total_pieces, bytes@),
{
}

} // verus!
