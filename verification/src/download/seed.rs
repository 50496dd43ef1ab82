//! What to ask of a seed and what to make of its messages.

use std::collections::HashMap;
use std::sync::Arc;

use vstd::pervasive::unreached;
use vstd::prelude::*;
use vstd::std_specs::iter::IteratorSpec;

use super::bitfield::Bitfield;
use super::laws::law_plan_is_in_turn;
use super::peer_msg::Message;
use super::piece::{
    num_blocks, num_requests, request_blocks, validate_piece, BlockDownload, PieceDownload,
    BLOCK_SIZE, MAX_INFLIGHT_PER_PEER,
};
use crate::bencode::meta_info::{lemma_parts, Info};
use crate::digest::sha1_digest;

verus! {

broadcast use vstd::std_specs::hash::group_hash_axioms;

/// The download from one seed.
pub struct SeedDownloader {
    pub torrent_info: Arc<Info>,
    pub choked_us: bool,
    /// How many requests have not been answered.
    pub inflight: u8,
    /// The pieces that are being downloaded, by their index.
    pub pending_pieces: HashMap<u32, PieceDownload>,
    /// The blocks that have been asked for, each of them once. A block that is not among them has
    /// not been asked for.
    pub pending_blocks: Vec<BlockDownload>,
}

/// Why a message of a seed is not accepted.
#[derive(Copy, Clone, Debug, PartialEq, Eq)]
pub enum SeedError {
    /// A bitfield comes only as the first message.
    BitfieldOutOfOrder,
    /// The block has not been asked for.
    UnrequestedBlock,
    /// No piece that is being downloaded has the block.
    UnrequestedPiece { index: u32 },
    /// The piece is complete, but its digest is not the right one.
    InvalidPiece,
}

/// What to do after a message.
pub enum Reaction {
    Nothing,
    /// Ask for more blocks.
    RequestPieces,
    /// Hand on a piece, and then ask for more blocks.
    Deliver { index: u32, length: u32, bytes: Vec<u8> },
}

/// How many of `blocks` belong to a piece.
pub open spec fn count(blocks: Seq<BlockDownload>, index: u32) -> nat
    decreases blocks.len(),
{
    if blocks.len() == 0 {
        0
    } else {
        count(blocks.drop_last(), index) + (if blocks.last().piece_index == index {
            1nat
        } else {
            0nat
        })
    }
}

pub(crate) proof fn lemma_count_remove(blocks: Seq<BlockDownload>, at: int, index: u32)
    requires
        0 <= at < blocks.len(),
    ensures
        count(blocks, index) == count(blocks.remove(at), index) + (if blocks[at].piece_index
            == index {
            1nat
        } else {
            0nat
        }),
    decreases blocks.len(),
{
    if at == blocks.len() - 1 {
        assert(blocks.remove(at) =~= blocks.drop_last());
    } else {
        lemma_count_remove(blocks.drop_last(), at, index);
        assert(blocks.remove(at).drop_last() =~= blocks.drop_last().remove(at));
    }
}

pub(crate) proof fn lemma_count_none(blocks: Seq<BlockDownload>, index: u32)
    requires
        forall|i: int| 0 <= i < blocks.len() ==> (#[trigger] blocks[i]).piece_index != index,
    ensures
        count(blocks, index) == 0,
    decreases blocks.len(),
{
    if blocks.len() > 0 {
        assert(blocks.last() == blocks[blocks.len() - 1]);
        assert forall|i: int| 0 <= i < blocks.drop_last().len() implies (
        #[trigger] blocks.drop_last()[i]).piece_index != index by {
            assert(blocks.drop_last()[i] == blocks[i]);
        }
        lemma_count_none(blocks.drop_last(), index);
    }
}

/// The blocks to ask for when the pieces are gone through in the given order.
pub open spec fn planned(
    pieces: Map<u32, PieceDownload>,
    order: Seq<u32>,
    inflight: int,
) -> Seq<BlockDownload>
    decreases order.len(),
{
    if order.len() == 0 {
        seq![]
    } else {
        let before = planned(pieces, order.drop_last(), inflight);
        let piece = pieces[order.last()];
        before + piece.next_blocks(
            order.last(),
            num_requests(inflight + before.len(), piece.unrequested()),
        )
    }
}

/// Whether each of the blocks is the next one of its piece, once those before it have been asked
/// for.
pub open spec fn in_turn(pieces: Map<u32, PieceDownload>, blocks: Seq<BlockDownload>) -> bool
    decreases blocks.len(),
{
    blocks.len() > 0 ==> {
        let first = blocks[0];
        let piece = pieces[first.piece_index];
        &&& pieces.contains_key(first.piece_index)
        &&& piece.requested < piece.piece_length
        &&& first == piece.block_at(first.piece_index, piece.requested as int)
        &&& in_turn(after_request(pieces, first), blocks.skip(1))
    }
}

/// The pieces when a block of one of them has been asked for.
pub open spec fn after_request(
    pieces: Map<u32, PieceDownload>,
    block: BlockDownload,
) -> Map<u32, PieceDownload> {
    let piece = pieces[block.piece_index];
    pieces.insert(
        block.piece_index,
        PieceDownload { requested: (piece.requested + block.block_len) as u32, ..piece },
    )
}

/// Whether `order` names each of the pieces once.
pub open spec fn is_order_of(order: Seq<u32>, pieces: Map<u32, PieceDownload>) -> bool {
    order.no_duplicates() && order.to_set() == pieces.dom()
}

impl SeedDownloader {
    /// The blocks that have been asked for.
    pub open spec fn blocks(self) -> Set<BlockDownload> {
        self.pending_blocks@.to_set()
    }

    /// Whether no block has been asked for twice.
    pub open spec fn valid(self) -> bool {
        self.pending_blocks@.no_duplicates()
    }

    /// Whether a piece is one of the torrent, and its blocks that are still to come are those that
    /// have been asked for and those that have not, which begin where the others end.
    pub open spec fn tracks(self, index: u32, piece: PieceDownload) -> bool {
        &&& index < self.torrent_info.pieces.0@.len()
        &&& piece.piece_hash == self.torrent_info.pieces.0@[index as int]
        &&& piece.piece_length == self.torrent_info.piece_len(index as int)
        &&& 0 < piece.piece_length
        &&& num_blocks(piece.piece_length as int) <= u16::MAX
        &&& piece.bytes@.len() == piece.piece_length
        &&& piece.requested <= piece.piece_length
        &&& piece.requested % BLOCK_SIZE == 0 || piece.requested == piece.piece_length
        &&& forall|i: int|
            0 <= i < self.pending_blocks@.len() && (
            #[trigger] self.pending_blocks@[i]).piece_index == index ==> {
                let block = self.pending_blocks@[i];
                &&& block.block_begin < piece.requested
                &&& block == piece.block_at(index, block.block_begin as int)
            }
        &&& 0 < piece.remaining_blocks
        &&& piece.remaining_blocks == count(self.pending_blocks@, index) + piece.unrequested()
    }

    /// Whether every request is open and every piece knows which of its blocks are still to come.
    pub open spec fn sound(self) -> bool {
        &&& self.valid()
        &&& self.pending_blocks@.len() <= self.inflight
        &&& forall|index: u32| #[trigger]
            self.pending_pieces@.contains_key(index) ==> self.tracks(
                index,
                self.pending_pieces@[index],
            )
    }

    pub fn new(torrent_info: Arc<Info>) -> (res: Self)
        ensures
            res.torrent_info == torrent_info,
            res.choked_us,
            res.inflight == 0,
            res.pending_pieces@ == Map::<u32, PieceDownload>::empty(),
            res.blocks() == Set::<BlockDownload>::empty(),
            res.sound(),
    {
        let res = Self {
            torrent_info,
            choked_us: true,
            inflight: 0,
            pending_pieces: HashMap::new(),
            pending_blocks: Vec::new(),
        };
        assert(res.blocks() =~= Set::empty());
        res
    }

    /// The pieces that are being downloaded, in the order in which the map holds them.
    fn order(&self) -> (order: Vec<u32>)
        ensures
            is_order_of(order@, self.pending_pieces@),
    {
        let mut order: Vec<u32> = Vec::new();
        let keys = self.pending_pieces.keys();
        let ghost walk = keys.remaining();
        for index in it: keys
            invariant
                it.seq() == walk,
                order@ =~= walk.unref().take(it.index() as int),
        {
            order.push(*index);
        }
        assert(order@ =~= walk.unref());
        assert forall|i: int, j: int| 0 <= i < j < order@.len() implies order@[i] != order@[j] by {
            assert(walk[i] != walk[j]);
        }
        order
    }

    /// Whether no piece has had more bytes asked for than it has.
    pub open spec fn can_request(self) -> bool {
        forall|index: u32| #[trigger]
            self.pending_pieces@.contains_key(index) ==> self.pending_pieces@[index].requested
                <= self.pending_pieces@[index].piece_length
    }

    /// The blocks to ask for when the pieces that are being downloaded are gone through in the
    /// given order.
    pub fn plan(&self, order: &Vec<u32>) -> (blocks: Vec<BlockDownload>)
        requires
            self.can_request(),
            forall|i: int|
                0 <= i < order@.len() ==> #[trigger] self.pending_pieces@.contains_key(order@[i]),
        ensures
            blocks@ == planned(self.pending_pieces@, order@, self.inflight as int),
    {
        let mut blocks: Vec<BlockDownload> = Vec::new();
        let mut i: usize = 0;
        while i < order.len()
            invariant
                i <= order@.len(),
                self.can_request(),
                forall|i: int|
                    0 <= i < order@.len() ==> #[trigger] self.pending_pieces@.contains_key(
                        order@[i],
                    ),
                blocks@ == planned(
                    self.pending_pieces@,
                    order@.take(i as int),
                    self.inflight as int,
                ),
            decreases order@.len() - i,
        {
            let index: u32 = order[i];
            assert(self.pending_pieces@.contains_key(order@[i as int]));
            assert(order@.take(i + 1).drop_last() =~= order@.take(i as int));
            // Beyond the limit the number of open requests makes no difference.
            let inflight: u8 = if self.inflight < MAX_INFLIGHT_PER_PEER && blocks.len()
                < MAX_INFLIGHT_PER_PEER as usize {
                self.inflight + blocks.len() as u8
            } else {
                MAX_INFLIGHT_PER_PEER
            };
            match self.pending_pieces.get(&index) {
                Some(piece) => {
                    let mut more = request_blocks(inflight, index, piece);
                    blocks.append(&mut more);
                },
                None => {},
            }
            i += 1;
        }
        assert(order@.take(i as int) =~= order@);
        blocks
    }

    /// Whether `blocks` are those to ask for when the pieces that are being downloaded are gone
    /// through in some order. There are none while the peer chokes us.
    pub open spec fn is_plan(self, blocks: Seq<BlockDownload>) -> bool {
        if self.choked_us {
            blocks.len() == 0
        } else {
            exists|order: Seq<u32>|
                is_order_of(order, self.pending_pieces@) && blocks == #[trigger] planned(
                    self.pending_pieces@,
                    order,
                    self.inflight as int,
                )
        }
    }

    /// The blocks to ask for of the pieces that are being downloaded, unless the peer chokes us.
    /// In which order the pieces are gone through is left open.
    pub fn request_pieces(&self) -> (blocks: Vec<BlockDownload>)
        requires
            self.can_request(),
        ensures
            self.is_plan(blocks@),
            in_turn(self.pending_pieces@, blocks@),
    {
        if self.choked_us {
            return Vec::new();
        }
        let order = self.order();
        assert forall|i: int| 0 <= i < order@.len() implies #[trigger]
            self.pending_pieces@.contains_key(order@[i]) by {
            assert(order@.to_set().contains(order@[i]));
        }
        proof {
            law_plan_is_in_turn(self.pending_pieces@, order@, self.inflight as int);
        }
        self.plan(&order)
    }

    /// Whether a block is the next one of a piece that has not been asked for, and there is room to
    /// count one more request.
    pub open spec fn can_add(self, piece: PieceDownload, block: BlockDownload) -> bool {
        &&& piece.requested < piece.piece_length
        &&& block == piece.block_at(block.piece_index, piece.requested as int)
        &&& !self.blocks().contains(block)
        &&& self.inflight < u8::MAX
    }

    /// Whether this is what `before` becomes when a block has been asked for, apart from the piece
    /// that the block belongs to.
    pub open spec fn is_after_request(self, before: Self, block: BlockDownload) -> bool {
        &&& self.torrent_info == before.torrent_info
        &&& self.choked_us == before.choked_us
        &&& self.inflight == before.inflight + 1
        &&& self.blocks() == before.blocks().insert(block)
        &&& self.valid()
    }

    /// Notes that a block of a piece has been asked for. The piece is not one of those that are
    /// being downloaded yet.
    pub fn request_sent_for(&mut self, piece: &mut PieceDownload, block: BlockDownload)
        requires
            old(self).valid(),
            old(self).can_add(*old(piece), block),
        ensures
            final(self).is_after_request(*old(self), block),
            final(self).pending_pieces == old(self).pending_pieces,
            *final(piece) == (PieceDownload {
                requested: (old(piece).requested + block.block_len) as u32,
                ..*old(piece)
            }),
            old(self).tracks(block.piece_index, *old(piece)) ==> final(self).tracks(
                block.piece_index,
                *final(piece),
            ),
            forall|index: u32, other: PieceDownload|
                index != block.piece_index && old(self).tracks(index, other) ==> (
                #[trigger] final(self).tracks(index, other)),
            old(self).sound() && !old(self).pending_pieces@.contains_key(block.piece_index)
                ==> final(self).sound(),
    {
        let ghost before = self.pending_blocks@;
        self.pending_blocks.push(block);
        self.inflight += 1;
        piece.requested += block.block_len;
        proof {
            assert(self.pending_blocks@.drop_last() =~= before);
            assert forall|i: int, j: int|
                0 <= i < j < self.pending_blocks@.len() implies self.pending_blocks@[i]
                != self.pending_blocks@[j] by {
                assert(before.contains(before[i]));
            }
            assert(self.blocks() =~= old(self).blocks().insert(block)) by {
                assert forall|b: BlockDownload| #[trigger]
                    self.blocks().contains(b) == old(self).blocks().insert(block).contains(b) by {
                    lemma_push_contains(before, block, b);
                }
            }
            lemma_next_request(*old(piece));
            assert(forall|index: u32, other: PieceDownload|
                index != block.piece_index && old(self).tracks(index, other) ==> #[trigger]
                self.tracks(index, other));
        }
    }

    /// Notes that a block of a piece that is being downloaded has been asked for.
    pub fn request_sent(&mut self, block: BlockDownload)
        requires
            old(self).valid(),
            old(self).pending_pieces@.contains_key(block.piece_index),
            old(self).can_add(old(self).pending_pieces@[block.piece_index], block),
        ensures
            final(self).is_after_request(*old(self), block),
            final(self).pending_pieces@ == after_request(old(self).pending_pieces@, block),
            old(self).sound() ==> final(self).sound(),
    {
        if let Some(piece) = self.pending_pieces.remove(&block.piece_index) {
            let mut piece = piece;
            let ghost rest = *self;
            self.request_sent_for(&mut piece, block);
            self.pending_pieces.insert(block.piece_index, piece);
            proof {
                assert(self.pending_pieces@ =~= old(self).pending_pieces@.insert(
                    block.piece_index,
                    piece,
                ));
                if old(self).sound() {
                    assert(rest.sound()) by {
                        assert forall|index: u32| #[trigger]
                            rest.pending_pieces@.contains_key(index) implies rest.tracks(
                            index,
                            rest.pending_pieces@[index],
                        ) by {
                            assert(old(self).pending_pieces@.contains_key(index));
                        }
                    }
                    assert(old(self).tracks(
                        block.piece_index,
                        old(self).pending_pieces@[block.piece_index],
                    ));
                    assert forall|index: u32| #[trigger]
                        self.pending_pieces@.contains_key(index) implies self.tracks(
                        index,
                        self.pending_pieces@[index],
                    ) by {
                        if index != block.piece_index {
                            assert(rest.pending_pieces@.contains_key(index));
                        }
                    }
                }
            }
        }
    }

    /// Whether there is room for the requests of one more piece.
    pub open spec fn wants_piece(self) -> bool {
        !self.choked_us && self.inflight < MAX_INFLIGHT_PER_PEER
    }

    /// Whether the piece that comes up next in `own` is a new one.
    pub open spec fn starts_piece(self, own: Bitfield) -> bool {
        &&& self.wants_piece()
        &&& own.confirmed < own.total_pieces
        &&& !self.pending_pieces@.contains_key(own.next_missing() as u32)
    }

    /// Whether the piece that comes up next in `own` can be started: it has a digest, it does not
    /// begin behind the end of the download, its blocks can be counted, and it fits into memory.
    pub open spec fn can_start(self, own: Bitfield) -> bool {
        let index = own.next_missing();
        self.starts_piece(own) ==> {
            &&& self.torrent_info.download_type.spec_len() <= u64::MAX
            &&& self.torrent_info.piece_begin(index) <= self.torrent_info.download_type.spec_len()
            &&& index < self.torrent_info.pieces.0@.len()
            &&& self.torrent_info.piece_len(index) + BLOCK_SIZE - 1 <= u32::MAX
            &&& self.torrent_info.piece_len(index) <= isize::MAX
        }
    }

    /// Whether a piece of the torrent is one of which nothing has been asked for.
    pub open spec fn is_new(self, index: u32, piece: PieceDownload) -> bool {
        &&& piece.piece_hash == self.torrent_info.pieces.0@[index as int]
        &&& piece.piece_length == self.torrent_info.piece_len(index as int)
        &&& piece.requested == 0
        &&& piece.remaining_blocks == num_blocks(piece.piece_length as int) as u16
        &&& piece.bytes@ == Seq::new(piece.piece_length as nat, |i: int| 0u8)
    }

    /// Picks one more piece where there is room for its requests. There is none where we own all
    /// pieces or the one that comes up is being downloaded already, for then all the others are
    /// too.
    pub fn next_piece(&self, own: &mut Bitfield) -> (res: Option<(u32, PieceDownload)>)
        requires
            old(own).can_pick(),
            self.can_start(*old(own)),
        ensures
            final(own).wf(),
            old(own).sound() ==> final(own).sound(),
            !self.wants_piece() ==> *final(own) == *old(own),
            self.wants_piece() ==> final(own).is_after_pick(*old(own)),
            match res {
                None => !self.starts_piece(*old(own)),
                Some((index, piece)) => {
                    &&& self.starts_piece(*old(own))
                    &&& index == old(own).next_missing()
                    &&& self.is_new(index, piece)
                },
            },
    {
        if self.choked_us || self.inflight >= MAX_INFLIGHT_PER_PEER {
            return None;
        }
        let index: u32 = match own.pick_piece() {
            Some(index) => index,
            None => return None,
        };
        if self.pending_pieces.contains_key(&index) {
            return None;
        }
        let piece_length: u32 = self.torrent_info.get_piece_length(index);
        let piece_hash = self.torrent_info.pieces.0[index as usize];
        Some((index, PieceDownload::new(piece_hash, piece_length)))
    }

    /// Whether the piece that comes up next in `own` can be started.
    pub fn accepts_next_piece(&self, own: &Bitfield) -> (res: bool)
        requires
            own.can_pick(),
        ensures
            res == self.can_start(*own),
    {
        if self.choked_us || self.inflight >= MAX_INFLIGHT_PER_PEER {
            return true;
        }
        let index: u32 = match own.peek_piece() {
            Some(index) => index,
            None => return true,
        };
        if self.pending_pieces.contains_key(&index) {
            return true;
        }
        let info = &self.torrent_info;
        let len: u64 = match info.download_type.checked_len() {
            Some(len) => len,
            None => return false,
        };
        proof {
            let a = index as int;
            let b = info.piece_length as int;
            assert(0 <= a * b <= 0xffff_ffff * 0xffff_ffff) by (nonlinear_arith)
                requires
                    0 <= a <= 0xffff_ffff,
                    0 <= b <= 0xffff_ffff,
            ;
        }
        let begin: u64 = index as u64 * info.piece_length as u64;
        if begin > len || index as usize >= info.pieces.0.len() {
            return false;
        }
        let piece_length: u32 = info.get_piece_length(index);
        piece_length <= u32::MAX - (BLOCK_SIZE - 1) && piece_length as u64 <= isize::MAX as u64
    }

    /// Whether this is what `before` becomes when a piece is added to those that are being
    /// downloaded.
    pub open spec fn is_after_addition(
        self,
        before: Self,
        index: u32,
        piece: PieceDownload,
    ) -> bool {
        &&& self.torrent_info == before.torrent_info
        &&& self.choked_us == before.choked_us
        &&& self.inflight == before.inflight
        &&& self.pending_pieces@ == before.pending_pieces@.insert(index, piece)
        &&& self.pending_blocks == before.pending_blocks
    }

    /// Adds a piece of which all requests have been sent to those that are being downloaded.
    pub fn add_piece(&mut self, index: u32, piece: PieceDownload)
        requires
            !old(self).pending_pieces@.contains_key(index),
        ensures
            final(self).is_after_addition(*old(self), index, piece),
            old(self).sound() && old(self).tracks(index, piece) ==> final(self).sound(),
    {
        self.pending_pieces.insert(index, piece);
        proof {
            if old(self).sound() && old(self).tracks(index, piece) {
                assert forall|i: u32| #[trigger]
                    self.pending_pieces@.contains_key(i) implies self.tracks(
                    i,
                    self.pending_pieces@[i],
                ) by {
                    if i != index {
                        assert(old(self).pending_pieces@.contains_key(i));
                    }
                }
            }
        }
    }

    /// The block that a message with a piece of data brings.
    pub open spec fn block_of(index: u32, begin: u32, len: nat) -> BlockDownload {
        BlockDownload { piece_index: index, block_begin: begin, block_len: len as u32 }
    }

    /// Whether a block has been asked for and belongs to a piece that is being downloaded.
    pub open spec fn takes(self, index: u32, begin: u32, len: nat) -> bool {
        &&& self.blocks().contains(Self::block_of(index, begin, len))
        &&& self.pending_pieces@.contains_key(index)
    }

    /// Whether a block can be received: the piece that it belongs to has room for it, and there is
    /// something to count down.
    pub open spec fn can_receive(self, index: u32, begin: u32, len: nat) -> bool {
        let piece = self.pending_pieces@[index];
        self.takes(index, begin, len) ==> {
            &&& piece.remaining_blocks > 0
            &&& self.inflight > 0
            &&& begin + len <= piece.bytes@.len()
        }
    }

    /// Takes a block off those that have been asked for, if it is among them.
    fn remove_block(&mut self, block: BlockDownload) -> (found: bool)
        requires
            old(self).valid(),
        ensures
            found == old(self).blocks().contains(block),
            final(self).torrent_info == old(self).torrent_info,
            final(self).choked_us == old(self).choked_us,
            final(self).inflight == old(self).inflight,
            final(self).pending_pieces == old(self).pending_pieces,
            final(self).blocks() == old(self).blocks().remove(block),
            final(self).valid(),
            found ==> exists|at: int|
                0 <= at < old(self).pending_blocks@.len() && old(self).pending_blocks@[at] == block
                    && final(self).pending_blocks@ == #[trigger] old(
                    self,
                ).pending_blocks@.remove(at),
            !found ==> *final(self) == *old(self),
    {
        let ghost before = self.pending_blocks@;
        let mut at: usize = 0;
        while at < self.pending_blocks.len()
            invariant
                at <= self.pending_blocks@.len(),
                *self == *old(self),
                before == self.pending_blocks@,
                before.no_duplicates(),
                forall|i: int| 0 <= i < at ==> before[i] != block,
            decreases self.pending_blocks@.len() - at,
        {
            if self.pending_blocks[at] == block {
                self.pending_blocks.remove(at);
                proof {
                    let after = self.pending_blocks@;
                    assert forall|b: BlockDownload| #[trigger]
                        after.to_set().contains(b) == before.to_set().remove(block).contains(b) by {
                        if after.contains(b) {
                            let i = choose|i: int| 0 <= i < after.len() && after[i] == b;
                            assert(b == if i < at {
                                before[i]
                            } else {
                                before[i + 1]
                            });
                        }
                        if before.contains(b) && b != block {
                            let i = choose|i: int| 0 <= i < before.len() && before[i] == b;
                            assert(b == if i < at {
                                after[i]
                            } else {
                                after[i - 1]
                            });
                        }
                    }
                    assert(after.to_set() =~= before.to_set().remove(block));
                    assert(before[at as int] == block);
                    assert(after == before.remove(at as int));
                }
                return true;
            }
            at += 1;
        }
        assert(self.blocks() =~= self.blocks().remove(block));
        false
    }

    /// Whether this is what `before` becomes when a block arrives, and `res` is what comes of it: a
    /// piece, where the block was its last.
    pub open spec fn is_after_receipt(
        self,
        before: Self,
        index: u32,
        begin: u32,
        block: Seq<u8>,
        res: Result<Option<PieceDownload>, SeedError>,
    ) -> bool {
        let asked = Self::block_of(index, begin, block.len());
        let pieces = before.pending_pieces@;
        &&& self.torrent_info == before.torrent_info
        &&& self.choked_us == before.choked_us
        &&& self.blocks() == before.blocks().remove(asked)
        &&& self.valid()
        &&& if !before.blocks().contains(asked) {
            &&& res == Err::<Option<PieceDownload>, _>(SeedError::UnrequestedBlock)
            &&& self == before
        } else if !pieces.contains_key(index) {
            &&& res == Err::<Option<PieceDownload>, _>(SeedError::UnrequestedPiece { index })
            &&& self.inflight == before.inflight
            &&& self.pending_pieces@ == pieces
        } else {
            &&& self.inflight == before.inflight - 1
            &&& match res {
                Ok(None) => {
                    &&& pieces[index].remaining_blocks > 1
                    &&& self.pending_pieces@ == pieces.insert(index, self.pending_pieces@[index])
                    &&& self.pending_pieces@[index].is_after_block(
                        pieces[index],
                        begin as int,
                        block,
                    )
                },
                Ok(Some(piece)) => {
                    &&& pieces[index].remaining_blocks == 1
                    &&& self.pending_pieces@ == pieces.remove(index)
                    &&& piece.is_after_block(pieces[index], begin as int, block)
                },
                Err(_) => false,
            }
        }
    }

    /// Puts a block that has arrived in its place, and takes the piece off those that are being
    /// downloaded once it is complete.
    pub fn receive_block(&mut self, index: u32, begin: u32, block: Vec<u8>) -> (res: Result<
        Option<PieceDownload>,
        SeedError,
    >)
        requires
            old(self).valid(),
            old(self).can_receive(index, begin, block@.len()),
        ensures
            final(self).is_after_receipt(*old(self), index, begin, block@, res),
            old(self).sound() ==> final(self).sound(),
    {
        let ghost arrived = block@;
        let ghost pieces = self.pending_pieces@;
        let block_dl = BlockDownload {
            piece_index: index,
            block_begin: begin,
            block_len: block.len() as u32,
        };
        if !self.remove_block(block_dl) {
            return Err(SeedError::UnrequestedBlock);
        }
        let ghost at = choose|at: int|
            0 <= at < old(self).pending_blocks@.len() && old(self).pending_blocks@[at] == block_dl
                && self.pending_blocks@ == #[trigger] old(self).pending_blocks@.remove(at);
        let mut piece = match self.pending_pieces.remove(&index) {
            Some(piece) => piece,
            None => {
                proof {
                    assert(self.pending_pieces@ =~= pieces);
                    if old(self).sound() {
                        lemma_sound_after_removal(*old(self), *self, at, pieces);
                    }
                }
                return Err(SeedError::UnrequestedPiece { index });
            },
        };
        proof {
            if old(self).sound() {
                assert(old(self).tracks(index, piece));
                lemma_sound_after_removal(*old(self), *self, at, pieces.remove(index));
            }
        }
        let ghost piece_before = piece;
        piece.add_block(begin, block);
        self.inflight -= 1;
        if piece.remaining_blocks == 0 {
            return Ok(Some(piece));
        }
        let ghost rest = *self;
        self.pending_pieces.insert(index, piece);
        proof {
            assert(self.pending_pieces@ =~= pieces.insert(index, piece));
            if old(self).sound() {
                lemma_tracks_after_block(
                    *old(self),
                    *self,
                    at,
                    piece_before,
                    piece,
                    begin as int,
                    arrived,
                );
                assert forall|i: u32| #[trigger]
                    self.pending_pieces@.contains_key(i) implies self.tracks(
                    i,
                    self.pending_pieces@[i],
                ) by {
                    if i != index {
                        assert(rest.pending_pieces@.contains_key(i));
                    }
                }
            }
        }
        Ok(None)
    }

    /// Whether this is what `before` becomes when the peer chokes us. The blocks that have been
    /// asked for are not going to come, but the requests stay counted.
    pub open spec fn is_after_choke(self, before: Self) -> bool {
        &&& self.torrent_info == before.torrent_info
        &&& self.choked_us
        &&& self.inflight == before.inflight
        &&& self.pending_pieces@ == before.pending_pieces@.map_values(
            |piece: PieceDownload| piece.started_over(),
        )
        &&& self.blocks() == Set::<BlockDownload>::empty()
        &&& self.valid()
    }

    /// Whether the blocks of every piece can be counted anew.
    pub open spec fn can_choke(self) -> bool {
        forall|index: u32| #[trigger]
            self.pending_pieces@.contains_key(index) ==> self.pending_pieces@[index].piece_length
                + BLOCK_SIZE - 1 <= u32::MAX
    }

    /// Drops what has been asked for. All the pieces are asked for again when the peer unchokes us:
    /// blocks may arrive in any order, so the blocks that are missing are not known.
    fn choke(&mut self)
        requires
            old(self).can_choke(),
        ensures
            final(self).is_after_choke(*old(self)),
            old(self).sound() ==> final(self).sound(),
    {
        let ghost pieces = self.pending_pieces@;
        self.choked_us = true;
        let order = self.order();
        let mut i: usize = 0;
        while i < order.len()
            invariant
                i <= order@.len(),
                is_order_of(order@, pieces),
                pieces == old(self).pending_pieces@,
                old(self).can_choke(),
                self.torrent_info == old(self).torrent_info,
                self.choked_us,
                self.inflight == old(self).inflight,
                self.pending_pieces@.dom() == pieces.dom(),
                forall|j: int|
                    0 <= j < order@.len() ==> self.pending_pieces@[#[trigger] order@[j]] == if j
                        < i {
                        pieces[order@[j]].started_over()
                    } else {
                        pieces[order@[j]]
                    },
            decreases order@.len() - i,
        {
            let index: u32 = order[i];
            proof {
                assert(order@.to_set().contains(order@[i as int]));
                assert(pieces.contains_key(index));
            }
            if let Some(piece) = self.pending_pieces.remove(&index) {
                let mut piece = piece;
                piece.start_over();
                self.pending_pieces.insert(index, piece);
            }
            assert(self.pending_pieces@.dom() =~= pieces.dom());
            i += 1;
        }
        self.pending_blocks.clear();
        proof {
            assert(self.blocks() =~= Set::empty());
            assert forall|index: u32| #[trigger]
                pieces.contains_key(index) implies self.pending_pieces@[index]
                == pieces[index].started_over() by {
                assert(order@.to_set().contains(index));
                let j = choose|j: int| 0 <= j < order@.len() && order@[j] == index;
                assert(self.pending_pieces@[order@[j]] == pieces[order@[j]].started_over());
            }
            assert(self.pending_pieces@ =~= pieces.map_values(
                |piece: PieceDownload| piece.started_over(),
            ));
            if old(self).sound() {
                assert forall|index: u32| #[trigger]
                    self.pending_pieces@.contains_key(index) implies self.tracks(
                    index,
                    self.pending_pieces@[index],
                ) by {
                    assert(old(self).tracks(index, pieces[index]));
                    lemma_parts(pieces[index].piece_length as int, BLOCK_SIZE as int);
                }
            }
        }
    }

    /// Whether `res` is what comes of a piece that is complete, and `own` what `own_before`
    /// becomes: the piece is owned and handed on only where its digest is right.
    pub open spec fn is_settled(
        index: u32,
        piece: PieceDownload,
        valid: bool,
        own: Bitfield,
        own_before: Bitfield,
        res: Result<Reaction, SeedError>,
    ) -> bool {
        if valid {
            &&& own.is_after_set(own_before, index)
            &&& res == Ok::<_, SeedError>(
                Reaction::Deliver { index, length: piece.piece_length, bytes: piece.bytes },
            )
        } else {
            &&& own == own_before
            &&& res == Err::<Reaction, _>(SeedError::InvalidPiece)
        }
    }

    /// Marks a piece that is complete as owned and hands it on, where its digest is right. Else the
    /// piece stays missing and comes up again.
    pub fn settle_piece(
        own: &mut Bitfield,
        index: u32,
        piece: PieceDownload,
        valid: bool,
    ) -> (res: Result<Reaction, SeedError>)
        requires
            valid ==> old(own).can_set(index),
        ensures
            Self::is_settled(index, piece, valid, *final(own), *old(own), res),
            old(own).wf() ==> final(own).wf(),
            old(own).settled() ==> final(own).settled(),
            old(own).sound() && index < old(own).total_pieces ==> final(own).sound(),
            forall|i: int|
                0 <= i < old(own).num_bits() ==> (#[trigger] final(own).owns(i) == (old(own).owns(
                    i,
                ) || valid && i == index)),
    {
        if !valid {
            return Err(SeedError::InvalidPiece);
        }
        own.set(index);
        Ok(Reaction::Deliver { index, length: piece.piece_length, bytes: piece.bytes })
    }

    /// Whether a message can be handled: a piece that a block completes can be marked as owned.
    /// Peers must not ask us for anything.
    pub open spec fn can_handle(self, own: Bitfield, msg: Message) -> bool {
        match msg {
            Message::Choke => self.can_choke(),
            Message::Piece { index, begin, block } => {
                &&& self.can_receive(index, begin, block@.len())
                &&& self.takes(index, begin, block@.len())
                    && self.pending_pieces@[index].remaining_blocks == 1 ==> own.can_set(index)
            },
            Message::Request { .. } => false,
            Message::Cancel { .. } => false,
            _ => true,
        }
    }

    /// Whether this is what `before` becomes, and `own` what `own_before` becomes, when a message
    /// is handled, and `res` is what comes of it.
    pub open spec fn is_after_msg(
        self,
        before: Self,
        own: Bitfield,
        own_before: Bitfield,
        msg: Message,
        res: Result<Reaction, SeedError>,
    ) -> bool {
        match msg {
            Message::KeepAlive
            | Message::Have { .. }
            | Message::Interested
            | Message::NotInterested => {
                &&& self == before
                &&& own == own_before
                &&& res == Ok::<_, SeedError>(Reaction::Nothing)
            },
            Message::Choke => {
                &&& self.is_after_choke(before)
                &&& own == own_before
                &&& res == Ok::<_, SeedError>(Reaction::Nothing)
            },
            Message::Unchoke => {
                &&& self == (SeedDownloader { choked_us: false, ..before })
                &&& own == own_before
                &&& res == Ok::<_, SeedError>(
                    if before.choked_us {
                        Reaction::RequestPieces
                    } else {
                        Reaction::Nothing
                    },
                )
            },
            Message::Bitfield(_) => {
                &&& self == before
                &&& own == own_before
                &&& res == Err::<Reaction, _>(SeedError::BitfieldOutOfOrder)
            },
            Message::Piece { index, begin, block } => exists|
                receipt: Result<Option<PieceDownload>, SeedError>,
            | #[trigger]
                self.is_after_receipt(before, index, begin, block@, receipt) && match receipt {
                    Err(error) => own == own_before && res == Err::<Reaction, _>(error),
                    Ok(None) => own == own_before && res == Ok::<_, SeedError>(
                        Reaction::RequestPieces,
                    ),
                    Ok(Some(piece)) => Self::is_settled(
                        index,
                        piece,
                        sha1_digest(piece.bytes@) == piece.piece_hash@,
                        own,
                        own_before,
                        res,
                    ),
                },
            Message::Request { .. } | Message::Cancel { .. } => false,
        }
    }

    /// Handles a message of the seed.
    pub fn handle_msg(&mut self, own: &mut Bitfield, msg: Message) -> (res: Result<
        Reaction,
        SeedError,
    >)
        requires
            old(self).valid(),
            old(self).can_handle(*old(own), msg),
        ensures
            final(self).is_after_msg(*old(self), *final(own), *old(own), msg, res),
            final(self).valid(),
            old(self).sound() ==> final(self).sound(),
            old(self).sound() ==> match res {
                Ok(Reaction::Deliver { index, length, bytes }) => {
                    &&& index < old(self).torrent_info.pieces.0@.len()
                    &&& sha1_digest(bytes@) == old(self).torrent_info.pieces.0@[index as int]@
                    &&& bytes@.len() == length == old(self).torrent_info.piece_len(index as int)
                },
                _ => true,
            },
            old(own).wf() ==> final(own).wf(),
            old(own).settled() ==> final(own).settled(),
            old(self).sound() && old(own).sound() && old(own).total_pieces
                == old(self).torrent_info.pieces.0@.len() ==> final(own).sound(),
            forall|i: int|
                0 <= i < old(own).num_bits() ==> (#[trigger] final(own).owns(i) == (old(own).owns(
                    i,
                ) || (res matches Ok(Reaction::Deliver { index, .. }) && i == index))),
    {
        match msg {
            Message::KeepAlive => Ok(Reaction::Nothing),
            Message::Choke => {
                self.choke();
                Ok(Reaction::Nothing)
            },
            Message::Unchoke => {
                if !self.choked_us {
                    return Ok(Reaction::Nothing);
                }
                self.choked_us = false;
                proof {
                    if old(self).sound() {
                        assert forall|index: u32| #[trigger]
                            self.pending_pieces@.contains_key(index) implies self.tracks(
                            index,
                            self.pending_pieces@[index],
                        ) by {
                            assert(old(self).tracks(index, old(self).pending_pieces@[index]));
                        }
                    }
                }
                Ok(Reaction::RequestPieces)
            },
            Message::Bitfield(_) => Err(SeedError::BitfieldOutOfOrder),
            Message::Have { .. } => Ok(Reaction::Nothing),
            Message::Interested => Ok(Reaction::Nothing),
            Message::NotInterested => Ok(Reaction::Nothing),
            Message::Piece { index, begin, block } => {
                match self.receive_block(index, begin, block) {
                    Err(error) => Err(error),
                    Ok(None) => Ok(Reaction::RequestPieces),
                    Ok(Some(piece)) => {
                        let valid = validate_piece(piece.bytes.as_slice(), piece.piece_hash);
                        Self::settle_piece(own, index, piece, valid)
                    },
                }
            },
            Message::Request { .. } | Message::Cancel { .. } => unreached(),
        }
    }

    /// Whether the blocks of every piece can be counted anew.
    fn accepts_choke(&self) -> (res: bool)
        ensures
            res == self.can_choke(),
    {
        let order = self.order();
        let mut i: usize = 0;
        while i < order.len()
            invariant
                i <= order@.len(),
                is_order_of(order@, self.pending_pieces@),
                forall|j: int|
                    0 <= j < i ==> self.pending_pieces@[#[trigger] order@[j]].piece_length
                        + BLOCK_SIZE - 1 <= u32::MAX,
            decreases order@.len() - i,
        {
            assert(order@.to_set().contains(order@[i as int]));
            if let Some(piece) = self.pending_pieces.get(&order[i]) {
                if piece.piece_length > u32::MAX - (BLOCK_SIZE - 1) {
                    assert(self.pending_pieces@.contains_key(order@[i as int]));
                    return false;
                }
            }
            i += 1;
        }
        assert forall|index: u32| #[trigger]
            self.pending_pieces@.contains_key(
                index,
            ) implies self.pending_pieces@[index].piece_length + BLOCK_SIZE - 1
            <= u32::MAX by {
            assert(order@.to_set().contains(index));
        }
        true
    }

    /// Whether [`SeedDownloader::handle_msg`] accepts a message.
    pub fn accepts(&self, own: &Bitfield, msg: &Message) -> (res: bool)
        ensures
            res == self.can_handle(*own, *msg),
    {
        match msg {
            Message::Choke => self.accepts_choke(),
            Message::Piece { index, begin, block } => {
                let asked = BlockDownload {
                    piece_index: *index,
                    block_begin: *begin,
                    block_len: block.len() as u32,
                };
                if !self.has_asked(asked) {
                    return true;
                }
                match self.pending_pieces.get(index) {
                    None => true,
                    Some(piece) => piece.remaining_blocks > 0 && self.inflight > 0
                        && *begin as usize <= piece.bytes.len() && block.len()
                        <= piece.bytes.len() - *begin as usize && (piece.remaining_blocks != 1
                        || own.allows_set(*index)),
                }
            },
            Message::Request { .. } => false,
            Message::Cancel { .. } => false,
            _ => true,
        }
    }

    /// Whether a block has been asked for.
    fn has_asked(&self, block: BlockDownload) -> (res: bool)
        ensures
            res == self.blocks().contains(block),
    {
        let mut at: usize = 0;
        while at < self.pending_blocks.len()
            invariant
                at <= self.pending_blocks@.len(),
                forall|i: int| 0 <= i < at ==> self.pending_blocks@[i] != block,
            decreases self.pending_blocks@.len() - at,
        {
            if self.pending_blocks[at] == block {
                assert(self.pending_blocks@[at as int] == block);
                return true;
            }
            at += 1;
        }
        false
    }

    /// Whether a block of a piece can be asked for.
    pub fn accepts_request(&self, piece: &PieceDownload, block: BlockDownload) -> (res: bool)
        ensures
            res == self.can_add(*piece, block),
    {
        if piece.requested >= piece.piece_length || block.block_begin != piece.requested {
            return false;
        }
        let left: u32 = piece.piece_length - piece.requested;
        let len: u32 = if left > BLOCK_SIZE {
            BLOCK_SIZE
        } else {
            left
        };
        block.block_len == len && self.inflight < u8::MAX && !self.has_asked(block)
    }

    /// Whether no piece has had more bytes asked for than it has.
    pub fn accepts_plan(&self) -> (res: bool)
        ensures
            res == self.can_request(),
    {
        let order = self.order();
        let mut i: usize = 0;
        while i < order.len()
            invariant
                i <= order@.len(),
                is_order_of(order@, self.pending_pieces@),
                forall|j: int|
                    0 <= j < i ==> self.pending_pieces@[#[trigger] order@[j]].requested
                        <= self.pending_pieces@[order@[j]].piece_length,
            decreases order@.len() - i,
        {
            assert(order@.to_set().contains(order@[i as int]));
            if let Some(piece) = self.pending_pieces.get(&order[i]) {
                if piece.requested > piece.piece_length {
                    assert(self.pending_pieces@.contains_key(order@[i as int]));
                    return false;
                }
            }
            i += 1;
        }
        assert forall|index: u32| #[trigger]
            self.pending_pieces@.contains_key(index) implies self.pending_pieces@[index].requested
            <= self.pending_pieces@[index].piece_length by {
            assert(order@.to_set().contains(index));
        }
        true
    }
}

/// Without one of the blocks, the pieces that it does not belong to are still to get those that
/// they were.
proof fn lemma_sound_after_removal(
    before: SeedDownloader,
    after: SeedDownloader,
    at: int,
    pieces: Map<u32, PieceDownload>,
)
    requires
        before.sound(),
        0 <= at < before.pending_blocks@.len(),
        after.pending_blocks@ == before.pending_blocks@.remove(at),
        after.valid(),
        after.torrent_info == before.torrent_info,
        after.inflight == before.inflight,
        after.pending_pieces@ == pieces,
        pieces.submap_of(before.pending_pieces@),
        !pieces.contains_key(before.pending_blocks@[at].piece_index),
    ensures
        after.sound(),
        after.pending_blocks@.len() < after.inflight,
{
    assert forall|index: u32| #[trigger]
        after.pending_pieces@.contains_key(index) implies after.tracks(
        index,
        after.pending_pieces@[index],
    ) by {
        assert(before.pending_pieces@.contains_key(index));
        assert(before.tracks(index, pieces[index]));
        lemma_count_remove(before.pending_blocks@, at, index);
    }
}

/// With one of its blocks in place, a piece is still to get all those that it was, but for that
/// block.
proof fn lemma_tracks_after_block(
    before: SeedDownloader,
    after: SeedDownloader,
    at: int,
    piece_before: PieceDownload,
    piece: PieceDownload,
    begin: int,
    block: Seq<u8>,
)
    requires
        0 <= at < before.pending_blocks@.len(),
        before.tracks(before.pending_blocks@[at].piece_index, piece_before),
        after.pending_blocks@ == before.pending_blocks@.remove(at),
        after.torrent_info == before.torrent_info,
        0 <= begin,
        begin + block.len() <= piece_before.bytes@.len(),
        piece.is_after_block(piece_before, begin, block),
        piece.remaining_blocks > 0,
    ensures
        after.tracks(before.pending_blocks@[at].piece_index, piece),
{
    let index = before.pending_blocks@[at].piece_index;
    lemma_count_remove(before.pending_blocks@, at, index);
    assert forall|i: int|
        0 <= i < after.pending_blocks@.len() && (#[trigger] after.pending_blocks@[i]).piece_index
            == index implies ({
        let block = after.pending_blocks@[i];
        &&& block.block_begin < piece.requested
        &&& block == piece.block_at(index, block.block_begin as int)
    }) by {
        let j = if i < at {
            i
        } else {
            i + 1
        };
        assert(after.pending_blocks@[i] == before.pending_blocks@[j]);
    }
}

proof fn lemma_push_contains(blocks: Seq<BlockDownload>, block: BlockDownload, b: BlockDownload)
    ensures
        blocks.push(block).contains(b) == (blocks.contains(b) || b == block),
{
    if blocks.contains(b) {
        let i = choose|i: int| 0 <= i < blocks.len() && blocks[i] == b;
        assert(blocks.push(block)[i] == b);
    }
    assert(blocks.push(block)[blocks.len() as int] == block);
}

/// Asking for a block leaves one block less to ask for.
pub(crate) proof fn lemma_next_request(piece: PieceDownload)
    requires
        piece.requested < piece.piece_length,
    ensures
        ({
            let block = piece.block_at(0, piece.requested as int);
            let requested = piece.requested + block.block_len;
            &&& num_blocks(piece.piece_length - requested) == piece.unrequested() - 1
            &&& requested <= piece.piece_length
            &&& requested == piece.piece_length || block.block_len == BLOCK_SIZE
        }),
{
    let left = piece.piece_length - piece.requested;
    lemma_parts(left, BLOCK_SIZE as int);
    let next = if left > BLOCK_SIZE {
        left - BLOCK_SIZE
    } else {
        0
    };
    lemma_parts(next, BLOCK_SIZE as int);
}

} // verus!
