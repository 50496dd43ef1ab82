//! One piece on its way: the blocks to ask for and those that have arrived.

use vstd::prelude::*;

use super::peer_msg::Message;
use crate::bencode::meta_info::{lemma_parts, parts};
use crate::digest::{sha1, sha1_digest};

verus! {

/// The length of every block of a piece but the last.
pub const BLOCK_SIZE: u32 = 0x4000;

/// How many requests to a peer may be open before no more blocks of a piece are asked for.
pub const MAX_INFLIGHT_PER_PEER: u8 = 5;

/// A piece that is being downloaded.
#[derive(Debug)]
pub struct PieceDownload {
    pub piece_hash: [u8; 20],
    pub piece_length: u32,
    /// How many bytes, from the first one on, have been asked for.
    pub requested: u32,
    pub remaining_blocks: u16,
    pub bytes: Vec<u8>,
}

/// A block that has been asked for.
#[derive(Copy, Clone, Debug, PartialEq, Eq, Structural)]
pub struct BlockDownload {
    pub piece_index: u32,
    pub block_begin: u32,
    pub block_len: u32,
}

impl BlockDownload {
    /// The message that asks for the block.
    pub fn request(&self) -> (message: Message)
        ensures
            message == (Message::Request {
                index: self.piece_index,
                begin: self.block_begin,
                length: self.block_len,
            }),
    {
        Message::Request {
            index: self.piece_index,
            begin: self.block_begin,
            length: self.block_len,
        }
    }
}

/// The number of blocks in `len` bytes.
pub open spec fn num_blocks(len: int) -> int {
    parts(len, BLOCK_SIZE as int)
}

impl PieceDownload {
    /// How many blocks have not been asked for.
    pub open spec fn unrequested(self) -> int {
        num_blocks(self.piece_length - self.requested)
    }

    /// The block that begins at an offset.
    pub open spec fn block_at(self, index: u32, begin: int) -> BlockDownload {
        let left = self.piece_length - begin;
        BlockDownload {
            piece_index: index,
            block_begin: begin as u32,
            block_len: if left > BLOCK_SIZE {
                BLOCK_SIZE
            } else {
                left as u32
            },
        }
    }

    /// The next `n` blocks that have not been asked for.
    pub open spec fn next_blocks(self, index: u32, n: int) -> Seq<BlockDownload> {
        Seq::new(n as nat, |i: int| self.block_at(index, self.requested + i * BLOCK_SIZE))
    }

    /// Whether this is what `before` becomes when a block arrives.
    pub open spec fn is_after_block(self, before: Self, begin: int, block: Seq<u8>) -> bool {
        &&& self.piece_hash == before.piece_hash
        &&& self.piece_length == before.piece_length
        &&& self.requested == before.requested
        &&& self.remaining_blocks == before.remaining_blocks - 1
        &&& self.bytes@ == before.bytes@.take(begin) + block + before.bytes@.skip(
            begin + block.len(),
        )
    }

    /// The piece with none of its blocks asked for, and what has arrived of it left in place.
    pub open spec fn started_over(self) -> Self {
        PieceDownload {
            requested: 0,
            remaining_blocks: num_blocks(self.piece_length as int) as u16,
            ..self
        }
    }

    /// A piece of which nothing has been asked for. Its number of blocks is cut down to 16 bits.
    pub fn new(piece_hash: [u8; 20], piece_length: u32) -> (piece: Self)
        requires
            piece_length + BLOCK_SIZE - 1 <= u32::MAX,
            piece_length <= isize::MAX,
        ensures
            piece.piece_hash == piece_hash,
            piece.piece_length == piece_length,
            piece.requested == 0,
            piece.remaining_blocks == num_blocks(piece_length as int) as u16,
            piece.bytes@ == Seq::new(piece_length as nat, |i: int| 0u8),
    {
        let num_blocks: u32 = (piece_length + (BLOCK_SIZE - 1)) / BLOCK_SIZE;
        let bytes = vec![0u8; piece_length as usize];
        assert(bytes@ =~= Seq::new(piece_length as nat, |i: int| 0u8));
        Self {
            piece_hash,
            piece_length,
            requested: 0,
            remaining_blocks: num_blocks as u16,
            bytes,
        }
    }

    /// Puts a block that has arrived in its place.
    pub fn add_block(&mut self, begin: u32, block: Vec<u8>)
        requires
            old(self).remaining_blocks > 0,
            begin + block@.len() <= old(self).bytes@.len(),
        ensures
            final(self).is_after_block(*old(self), begin as int, block@),
    {
        self.remaining_blocks -= 1;
        let begin: usize = begin as usize;
        let len: usize = self.bytes.len();
        assert(begin + block@.len() <= len);
        let end: usize = begin + block.len();
        splice(&mut self.bytes, begin, end, block);
    }

    /// Gives up on the blocks that have been asked for. What has arrived is going to be
    /// overwritten.
    pub fn start_over(&mut self)
        requires
            old(self).piece_length + BLOCK_SIZE - 1 <= u32::MAX,
        ensures
            *final(self) == old(self).started_over(),
    {
        self.requested = 0;
        self.remaining_blocks = ((self.piece_length + (BLOCK_SIZE - 1)) / BLOCK_SIZE) as u16;
    }
}

/// How many of `left` blocks to ask for while `inflight` requests are open: as many as make the
/// open requests reach their limit, and all of them where the limit is not met on the way.
pub open spec fn num_requests(inflight: int, left: int) -> int {
    if inflight < MAX_INFLIGHT_PER_PEER && left > MAX_INFLIGHT_PER_PEER - inflight {
        MAX_INFLIGHT_PER_PEER - inflight
    } else {
        left
    }
}

/// The next blocks of a piece to ask for.
pub fn request_blocks(inflight: u8, piece_index: u32, piece_dl: &PieceDownload) -> (blocks: Vec<
    BlockDownload,
>)
    requires
        piece_dl.requested <= piece_dl.piece_length,
    ensures
        blocks@ == piece_dl.next_blocks(
            piece_index,
            num_requests(inflight as int, piece_dl.unrequested()),
        ),
{
    let mut blocks: Vec<BlockDownload> = Vec::new();
    let mut requested: u32 = piece_dl.requested;
    // Only how far the open requests are from the limit matters.
    let mut room: u8 = if inflight < MAX_INFLIGHT_PER_PEER {
        MAX_INFLIGHT_PER_PEER - inflight
    } else {
        0
    };
    let ghost left = piece_dl.unrequested();
    proof {
        lemma_parts(piece_dl.piece_length - piece_dl.requested, BLOCK_SIZE as int);
    }
    while requested < piece_dl.piece_length
        invariant_except_break
            requested < piece_dl.piece_length ==> blocks@.len() < num_requests(
                inflight as int,
                left,
            ),
        invariant
            piece_dl.requested <= requested <= piece_dl.piece_length,
            left == piece_dl.unrequested(),
            (left - 1) * BLOCK_SIZE < piece_dl.piece_length - piece_dl.requested <= left
                * BLOCK_SIZE,
            blocks@ =~= piece_dl.next_blocks(piece_index, blocks@.len() as int),
            blocks@.len() <= num_requests(inflight as int, left),
            requested < piece_dl.piece_length ==> requested == piece_dl.requested + blocks@.len()
                * BLOCK_SIZE,
            requested == piece_dl.piece_length ==> blocks@.len() == left,
            inflight < MAX_INFLIGHT_PER_PEER ==> room == MAX_INFLIGHT_PER_PEER - inflight
                - blocks@.len(),
            inflight >= MAX_INFLIGHT_PER_PEER ==> room == 0,
        ensures
            blocks@.len() == num_requests(inflight as int, left),
        decreases piece_dl.piece_length - requested,
    {
        let mut block_len: u32 = piece_dl.piece_length - requested;
        if block_len > BLOCK_SIZE {
            block_len = BLOCK_SIZE;
        }
        let ghost before = blocks@;
        blocks.push(BlockDownload { piece_index, block_begin: requested, block_len });
        assert(blocks@.last() == piece_dl.block_at(
            piece_index,
            piece_dl.requested + before.len() * BLOCK_SIZE,
        ));
        requested += block_len;
        if room > 0 {
            room -= 1;
            if room == 0 {
                break;
            }
        }
    }
    blocks
}

/// Whether a piece is the one with the given digest.
pub fn validate_piece(piece: &[u8], hash: [u8; 20]) -> (valid: bool)
    ensures
        valid == (sha1_digest(piece@) == hash@),
{
    let piece_hash = sha1(piece);
    let mut i: usize = 0;
    while i < 20
        invariant
            i <= 20,
            piece_hash@ == sha1_digest(piece@),
            forall|j: int| 0 <= j < i ==> piece_hash@[j] == hash@[j],
        decreases 20 - i,
    {
        if piece_hash[i] != hash[i] {
            return false;
        }
        i += 1;
    }
    assert(piece_hash@ =~= hash@);
    true
}

/// Puts `new` in the place of the bytes from `begin` to `end`.
pub(crate) fn splice(bytes: &mut Vec<u8>, begin: usize, end: usize, new: Vec<u8>)
    requires
        begin <= end <= old(bytes)@.len(),
    ensures
        final(bytes)@ == old(bytes)@.take(begin as int) + new@ + old(bytes)@.skip(end as int),
{
    let ghost before = bytes@;
    if new.len() == end - begin {
        let mut i: usize = 0;
        while i < new.len()
            invariant
                begin <= end <= bytes@.len() == before.len(),
                i <= new@.len() == end - begin,
                forall|j: int| begin <= j < begin + i ==> bytes@[j] == new@[j - begin],
                forall|j: int| 0 <= j < begin ==> bytes@[j] == before[j],
                forall|j: int| begin + i <= j < bytes@.len() ==> bytes@[j] == before[j],
            decreases new@.len() - i,
        {
            bytes[begin + i] = new[i];
            i += 1;
        }
    } else {
        let mut new = new;
        let mut tail = bytes.split_off(end);
        bytes.truncate(begin);
        bytes.append(&mut new);
        bytes.append(&mut tail);
    }
    assert(bytes@ =~= before.take(begin as int) + new@ + before.skip(end as int));
}

/// The blocks to ask for follow each other from the first byte that has not been asked for, 16 KiB
/// each but for the last of the piece. Below five open requests, there are as many as make five, or
/// as are left; from five on, all that are left.
pub proof fn law_blocks_to_ask_for(piece: PieceDownload, index: u32, inflight: int)
    requires
        piece.requested <= piece.piece_length,
        0 <= inflight,
    ensures
        ({
            let left = piece.piece_length - piece.requested;
            let blocks = piece.next_blocks(index, num_requests(inflight, piece.unrequested()));
            &&& inflight < 5 ==> blocks.len() <= 5 - inflight
            &&& inflight >= 5 || blocks.len() < 5 - inflight ==> (blocks.len() - 1) * 0x4000 < left
                <= blocks.len() * 0x4000
            &&& left > 0 ==> blocks.len() > 0
            &&& forall|k: int|
                0 <= k < blocks.len() ==> {
                    let block = #[trigger] blocks[k];
                    &&& block.piece_index == index
                    &&& block.block_begin == piece.requested + k * 0x4000
                    &&& 0 < block.block_len <= 0x4000
                    &&& block.block_begin + block.block_len <= piece.piece_length
                    &&& block.block_len < 0x4000 ==> block.block_begin + block.block_len
                        == piece.piece_length
                }
        }),
{
    let left = piece.piece_length - piece.requested;
    lemma_parts(left, 0x4000);
    let n = num_requests(inflight, piece.unrequested());
    let blocks = piece.next_blocks(index, n);
    assert forall|k: int| 0 <= k < blocks.len() implies {
        let block = #[trigger] blocks[k];
        &&& block.piece_index == index
        &&& block.block_begin == piece.requested + k * 0x4000
        &&& 0 < block.block_len <= 0x4000
        &&& block.block_begin + block.block_len <= piece.piece_length
        &&& block.block_len < 0x4000 ==> block.block_begin + block.block_len == piece.piece_length
    } by {
        assert(blocks[k] == piece.block_at(index, piece.requested + k * BLOCK_SIZE));
    }
}

/// The number of blocks is the least that holds all bytes at 16 KiB each.
pub proof fn law_number_of_blocks(len: int)
    requires
        len >= 0,
    ensures
        (num_blocks(len) - 1) * 0x4000 < len <= num_blocks(len) * 0x4000,
{
    lemma_parts(len, 0x4000);
}

/// A block that arrives takes its place in the piece and counts down what is still to come.
pub proof fn law_block_takes_its_place(
    after: PieceDownload,
    before: PieceDownload,
    begin: int,
    block: Seq<u8>,
    i: int,
)
    requires
        after.is_after_block(before, begin, block),
        0 <= begin,
        begin + block.len() <= before.bytes@.len(),
        0 <= i < before.bytes@.len(),
    ensures
        after.piece_hash == before.piece_hash,
        after.piece_length == before.piece_length,
        after.requested == before.requested,
        after.remaining_blocks == before.remaining_blocks - 1,
        after.bytes@.len() == before.bytes@.len(),
        after.bytes@[i] == if begin <= i < begin + block.len() {
            block[i - begin]
        } else {
            before.bytes@[i]
        },
{
}

} // verus!
