//! What holds of the download from a seed as a whole.

use vstd::prelude::*;

use super::piece::{
    law_blocks_to_ask_for, num_blocks, num_requests, BlockDownload, PieceDownload, BLOCK_SIZE,
    MAX_INFLIGHT_PER_PEER,
};
use super::seed::{
    after_request, in_turn, is_order_of, lemma_count_none, lemma_count_remove, lemma_next_request,
    planned, SeedDownloader,
};
use crate::bencode::meta_info::lemma_parts;

verus! {

/// A sound download accepts every block that can come in a message.
pub proof fn law_sound_receives(dl: SeedDownloader, index: u32, begin: u32, len: nat)
    requires
        dl.sound(),
        len <= u32::MAX,
    ensures
        dl.can_receive(index, begin, len),
{
    let block = SeedDownloader::block_of(index, begin, len);
    if dl.blocks().contains(block) && dl.pending_pieces@.contains_key(index) {
        let i = choose|i: int|
            0 <= i < dl.pending_blocks@.len() && dl.pending_blocks@[i] == block;
        assert(dl.pending_blocks@[i].piece_index == index);
        assert(dl.tracks(index, dl.pending_pieces@[index]));
    }
}

/// A sound download accepts being choked.
pub proof fn law_sound_chokes(dl: SeedDownloader)
    requires
        dl.sound(),
    ensures
        dl.can_choke(),
{
    assert forall|index: u32| #[trigger]
        dl.pending_pieces@.contains_key(index) implies dl.pending_pieces@[index].piece_length
        + BLOCK_SIZE - 1 <= u32::MAX by {
        assert(dl.tracks(index, dl.pending_pieces@[index]));
        lemma_parts(dl.pending_pieces@[index].piece_length as int, BLOCK_SIZE as int);
    }
}

/// In a sound download no piece has had too much asked for.
pub proof fn law_sound_plans(dl: SeedDownloader)
    requires
        dl.sound(),
    ensures
        dl.can_request(),
{
    assert forall|i: u32| #[trigger]
        dl.pending_pieces@.contains_key(i) implies dl.pending_pieces@[i].requested
        <= dl.pending_pieces@[i].piece_length by {
        assert(dl.tracks(i, dl.pending_pieces@[i]));
    }
}

/// In a sound download the next block of a piece has not been asked for.
pub proof fn law_sound_requests(dl: SeedDownloader, index: u32)
    requires
        dl.sound(),
        dl.inflight < u8::MAX,
        dl.pending_pieces@.contains_key(index),
        dl.pending_pieces@[index].requested < dl.pending_pieces@[index].piece_length,
    ensures
        dl.can_add(
            dl.pending_pieces@[index],
            dl.pending_pieces@[index].block_at(
                index,
                dl.pending_pieces@[index].requested as int,
            ),
        ),
{
    let piece = dl.pending_pieces@[index];
    let block = piece.block_at(index, piece.requested as int);
    assert(dl.tracks(index, piece));
    if dl.blocks().contains(block) {
        let i = choose|i: int|
            0 <= i < dl.pending_blocks@.len() && dl.pending_blocks@[i] == block;
        assert(dl.pending_blocks@[i].piece_index == index);
    }
}

/// A piece that has just been picked can be added to a download, unless blocks of it are left from
/// an earlier attempt or it has more blocks than can be counted.
pub proof fn law_new_piece_is_tracked(dl: SeedDownloader, index: u32, piece: PieceDownload)
    requires
        forall|i: int|
            0 <= i < dl.pending_blocks@.len() ==> (#[trigger] dl.pending_blocks@[i]).piece_index
                != index,
        index < dl.torrent_info.pieces.0@.len(),
        dl.is_new(index, piece),
        0 < piece.piece_length,
        num_blocks(piece.piece_length as int) <= u16::MAX,
    ensures
        dl.tracks(index, piece),
{
    lemma_count_none(dl.pending_blocks@, index);
    lemma_parts(piece.piece_length as int, BLOCK_SIZE as int);
}

/// The blocks to ask for follow each other: once the first has been asked for, the others are the
/// next ones.
pub proof fn law_requests_follow(piece: PieceDownload, index: u32, n: int)
    requires
        piece.requested <= piece.piece_length,
        0 < n <= piece.unrequested(),
    ensures
        piece.requested < piece.piece_length,
        piece.next_blocks(index, n)[0] == piece.block_at(index, piece.requested as int),
        ({
            let first = piece.block_at(index, piece.requested as int);
            let next = PieceDownload {
                requested: (piece.requested + first.block_len) as u32,
                ..piece
            };
            &&& next.unrequested() == piece.unrequested() - 1
            &&& piece.next_blocks(index, n).skip(1) == next.next_blocks(index, n - 1)
        }),
{
    lemma_parts(piece.piece_length - piece.requested, BLOCK_SIZE as int);
    lemma_next_request(piece);
    let first = piece.block_at(index, piece.requested as int);
    let next = PieceDownload {
        requested: (piece.requested + first.block_len) as u32,
        ..piece
    };
    assert(piece.next_blocks(index, n).skip(1) =~= next.next_blocks(index, n - 1));
}

/// While requests are open for all the blocks of every piece but one, no more blocks are asked for
/// than the limit allows, and fewer only where no block is left to ask for.
pub proof fn law_limit_is_kept(
    pieces: Map<u32, PieceDownload>,
    order: Seq<u32>,
    inflight: int,
    at: int,
)
    requires
        0 <= inflight < MAX_INFLIGHT_PER_PEER,
        0 <= at < order.len(),
        pieces[order[at]].requested <= pieces[order[at]].piece_length,
        forall|i: int|
            0 <= i < order.len() && i != at ==> pieces[#[trigger] order[i]].requested
                == pieces[order[i]].piece_length,
    ensures
        planned(pieces, order, inflight) == pieces[order[at]].next_blocks(
            order[at],
            num_requests(inflight, pieces[order[at]].unrequested()),
        ),
        inflight + planned(pieces, order, inflight).len() <= MAX_INFLIGHT_PER_PEER,
        inflight + planned(pieces, order, inflight).len() < MAX_INFLIGHT_PER_PEER ==> planned(
            pieces,
            order,
            inflight,
        ).len() == pieces[order[at]].unrequested(),
{
    lemma_planned_in_full(pieces, order.take(at), inflight);
    lemma_planned_one(pieces, order, inflight, at, order.len() as int);
    assert(order.take(order.len() as int) =~= order);
    lemma_parts(
        pieces[order[at]].piece_length - pieces[order[at]].requested,
        BLOCK_SIZE as int,
    );
}

pub(crate) proof fn lemma_planned_in_full(
    pieces: Map<u32, PieceDownload>,
    order: Seq<u32>,
    inflight: int,
)
    requires
        forall|i: int|
            0 <= i < order.len() ==> pieces[#[trigger] order[i]].requested
                == pieces[order[i]].piece_length,
    ensures
        planned(pieces, order, inflight) == Seq::<BlockDownload>::empty(),
    decreases order.len(),
{
    if order.len() > 0 {
        assert forall|i: int| 0 <= i < order.drop_last().len() implies pieces[
            #[trigger] order.drop_last()[i]].requested
            == pieces[order.drop_last()[i]].piece_length by {
            assert(order.drop_last()[i] == order[i]);
        }
        lemma_planned_in_full(pieces, order.drop_last(), inflight);
        assert(order.last() == order[order.len() - 1]);
        lemma_parts(0, BLOCK_SIZE as int);
        assert(planned(pieces, order, inflight) =~= Seq::<BlockDownload>::empty());
    }
}

proof fn lemma_planned_one(
    pieces: Map<u32, PieceDownload>,
    order: Seq<u32>,
    inflight: int,
    at: int,
    n: int,
)
    requires
        0 <= at < n <= order.len(),
        planned(pieces, order.take(at), inflight) == Seq::<BlockDownload>::empty(),
        forall|i: int|
            0 <= i < order.len() && i != at ==> pieces[#[trigger] order[i]].requested
                == pieces[order[i]].piece_length,
    ensures
        planned(pieces, order.take(n), inflight) == pieces[order[at]].next_blocks(
            order[at],
            num_requests(inflight, pieces[order[at]].unrequested()),
        ),
    decreases n,
{
    let before = order.take(n - 1);
    assert(order.take(n).drop_last() =~= before);
    assert(order.take(n).last() == order[n - 1]);
    let expected = pieces[order[at]].next_blocks(
        order[at],
        num_requests(inflight, pieces[order[at]].unrequested()),
    );
    if n == at + 1 {
        assert(planned(pieces, order.take(n), inflight) =~= expected);
    } else {
        lemma_planned_one(pieces, order, inflight, at, n - 1);
        lemma_parts(0, BLOCK_SIZE as int);
        assert(pieces[order[n - 1]].unrequested() == 0);
        assert(planned(pieces, order.take(n), inflight) =~= expected);
    }
}

/// Whatever the order, the blocks to ask for can be asked for one after the other.
pub proof fn law_plan_is_in_turn(pieces: Map<u32, PieceDownload>, order: Seq<u32>, inflight: int)
    requires
        order.no_duplicates(),
        forall|i: int|
            0 <= i < order.len() ==> pieces.contains_key(#[trigger] order[i])
                && pieces[order[i]].requested <= pieces[order[i]].piece_length,
    ensures
        in_turn(pieces, planned(pieces, order, inflight)),
{
    lemma_planned_in_turn(pieces, order, inflight);
}

/// A block that comes next in turn can be asked for in a sound download.
pub proof fn law_next_in_turn_can_be_added(dl: SeedDownloader, blocks: Seq<BlockDownload>)
    requires
        dl.sound(),
        blocks.len() > 0,
        in_turn(dl.pending_pieces@, blocks),
        dl.inflight < u8::MAX,
    ensures
        dl.pending_pieces@.contains_key(blocks[0].piece_index),
        dl.can_add(dl.pending_pieces@[blocks[0].piece_index], blocks[0]),
        in_turn(after_request(dl.pending_pieces@, blocks[0]), blocks.skip(1)),
{
    law_sound_requests(dl, blocks[0].piece_index);
}

/// The pieces when several blocks have been asked for.
spec fn after_requests(
    pieces: Map<u32, PieceDownload>,
    blocks: Seq<BlockDownload>,
) -> Map<u32, PieceDownload>
    decreases blocks.len(),
{
    if blocks.len() == 0 {
        pieces
    } else {
        after_requests(after_request(pieces, blocks[0]), blocks.skip(1))
    }
}

proof fn lemma_in_turn_concat(
    pieces: Map<u32, PieceDownload>,
    a: Seq<BlockDownload>,
    b: Seq<BlockDownload>,
)
    requires
        in_turn(pieces, a),
        in_turn(after_requests(pieces, a), b),
    ensures
        in_turn(pieces, a + b),
        after_requests(pieces, a + b) == after_requests(after_requests(pieces, a), b),
    decreases a.len(),
{
    if a.len() == 0 {
        assert(a + b =~= b);
    } else {
        lemma_in_turn_concat(after_request(pieces, a[0]), a.skip(1), b);
        assert((a + b).skip(1) =~= a.skip(1) + b);
    }
}

/// The next blocks of a piece can be asked for one after the other, which leaves the other pieces
/// as they are.
proof fn lemma_next_blocks_in_turn(pieces: Map<u32, PieceDownload>, index: u32, n: int)
    requires
        pieces.contains_key(index),
        pieces[index].requested <= pieces[index].piece_length,
        0 <= n <= pieces[index].unrequested(),
    ensures
        in_turn(pieces, pieces[index].next_blocks(index, n)),
        after_requests(pieces, pieces[index].next_blocks(index, n)).dom() == pieces.dom(),
        forall|i: u32|
            i != index ==> #[trigger] after_requests(
                pieces,
                pieces[index].next_blocks(index, n),
            )[i] == pieces[i],
    decreases n,
{
    let piece = pieces[index];
    let blocks = piece.next_blocks(index, n);
    if n > 0 {
        law_requests_follow(piece, index, n);
        lemma_next_request(piece);
        let next = after_request(pieces, blocks[0]);
        lemma_next_blocks_in_turn(next, index, n - 1);
        assert(next.dom() =~= pieces.dom());
    }
}

proof fn lemma_planned_in_turn(pieces: Map<u32, PieceDownload>, order: Seq<u32>, inflight: int)
    requires
        order.no_duplicates(),
        forall|i: int|
            0 <= i < order.len() ==> pieces.contains_key(#[trigger] order[i])
                && pieces[order[i]].requested <= pieces[order[i]].piece_length,
    ensures
        in_turn(pieces, planned(pieces, order, inflight)),
        after_requests(pieces, planned(pieces, order, inflight)).dom() == pieces.dom(),
        forall|i: u32|
            !order.contains(i) ==> #[trigger] after_requests(
                pieces,
                planned(pieces, order, inflight),
            )[i] == pieces[i],
    decreases order.len(),
{
    if order.len() > 0 {
        let init = order.drop_last();
        let last = order.last();
        assert forall|i: int| 0 <= i < init.len() implies pieces.contains_key(#[trigger] init[i])
            && pieces[init[i]].requested <= pieces[init[i]].piece_length by {
            assert(init[i] == order[i]);
        }
        assert(last == order[order.len() - 1]);
        lemma_planned_in_turn(pieces, init, inflight);
        let before = planned(pieces, init, inflight);
        let middle = after_requests(pieces, before);
        assert(!init.contains(last)) by {
            if init.contains(last) {
                let i = choose|i: int| 0 <= i < init.len() && init[i] == last;
                assert(order[i] == order[order.len() - 1]);
            }
        }
        assert(middle[last] == pieces[last]);
        let piece = pieces[last];
        let n = num_requests(inflight + before.len(), piece.unrequested());
        lemma_parts(piece.piece_length - piece.requested, BLOCK_SIZE as int);
        lemma_next_blocks_in_turn(middle, last, n);
        lemma_in_turn_concat(pieces, before, piece.next_blocks(last, n));
        assert forall|i: u32| !order.contains(i) implies #[trigger] after_requests(
            pieces,
            planned(pieces, order, inflight),
        )[i] == pieces[i] by {
            if init.contains(i) {
                let k = choose|k: int| 0 <= k < init.len() && init[k] == i;
                assert(order[k] == i);
            }
            assert(order[order.len() - 1] == last);
            assert(i != last);
        }
    }
}

/// A piece is complete only when all of its blocks have been asked for and none but the one that
/// arrives is still to come.
pub proof fn law_last_block_completes(dl: SeedDownloader, block: BlockDownload)
    requires
        dl.sound(),
        dl.blocks().contains(block),
        dl.pending_pieces@.contains_key(block.piece_index),
        dl.pending_pieces@[block.piece_index].remaining_blocks == 1,
    ensures
        dl.pending_pieces@[block.piece_index].requested
            == dl.pending_pieces@[block.piece_index].piece_length,
        forall|b: BlockDownload|
            dl.blocks().contains(b) && b.piece_index == block.piece_index ==> b == block,
{
    let index = block.piece_index;
    let piece = dl.pending_pieces@[index];
    let blocks = dl.pending_blocks@;
    let at = choose|at: int| 0 <= at < blocks.len() && blocks[at] == block;
    assert(dl.tracks(index, piece));
    lemma_count_remove(blocks, at, index);
    lemma_parts(piece.piece_length - piece.requested, BLOCK_SIZE as int);
    assert forall|b: BlockDownload|
        dl.blocks().contains(b) && b.piece_index == index implies b == block by {
        let i = choose|i: int| 0 <= i < blocks.len() && blocks[i] == b;
        if i != at {
            let j = if i < at {
                i
            } else {
                i - 1
            };
            assert(blocks.remove(at)[j] == b);
            lemma_count_remove(blocks.remove(at), j, index);
        }
    }
}

/// The pieces are gone through one after the other, and each is asked for as many blocks as the
/// requests that are open by then leave room for, in the order of the blocks.
pub proof fn law_plan_goes_from_piece_to_piece(
    pieces: Map<u32, PieceDownload>,
    order: Seq<u32>,
    index: u32,
    inflight: int,
)
    requires
        0 <= inflight,
        pieces[index].requested <= pieces[index].piece_length,
    ensures
        planned(pieces, seq![], inflight).len() == 0,
        ({
            let before = planned(pieces, order, inflight);
            let after = planned(pieces, order.push(index), inflight);
            let left = pieces[index].piece_length - pieces[index].requested;
            let n = after.len() - before.len();
            &&& n >= 0
            &&& after.take(before.len() as int) == before
            &&& inflight + before.len() < 5 ==> n <= 5 - inflight - before.len()
            &&& inflight + before.len() >= 5 || inflight + after.len() < 5 ==> (n - 1) * 0x4000
                < left <= n * 0x4000
            &&& forall|k: int|
                before.len() <= k < after.len() ==> {
                    let block = #[trigger] after[k];
                    &&& block.piece_index == index
                    &&& block.block_begin == pieces[index].requested + (k - before.len()) * 0x4000
                    &&& 0 < block.block_len <= 0x4000
                    &&& block.block_begin + block.block_len <= pieces[index].piece_length
                    &&& block.block_len < 0x4000 ==> block.block_begin + block.block_len
                        == pieces[index].piece_length
                }
        }),
{
    let before = planned(pieces, order, inflight);
    let after = planned(pieces, order.push(index), inflight);
    assert(order.push(index).drop_last() =~= order);
    law_blocks_to_ask_for(pieces[index], index, inflight + before.len());
    let more = pieces[index].next_blocks(
        index,
        num_requests(inflight + before.len(), pieces[index].unrequested()),
    );
    assert(after == before + more);
    assert(after.take(before.len() as int) =~= before);
    assert forall|k: int| before.len() <= k < after.len() implies {
        let block = #[trigger] after[k];
        &&& block.piece_index == index
        &&& block.block_begin == pieces[index].requested + (k - before.len()) * 0x4000
        &&& 0 < block.block_len <= 0x4000
        &&& block.block_begin + block.block_len <= pieces[index].piece_length
        &&& block.block_len < 0x4000 ==> block.block_begin + block.block_len
            == pieces[index].piece_length
    } by {
        assert(after[k] == more[k - before.len()]);
    }
}

/// The blocks to ask for come of going through all the pieces that are being downloaded, each once.
/// There are none while the peer chokes us.
pub proof fn law_plan_is_of_all_pieces(dl: SeedDownloader, blocks: Seq<BlockDownload>)
    requires
        dl.is_plan(blocks),
    ensures
        dl.choked_us ==> blocks.len() == 0,
        !dl.choked_us ==> exists|order: Seq<u32>|
            order.no_duplicates() && (forall|i: u32| #[trigger]
                order.contains(i) <==> dl.pending_pieces@.contains_key(i)) && blocks
                == #[trigger] planned(dl.pending_pieces@, order, dl.inflight as int),
{
    if !dl.choked_us {
        let pieces = dl.pending_pieces@;
        let inflight = dl.inflight as int;
        let order = choose|order: Seq<u32>|
            is_order_of(order, pieces) && blocks == #[trigger] planned(pieces, order, inflight);
        assert forall|i: u32| #[trigger] order.contains(i) <==> pieces.contains_key(i) by {
            assert(order.to_set().contains(i) == order.contains(i));
        }
    }
}

} // verus!
