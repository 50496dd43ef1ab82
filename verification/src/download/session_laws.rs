//! What the exchange with a seed does on every event.

use vstd::prelude::*;

use super::bitfield::{lemma_with_piece, Bitfield};
use super::file::DownloaderMsg;
use super::laws::{law_plan_is_in_turn, lemma_planned_in_full};
use super::peer_msg::Message;
use super::piece::{BlockDownload, PieceDownload, BLOCK_SIZE};
use super::seed::{is_order_of, planned, SeedDownloader, SeedError};
use super::session::{Action, Event, Phase, Session, Turn};
use crate::bencode::meta_info::lemma_parts;
use crate::digest::sha1_digest;
use crate::tracker::peers::Address;

verus! {

/// Whether a step has left the download and the bitfield as they were, and goes on by itself in
/// `phase`.
pub open spec fn just_goes_to(
    turn: Turn,
    before: Session,
    own: Bitfield,
    own_before: Bitfield,
    phase: Phase,
) -> bool {
    &&& turn.session.dl == before.dl
    &&& own == own_before
    &&& turn.session.phase == phase
    &&& turn.action == Action::Proceed
}

/// The seed is reported as gone only when its stream has ended, and the exchange is over only after
/// that or when nothing remains to be downloaded. Until then it stays with the seed, whatever the
/// seed sends.
pub proof fn law_seed_is_left_only_when_gone(
    turn: Turn,
    before: Session,
    own: Bitfield,
    own_before: Bitfield,
    event: Event,
)
    requires
        turn.comes_of(before, own, own_before, event),
    ensures
        turn.session.address == before.address,
        turn.session.phase is Leaving <==> before.phase is Idle && event is Ended,
        turn.session.phase is Leaving <==> turn.action == Action::Report(
            DownloaderMsg::Disconnect(before.address),
        ),
        forall|address: Address|
            turn.action == Action::Report(DownloaderMsg::Disconnect(address)) ==> address
                == before.address && event is Ended,
        turn.session.phase is Stopped <==> turn.action == Action::Stop,
        turn.session.phase is Stopped <==> before.phase is Leaving || (before.phase is Checking
            && own_before.num_remaining() == 0),
        before.phase is Checking || before.phase is Leaving ==> turn.session.dl == before.dl && own
            == own_before,
        before.phase is Checking && own_before.num_remaining() != 0 ==> turn.session.phase is Idle
            && turn.action == Action::Wait,
        before.phase is Idle && event is Ended ==> turn.session.dl == before.dl && own
            == own_before,
        turn.error is Some ==> before.phase is Idle && event is Received,
{
}

/// A stream that cannot be read for once, and a message that asks for nothing, change nothing: the
/// exchange goes on with the same seed.
pub proof fn law_quiet_messages_change_nothing(
    turn: Turn,
    before: Session,
    own: Bitfield,
    own_before: Bitfield,
    event: Event,
)
    requires
        turn.comes_of(before, own, own_before, event),
        before.phase is Idle,
        match event {
            Event::Failed => true,
            Event::Received(Message::KeepAlive) => true,
            Event::Received(Message::Have { .. }) => true,
            Event::Received(Message::Interested) => true,
            Event::Received(Message::NotInterested) => true,
            _ => false,
        },
    ensures
        just_goes_to(turn, before, own, own_before, Phase::Checking),
        turn.error is None,
{
}

/// A bitfield that comes late is an error, and changes nothing.
pub proof fn law_late_bitfield_is_an_error(
    turn: Turn,
    before: Session,
    own: Bitfield,
    own_before: Bitfield,
    event: Event,
)
    requires
        turn.comes_of(before, own, own_before, event),
        before.phase is Idle,
        event matches Event::Received(Message::Bitfield(_)),
    ensures
        just_goes_to(turn, before, own, own_before, Phase::Checking),
        turn.error == Some(SeedError::BitfieldOutOfOrder),
{
}

/// When nothing has come for long, a keep-alive is sent, and whether or not that worked, the
/// exchange goes on.
pub proof fn law_keep_alive_is_sent(
    turn: Turn,
    before: Session,
    own: Bitfield,
    own_before: Bitfield,
    event: Event,
)
    requires
        turn.comes_of(before, own, own_before, event),
    ensures
        before.phase is Idle && event is KeepAliveDue ==> {
            &&& turn.session.dl == before.dl
            &&& own == own_before
            &&& turn.session.phase is KeepingAlive
            &&& turn.action == Action::Send(Message::KeepAlive)
        },
        turn.session.phase is KeepingAlive ==> event is KeepAliveDue,
        turn.action == Action::Send(Message::KeepAlive) ==> event is KeepAliveDue,
        before.phase is KeepingAlive ==> just_goes_to(
            turn,
            before,
            own,
            own_before,
            Phase::Checking,
        ),
{
}

/// Once the seed unchokes us, blocks are asked for; that it does so again changes nothing.
pub proof fn law_unchoke_lets_us_ask(
    turn: Turn,
    before: Session,
    own: Bitfield,
    own_before: Bitfield,
)
    requires
        turn.comes_of(before, own, own_before, Event::Received(Message::Unchoke)),
        before.phase is Idle,
    ensures
        own == own_before,
        turn.error is None,
        turn.action == Action::Proceed,
        !turn.session.dl.choked_us,
        turn.session.dl.inflight == before.dl.inflight,
        turn.session.dl.pending_pieces == before.dl.pending_pieces,
        turn.session.dl.pending_blocks == before.dl.pending_blocks,
        turn.session.dl.torrent_info == before.dl.torrent_info,
        before.dl.choked_us ==> turn.session.phase is Asking,
        !before.dl.choked_us ==> turn.session.phase is Checking,
{
}

/// When the seed chokes us, no block is awaited any more, and every piece is to be asked for from
/// its first byte on; what has arrived of it stays in place.
pub proof fn law_choke_starts_over(
    turn: Turn,
    before: Session,
    own: Bitfield,
    own_before: Bitfield,
    index: u32,
)
    requires
        turn.comes_of(before, own, own_before, Event::Received(Message::Choke)),
        before.phase is Idle,
    ensures
        own == own_before,
        turn.error is None,
        turn.action == Action::Proceed,
        turn.session.phase is Checking,
        turn.session.dl.choked_us,
        turn.session.dl.inflight == before.dl.inflight,
        turn.session.dl.torrent_info == before.dl.torrent_info,
        turn.session.dl.pending_blocks@.len() == 0,
        turn.session.dl.pending_pieces@.contains_key(index)
            == before.dl.pending_pieces@.contains_key(index),
        before.dl.pending_pieces@.contains_key(index) ==> {
            let was = before.dl.pending_pieces@[index];
            let is = turn.session.dl.pending_pieces@[index];
            &&& is.requested == 0
            &&& is.piece_length == was.piece_length
            &&& is.piece_hash == was.piece_hash
            &&& is.bytes == was.bytes
            &&& is.remaining_blocks == ((was.piece_length + 0x3fff) / 0x4000) as u16
            &&& was.piece_length <= 0xffff * 0x4000 ==> (is.remaining_blocks - 1) * 0x4000
                < was.piece_length <= is.remaining_blocks * 0x4000
        },
{
    if before.dl.pending_pieces@.contains_key(index) {
        lemma_parts(before.dl.pending_pieces@[index].piece_length as int, 0x4000);
    }
    let blocks = turn.session.dl.pending_blocks@;
    if blocks.len() > 0 {
        assert(blocks.to_set().contains(blocks[0]));
    }
}

/// A block that has not been asked for is an error, and changes nothing.
pub proof fn law_unrequested_block_is_an_error(
    turn: Turn,
    before: Session,
    own: Bitfield,
    own_before: Bitfield,
    index: u32,
    begin: u32,
    block: Vec<u8>,
)
    requires
        turn.comes_of(
            before,
            own,
            own_before,
            Event::Received(Message::Piece { index, begin, block }),
        ),
        before.phase is Idle,
        block@.len() <= u32::MAX,
        !before.dl.pending_blocks@.contains(
            BlockDownload {
                piece_index: index,
                block_begin: begin,
                block_len: block@.len() as u32,
            },
        ),
    ensures
        just_goes_to(turn, before, own, own_before, Phase::Checking),
        turn.error == Some(SeedError::UnrequestedBlock),
{
}

/// A block that has been asked for is awaited no more. Where its piece has been given up, that is
/// all, and an error.
pub proof fn law_block_of_no_piece_is_an_error(
    turn: Turn,
    before: Session,
    own: Bitfield,
    own_before: Bitfield,
    index: u32,
    begin: u32,
    block: Vec<u8>,
)
    requires
        turn.comes_of(
            before,
            own,
            own_before,
            Event::Received(Message::Piece { index, begin, block }),
        ),
        before.phase is Idle,
        block@.len() <= u32::MAX,
        before.dl.pending_blocks@.contains(
            BlockDownload {
                piece_index: index,
                block_begin: begin,
                block_len: block@.len() as u32,
            },
        ),
    ensures
        turn.session.dl.torrent_info == before.dl.torrent_info,
        turn.session.dl.choked_us == before.dl.choked_us,
        forall|b: BlockDownload| #[trigger]
            turn.session.dl.pending_blocks@.contains(b) <==> before.dl.pending_blocks@.contains(b)
                && !(b.piece_index == index && b.block_begin == begin && b.block_len
                == block@.len()),
        !before.dl.pending_pieces@.contains_key(index) ==> {
            &&& own == own_before
            &&& turn.session.dl.inflight == before.dl.inflight
            &&& turn.session.dl.pending_pieces@ == before.dl.pending_pieces@
            &&& turn.error == Some(SeedError::UnrequestedPiece { index })
            &&& turn.session.phase is Checking
            &&& turn.action == Action::Proceed
        },
{
    let asked = BlockDownload {
        piece_index: index,
        block_begin: begin,
        block_len: block@.len() as u32,
    };
    assert(before.dl.pending_blocks@.to_set().contains(asked));
    let dl = turn.session.dl;
    assert forall|b: BlockDownload| #[trigger]
        dl.pending_blocks@.contains(b) <==> before.dl.pending_blocks@.contains(b) && !(b.piece_index
            == index && b.block_begin == begin && b.block_len == block@.len()) by {
        assert(dl.pending_blocks@.contains(b) == dl.blocks().contains(b));
        assert(before.dl.pending_blocks@.contains(b) == before.dl.blocks().contains(b));
    }
}

/// The bytes of a piece with a block in its place.
pub open spec fn is_with_block(
    is: Seq<u8>,
    was: Seq<u8>,
    begin: int,
    block: Seq<u8>,
) -> bool {
    &&& is.len() == was.len()
    &&& forall|i: int|
        0 <= i < was.len() ==> #[trigger] is[i] == if begin <= i < begin + block.len() {
            block[i - begin]
        } else {
            was[i]
        }
}

/// A block that is not the last of its piece is put in its place, and more blocks are asked for.
pub proof fn law_block_is_put_in_place(
    turn: Turn,
    before: Session,
    own: Bitfield,
    own_before: Bitfield,
    index: u32,
    begin: u32,
    block: Vec<u8>,
)
    requires
        turn.comes_of(
            before,
            own,
            own_before,
            Event::Received(Message::Piece { index, begin, block }),
        ),
        before.phase is Idle,
        block@.len() <= u32::MAX,
        before.dl.pending_blocks@.contains(
            BlockDownload {
                piece_index: index,
                block_begin: begin,
                block_len: block@.len() as u32,
            },
        ),
        before.dl.pending_pieces@.contains_key(index),
        before.dl.pending_pieces@[index].remaining_blocks > 1,
        begin + block@.len() <= before.dl.pending_pieces@[index].bytes@.len(),
    ensures
        own == own_before,
        turn.error is None,
        turn.session.phase is Asking,
        turn.action == Action::Proceed,
        turn.session.dl.inflight == before.dl.inflight - 1,
        turn.session.dl.pending_pieces@.dom() == before.dl.pending_pieces@.dom(),
        forall|i: u32|
            i != index ==> #[trigger] turn.session.dl.pending_pieces@[i]
                == before.dl.pending_pieces@[i],
        ({
            let was = before.dl.pending_pieces@[index];
            let is = turn.session.dl.pending_pieces@[index];
            &&& is.remaining_blocks == was.remaining_blocks - 1
            &&& is.requested == was.requested
            &&& is.piece_length == was.piece_length
            &&& is.piece_hash == was.piece_hash
            &&& is_with_block(is.bytes@, was.bytes@, begin as int, block@)
        }),
{
    let asked = BlockDownload {
        piece_index: index,
        block_begin: begin,
        block_len: block@.len() as u32,
    };
    assert(before.dl.pending_blocks@.to_set().contains(asked));
    assert(turn.session.dl.pending_pieces@.dom() =~= before.dl.pending_pieces@.dom());
}

/// The last block of a piece is put in its place, and the piece is taken off. It is owned and
/// handed on exactly where its digest is right; else nothing is owned that was not, and that is an
/// error.
pub proof fn law_last_block_settles_its_piece(
    turn: Turn,
    before: Session,
    own: Bitfield,
    own_before: Bitfield,
    index: u32,
    begin: u32,
    block: Vec<u8>,
    bytes: Seq<u8>,
)
    requires
        turn.comes_of(
            before,
            own,
            own_before,
            Event::Received(Message::Piece { index, begin, block }),
        ),
        before.phase is Idle,
        block@.len() <= u32::MAX,
        before.dl.pending_blocks@.contains(
            BlockDownload {
                piece_index: index,
                block_begin: begin,
                block_len: block@.len() as u32,
            },
        ),
        before.dl.pending_pieces@.contains_key(index),
        before.dl.pending_pieces@[index].remaining_blocks == 1,
        begin + block@.len() <= before.dl.pending_pieces@[index].bytes@.len(),
        index < 8 * own_before.piece_ownership@.len(),
        is_with_block(bytes, before.dl.pending_pieces@[index].bytes@, begin as int, block@),
    ensures
        turn.session.dl.inflight == before.dl.inflight - 1,
        turn.session.dl.pending_pieces@ == before.dl.pending_pieces@.remove(index),
        sha1_digest(bytes) == before.dl.pending_pieces@[index].piece_hash@ ==> {
            &&& turn.error is None
            &&& turn.session.phase is Delivering
            &&& turn.action matches Action::Report(
                DownloaderMsg::Piece { index: i, length, bytes: b },
            ) && i == index && b@ == bytes && length
                == before.dl.pending_pieces@[index].piece_length
            &&& own.total_pieces == own_before.total_pieces
            &&& own.cur == own_before.cur
            &&& own.piece_ownership@.len() == own_before.piece_ownership@.len()
            &&& forall|i: int|
                0 <= i < 8 * own_before.piece_ownership@.len() ==> (#[trigger] own.owns(i) == (
                own_before.owns(i) || i == index))
        },
        sha1_digest(bytes) != before.dl.pending_pieces@[index].piece_hash@ ==> {
            &&& own == own_before
            &&& turn.error == Some(SeedError::InvalidPiece)
            &&& turn.session.phase is Checking
            &&& turn.action == Action::Proceed
        },
{
    let asked = BlockDownload {
        piece_index: index,
        block_begin: begin,
        block_len: block@.len() as u32,
    };
    assert(before.dl.pending_blocks@.to_set().contains(asked));
    lemma_with_piece(own_before.piece_ownership@, index as int);
    let was = before.dl.pending_pieces@[index].bytes@;
    assert(bytes =~= was.take(begin as int) + block@ + was.skip(begin + block@.len()));
}

/// A piece is handed on only when its last block arrives, and afterwards more blocks are asked for,
/// unless nobody takes it.
pub proof fn law_after_delivery(
    turn: Turn,
    before: Session,
    own: Bitfield,
    own_before: Bitfield,
    ok: bool,
)
    requires
        turn.comes_of(before, own, own_before, Event::Done(ok)),
        before.phase is Delivering,
    ensures
        ok ==> just_goes_to(turn, before, own, own_before, Phase::Asking),
        !ok ==> just_goes_to(turn, before, own, own_before, Phase::Checking),
{
}

/// While blocks of some piece are left to ask for and the seed does not choke us, the next block of
/// such a piece is asked for, at most 16 KiB and not beyond the end of its piece. Else a new piece
/// may be started with.
pub proof fn law_next_block_is_asked_for(
    turn: Turn,
    before: Session,
    own: Bitfield,
    own_before: Bitfield,
)
    requires
        turn.comes_of(before, own, own_before, Event::Proceed),
        before.phase is Asking,
        before.dl.can_request(),
    ensures
        turn.session.dl == before.dl,
        own == own_before,
        ({
            let pieces = before.dl.pending_pieces@;
            let left = !before.dl.choked_us && exists|i: u32| #[trigger]
                pieces.contains_key(i) && pieces[i].requested < pieces[i].piece_length;
            if left {
                match turn.action {
                    Action::Send(Message::Request { index, begin, length }) => {
                        &&& turn.session.phase is Requesting
                        &&& pieces.contains_key(index)
                        &&& begin == pieces[index].requested < pieces[index].piece_length
                        &&& 0 < length <= 0x4000
                        &&& begin + length <= pieces[index].piece_length
                        &&& length < 0x4000 ==> begin + length == pieces[index].piece_length
                    },
                    _ => false,
                }
            } else {
                turn.session.phase is Picking && turn.action == Action::Proceed
            }
        }),
{
    let pieces = before.dl.pending_pieces@;
    let inflight = before.dl.inflight as int;
    if !before.dl.choked_us {
        let blocks = match turn.session.phase {
            Phase::Requesting { blocks, sent } => blocks@,
            _ => seq![],
        };
        assert(before.dl.is_plan(blocks));
        let order = choose|order: Seq<u32>|
            is_order_of(order, pieces) && blocks == #[trigger] planned(pieces, order, inflight);
        assert forall|i: int| 0 <= i < order.len() implies pieces.contains_key(#[trigger] order[i])
            && pieces[order[i]].requested <= pieces[order[i]].piece_length by {
            assert(order.to_set().contains(order[i]));
        }
        law_plan_is_in_turn(pieces, order, inflight);
        if exists|i: u32| #[trigger]
            pieces.contains_key(i) && pieces[i].requested < pieces[i].piece_length {
            let i = choose|i: u32| #[trigger]
                pieces.contains_key(i) && pieces[i].requested < pieces[i].piece_length;
            assert(order.to_set().contains(i));
            let at = choose|at: int| 0 <= at < order.len() && order[at] == i;
            lemma_plan_is_not_empty(pieces, order, inflight, at);
        } else {
            assert forall|i: int| 0 <= i < order.len() implies pieces[
                #[trigger] order[i]].requested == pieces[order[i]].piece_length by {
                assert(pieces.contains_key(order[i]));
            }
            lemma_planned_in_full(pieces, order, inflight);
        }
    }
}

proof fn lemma_plan_is_not_empty(
    pieces: Map<u32, PieceDownload>,
    order: Seq<u32>,
    inflight: int,
    at: int,
)
    requires
        0 <= at < order.len(),
        pieces[order[at]].requested < pieces[order[at]].piece_length,
        inflight >= 0,
    ensures
        planned(pieces, order, inflight).len() > 0,
    decreases order.len(),
{
    if at < order.len() - 1 {
        lemma_plan_is_not_empty(pieces, order.drop_last(), inflight, at);
    } else {
        lemma_parts(
            pieces[order[at]].piece_length - pieces[order[at]].requested,
            BLOCK_SIZE as int,
        );
    }
}

/// A block that has been asked for is awaited, its request is open, and its piece has that much
/// more asked for. The blocks that were found are asked for one after the other, and a new piece is
/// looked for after the last. Where a request cannot be sent, nothing changes and no more is asked
/// for.
pub proof fn law_request_is_noted(
    turn: Turn,
    before: Session,
    own: Bitfield,
    own_before: Bitfield,
    ok: bool,
    blocks: Vec<BlockDownload>,
    sent: usize,
)
    requires
        turn.comes_of(before, own, own_before, Event::Done(ok)),
        before.phase == (Phase::Requesting { blocks, sent }),
        before.valid(),
        ok ==> before.can_step(own_before, Event::Done(ok)),
    ensures
        own == own_before,
        !ok ==> just_goes_to(turn, before, own, own_before, Phase::Checking),
        ok ==> {
            let block = blocks@[sent as int];
            let was = before.dl.pending_pieces@[block.piece_index];
            let is = turn.session.dl.pending_pieces@[block.piece_index];
            &&& turn.session.dl.inflight == before.dl.inflight + 1
            &&& turn.session.dl.choked_us == before.dl.choked_us
            &&& turn.session.dl.torrent_info == before.dl.torrent_info
            &&& forall|b: BlockDownload| #[trigger]
                turn.session.dl.pending_blocks@.contains(b) <==> before.dl.pending_blocks@.contains(
                    b,
                ) || b == block
            &&& turn.session.dl.pending_pieces@.dom() == before.dl.pending_pieces@.dom()
            &&& forall|i: u32|
                i != block.piece_index ==> #[trigger] turn.session.dl.pending_pieces@[i]
                    == before.dl.pending_pieces@[i]
            &&& is.requested == was.requested + block.block_len
            &&& is.remaining_blocks == was.remaining_blocks
            &&& is.piece_length == was.piece_length
            &&& is.piece_hash == was.piece_hash
            &&& is.bytes == was.bytes
            &&& if sent + 1 < blocks@.len() {
                let next = blocks@[sent + 1];
                &&& turn.session.phase == (Phase::Requesting { blocks, sent: (sent + 1) as usize })
                &&& turn.action == Action::Send(
                    Message::Request {
                        index: next.piece_index,
                        begin: next.block_begin,
                        length: next.block_len,
                    },
                )
            } else {
                turn.session.phase is Picking && turn.action == Action::Proceed
            }
        },
{
    if ok {
        let block = blocks@[sent as int];
        let dl = turn.session.dl;
        assert(dl.pending_pieces@.dom() =~= before.dl.pending_pieces@.dom());
        lemma_awaited(dl, before.dl, block);
    }
}

proof fn lemma_awaited(dl: SeedDownloader, before: SeedDownloader, block: BlockDownload)
    requires
        dl.blocks() == before.blocks().insert(block),
    ensures
        forall|b: BlockDownload| #[trigger]
            dl.pending_blocks@.contains(b) <==> before.pending_blocks@.contains(b) || b == block,
{
    assert forall|b: BlockDownload| #[trigger]
        dl.pending_blocks@.contains(b) <==> before.pending_blocks@.contains(b) || b == block by {
        assert(dl.pending_blocks@.contains(b) == dl.blocks().contains(b));
        assert(before.pending_blocks@.contains(b) == before.blocks().contains(b));
    }
}

/// A new piece is started with only while fewer than five requests are open and the seed does not
/// choke us, and it is the one that is picked next, unless that is being downloaded already. It is
/// asked for from its first byte on, and its digest and its length are those that the torrent
/// gives.
pub proof fn law_new_piece_is_started(
    turn: Turn,
    before: Session,
    own: Bitfield,
    own_before: Bitfield,
)
    requires
        turn.comes_of(before, own, own_before, Event::Proceed),
        before.phase is Picking,
        before.can_step(own_before, Event::Proceed),
    ensures
        turn.error is None,
        before.dl.choked_us || before.dl.inflight >= 5 ==> just_goes_to(
            turn,
            before,
            own,
            own_before,
            Phase::Checking,
        ),
        own.piece_ownership@ == own_before.piece_ownership@,
        own.total_pieces == own_before.total_pieces,
        own.confirmed == own_before.confirmed,
        !before.dl.choked_us && before.dl.inflight < 5 ==> own.is_after_pick(own_before),
        !before.dl.choked_us && before.dl.inflight < 5 ==> {
            let index = own_before.next_missing() as u32;
            let info = before.dl.torrent_info;
            let left = info.download_type.spec_len() - index * info.piece_length;
            if own_before.confirmed >= own_before.total_pieces
                || before.dl.pending_pieces@.contains_key(index) {
                &&& turn.session.dl == before.dl
                &&& turn.session.phase is Checking
                &&& turn.action == Action::Proceed
            } else if left == 0 || info.piece_length == 0 {
                let piece = turn.session.dl.pending_pieces@[index];
                &&& turn.session.phase is Checking
                &&& turn.action == Action::Proceed
                &&& turn.session.dl.pending_pieces@ == before.dl.pending_pieces@.insert(
                    index,
                    piece,
                )
                &&& turn.session.dl.pending_blocks == before.dl.pending_blocks
                &&& turn.session.dl.inflight == before.dl.inflight
                &&& turn.session.dl.choked_us == before.dl.choked_us
                &&& turn.session.dl.torrent_info == before.dl.torrent_info
                &&& piece.piece_length == 0
                &&& piece.requested == 0
                &&& piece.bytes@.len() == 0
            } else {
                &&& turn.session.dl == before.dl
                &&& match turn.session.phase {
                    Phase::Starting { index: i, piece, blocks, sent } => {
                        &&& i == index
                        &&& sent == 0
                        &&& piece.piece_hash == info.pieces.0@[index as int]
                        &&& piece.piece_length == if left < info.piece_length {
                            left
                        } else {
                            info.piece_length as int
                        }
                        &&& piece.requested == 0
                        &&& piece.bytes@.len() == piece.piece_length
                        &&& forall|k: int| 0 <= k < piece.piece_length ==> piece.bytes@[k] == 0
                        &&& piece.remaining_blocks == ((piece.piece_length + 0x3fff)
                            / 0x4000) as u16
                        &&& piece.piece_length <= 0xffff * 0x4000 ==> (piece.remaining_blocks - 1)
                            * 0x4000 < piece.piece_length <= piece.remaining_blocks * 0x4000
                        &&& 0 < blocks@.len() <= 5 - before.dl.inflight
                        &&& blocks@.len() < 5 - before.dl.inflight ==> (blocks@.len() - 1) * 0x4000
                            < piece.piece_length <= blocks@.len() * 0x4000
                        &&& forall|k: int|
                            0 <= k < blocks@.len() ==> {
                                let block = #[trigger] blocks@[k];
                                &&& block.piece_index == index
                                &&& block.block_begin == k * 0x4000
                                &&& block.block_len == if piece.piece_length - k * 0x4000 > 0x4000 {
                                    0x4000
                                } else {
                                    piece.piece_length - k * 0x4000
                                }
                                &&& block.block_len > 0
                            }
                        &&& turn.action == Action::Send(
                            Message::Request {
                                index,
                                begin: 0,
                                length: blocks@[0].block_len,
                            },
                        )
                    },
                    _ => false,
                }
            }
        },
{
    if let Phase::Starting { index, piece, blocks, sent } = turn.session.phase {
        lemma_parts(piece.piece_length as int, 0x4000);
        assert(index * before.dl.torrent_info.piece_length
            == before.dl.torrent_info.piece_begin(index as int));
        assert forall|k: int| 0 <= k < blocks@.len() implies {
            let block = #[trigger] blocks@[k];
            &&& block.piece_index == index
            &&& block.block_begin == k * 0x4000
            &&& block.block_len == if piece.piece_length - k * 0x4000 > 0x4000 {
                0x4000
            } else {
                piece.piece_length - k * 0x4000
            }
            &&& block.block_len > 0
        } by {
            assert(blocks@[k] == piece.block_at(index, k * 0x4000));
        }
    }
}

/// A block of a new piece that has been asked for is awaited, and its request is open. The blocks
/// are asked for one after the other, and the piece is added after the last. Where a request cannot
/// be sent, the piece is given up.
pub proof fn law_new_piece_is_added(
    turn: Turn,
    before: Session,
    own: Bitfield,
    own_before: Bitfield,
    ok: bool,
    index: u32,
    piece: PieceDownload,
    blocks: Vec<BlockDownload>,
    sent: usize,
)
    requires
        turn.comes_of(before, own, own_before, Event::Done(ok)),
        before.phase == (Phase::Starting { index, piece, blocks, sent }),
        before.valid(),
        ok ==> before.can_step(own_before, Event::Done(ok)),
    ensures
        own == own_before,
        !ok ==> just_goes_to(turn, before, own, own_before, Phase::Checking),
        ok ==> {
            let block = blocks@[sent as int];
            let is = match turn.session.phase {
                Phase::Starting { piece, .. } => piece,
                _ => turn.session.dl.pending_pieces@[index],
            };
            &&& turn.session.dl.inflight == before.dl.inflight + 1
            &&& turn.session.dl.choked_us == before.dl.choked_us
            &&& turn.session.dl.torrent_info == before.dl.torrent_info
            &&& forall|b: BlockDownload| #[trigger]
                turn.session.dl.pending_blocks@.contains(b) <==> before.dl.pending_blocks@.contains(
                    b,
                ) || b == block
            &&& is.requested == piece.requested + block.block_len
            &&& is.remaining_blocks == piece.remaining_blocks
            &&& is.piece_length == piece.piece_length
            &&& is.piece_hash == piece.piece_hash
            &&& is.bytes == piece.bytes
            &&& if sent + 1 < blocks@.len() {
                let next = blocks@[sent + 1];
                &&& turn.session.dl.pending_pieces@ == before.dl.pending_pieces@
                &&& turn.session.phase matches Phase::Starting {
                    index: i,
                    blocks: b,
                    sent: n,
                    ..
                } && i == index && b == blocks && n == (sent + 1) as usize
                &&& turn.action == Action::Send(
                    Message::Request {
                        index: next.piece_index,
                        begin: next.block_begin,
                        length: next.block_len,
                    },
                )
            } else {
                &&& turn.session.dl.pending_pieces@ == before.dl.pending_pieces@.insert(index, is)
                &&& turn.session.phase is Checking
                &&& turn.action == Action::Proceed
            }
        },
{
    if ok {
        lemma_awaited(turn.session.dl, before.dl, blocks@[sent as int]);
    }
}

} // verus!
