//! The exchange with one seed, from step to step.

use std::sync::Arc;

use vstd::pervasive::unreached;
use vstd::prelude::*;

use super::bitfield::{
    law_sound_counts_and_picks, law_sound_sets, lemma_first_missing, Bitfield,
};
use super::file::DownloaderMsg;
use super::laws::{
    law_last_block_completes, law_limit_is_kept, law_new_piece_is_tracked,
    law_next_in_turn_can_be_added, law_requests_follow, law_sound_chokes, law_sound_plans,
    law_sound_receives, lemma_planned_in_full,
};
use super::peer_msg::Message;
use super::piece::{
    num_blocks, num_requests, request_blocks, BlockDownload, PieceDownload, BLOCK_SIZE,
    MAX_INFLIGHT_PER_PEER,
};
use super::seed::{
    after_request, in_turn, is_order_of, lemma_next_request, planned, Reaction, SeedDownloader,
    SeedError,
};
use crate::bencode::meta_info::{law_pieces_cover_the_download, lemma_parts, Info};
use crate::digest::sha1_digest;
use crate::tracker::peers::Address;

verus! {

/// What the exchange is about to do, or waits for.
pub enum Phase {
    /// Seeing whether anything remains to be downloaded.
    Checking,
    /// Waiting for what the stream brings.
    Idle,
    /// Telling the peer that we are still here.
    KeepingAlive,
    /// Handing on a piece.
    Delivering,
    /// Seeing which blocks of the pieces that are being downloaded to ask for.
    Asking,
    /// Asking for these blocks. Some have been asked for, and the next one is being.
    Requesting { blocks: Vec<BlockDownload>, sent: usize },
    /// Seeing whether to start with a new piece.
    Picking,
    /// Asking for blocks of a new piece. Some have been asked for, and the next one is being.
    Starting { index: u32, piece: PieceDownload, blocks: Vec<BlockDownload>, sent: usize },
    /// Reporting that the seed has gone.
    Leaving,
    /// The exchange is over.
    Stopped,
}

/// The exchange with one seed.
pub struct Session {
    pub address: Address,
    pub dl: SeedDownloader,
    pub phase: Phase,
}

/// What has happened.
pub enum Event {
    /// Nothing but time has passed.
    Proceed,
    /// What was to be done has been done, or could not be done.
    Done(bool),
    /// Nothing has come for so long that the peer has to be told that we are still here.
    KeepAliveDue,
    /// The stream has ended.
    Ended,
    /// The stream could not be read.
    Failed,
    Received(Message),
}

/// What to do next.
pub enum Action {
    /// Go on.
    Proceed,
    /// Wait for what the stream brings.
    Wait,
    /// Send a message.
    Send(Message),
    /// Hand on a report.
    Report(DownloaderMsg),
    /// Leave the seed alone.
    Stop,
}

/// A step of the exchange: what it has become, what to do next, and what was wrong with the message
/// that has been received.
pub struct Turn {
    pub session: Session,
    pub action: Action,
    pub error: Option<SeedError>,
}

/// The message that asks for a block.
pub open spec fn request_of(block: BlockDownload) -> Message {
    Message::Request {
        index: block.piece_index,
        begin: block.block_begin,
        length: block.block_len,
    }
}

/// A piece when one more of its blocks has been asked for.
pub open spec fn with_request(piece: PieceDownload, block: BlockDownload) -> PieceDownload {
    PieceDownload { requested: (piece.requested + block.block_len) as u32, ..piece }
}

/// Whether the blocks that have not been asked for yet are those that a piece is to be asked for
/// next.
pub open spec fn are_next(
    piece: PieceDownload,
    index: u32,
    inflight: u8,
    blocks: Seq<BlockDownload>,
    sent: usize,
) -> bool {
    let left = blocks.len() - sent;
    &&& piece.requested <= piece.piece_length
    &&& left == num_requests(inflight as int, piece.unrequested())
    &&& blocks.skip(sent as int) == piece.next_blocks(index, left)
}

impl Session {
    /// Whether there is a block that is being asked for, and a new piece is not one of those that
    /// are being downloaded.
    pub open spec fn valid(self) -> bool {
        &&& self.dl.valid()
        &&& match self.phase {
            Phase::Requesting { blocks, sent } => sent < blocks@.len(),
            Phase::Starting { index, blocks, sent, .. } => {
                &&& sent < blocks@.len()
                &&& !self.dl.pending_pieces@.contains_key(index)
                &&& forall|i: int|
                    0 <= i < blocks@.len() ==> (#[trigger] blocks@[i]).piece_index == index
            },
            _ => true,
        }
    }

    /// Whether a piece is the new one that blocks are being asked for.
    pub open spec fn is_starting(self, index: u32) -> bool {
        match self.phase {
            Phase::Starting { index: starting, .. } => index == starting,
            _ => false,
        }
    }

    /// Whether the download is sound, no block is left of a piece that has been given up, and the
    /// blocks that are being asked for are the next ones of their pieces.
    pub open spec fn sound(self) -> bool {
        &&& self.valid()
        &&& self.dl.sound()
        &&& forall|block: BlockDownload| #[trigger]
            self.dl.blocks().contains(block) ==> self.dl.pending_pieces@.contains_key(
                block.piece_index,
            ) || self.is_starting(block.piece_index)
        &&& match self.phase {
            Phase::Requesting { blocks, sent } => in_turn(
                self.dl.pending_pieces@,
                blocks@.skip(sent as int),
            ),
            Phase::Starting { index, piece, blocks, sent } => {
                &&& self.dl.tracks(index, piece)
                &&& blocks@.len() - sent <= piece.unrequested()
                &&& blocks@.skip(sent as int) == piece.next_blocks(index, blocks@.len() - sent)
            },
            _ => true,
        }
    }

    /// Whether an event leaves a sound exchange sound. A request of a new piece that cannot be sent
    /// leaves blocks of a piece that has been given up, and a piece without any blocks, or with
    /// more than can be counted, is never complete.
    pub open spec fn stays_sound(self, own: Bitfield, event: Event) -> bool {
        match (self.phase, event) {
            (Phase::Starting { .. }, Event::Done(ok)) => ok,
            (Phase::Picking, Event::Proceed) => self.dl.starts_piece(own) ==> {
                let len = self.dl.torrent_info.piece_len(own.next_missing());
                0 < len && num_blocks(len) <= u16::MAX
            },
            _ => true,
        }
    }

    /// Whether blocks of a piece that is being downloaded are left to ask for.
    pub open spec fn has_unrequested(self, index: u32) -> bool {
        &&& self.dl.pending_pieces@.contains_key(index)
        &&& self.dl.pending_pieces@[index].requested < self.dl.pending_pieces@[index].piece_length
    }

    /// Whether no more requests are open than the limit allows, and blocks are left to ask for of
    /// no more than one piece. The blocks that are being asked for do not exceed the limit either.
    pub open spec fn paced(self) -> bool {
        &&& self.dl.can_request()
        &&& self.dl.inflight <= MAX_INFLIGHT_PER_PEER
        &&& self.dl.choked_us ==> self.dl.inflight == 0
        &&& forall|i: u32, j: u32| #[trigger]
            self.has_unrequested(i) && #[trigger] self.has_unrequested(j) ==> i == j
        &&& match self.phase {
            Phase::Delivering | Phase::Asking => self.dl.inflight < MAX_INFLIGHT_PER_PEER,
            Phase::Requesting { blocks, sent } => {
                let index = blocks@[sent as int].piece_index;
                &&& self.dl.wants_piece()
                &&& self.dl.pending_pieces@.contains_key(index)
                &&& are_next(self.dl.pending_pieces@[index], index, self.dl.inflight, blocks@, sent)
            },
            Phase::Picking => self.dl.wants_piece() ==> forall|i: u32| !self.has_unrequested(i),
            Phase::Starting { index, piece, blocks, sent } => {
                &&& self.dl.wants_piece()
                &&& forall|i: u32| !self.has_unrequested(i)
                &&& are_next(piece, index, self.dl.inflight, blocks@, sent)
            },
            _ => true,
        }
    }

    /// Whether an event is one that can happen in this phase.
    pub open spec fn expects(self, event: Event) -> bool {
        match self.phase {
            Phase::Checking | Phase::Asking | Phase::Picking => event is Proceed,
            Phase::Idle => event is KeepAliveDue || event is Ended || event is Failed
                || event is Received,
            Phase::KeepingAlive
            | Phase::Delivering
            | Phase::Requesting { .. }
            | Phase::Starting { .. }
            | Phase::Leaving => event is Done,
            Phase::Stopped => false,
        }
    }

    /// Whether an event can happen in this phase and be dealt with.
    pub open spec fn can_step(self, own: Bitfield, event: Event) -> bool {
        match (self.phase, event) {
            (Phase::Checking, Event::Proceed) => own.can_count(),
            (Phase::Idle, Event::KeepAliveDue) => true,
            (Phase::Idle, Event::Ended) => true,
            (Phase::Idle, Event::Failed) => true,
            (Phase::Idle, Event::Received(msg)) => self.dl.can_handle(own, msg),
            (Phase::KeepingAlive, Event::Done(_)) => true,
            (Phase::Delivering, Event::Done(_)) => true,
            (Phase::Asking, Event::Proceed) => self.dl.can_request(),
            (Phase::Requesting { blocks, sent }, Event::Done(ok)) => ok ==> {
                let block = blocks@[sent as int];
                &&& self.dl.pending_pieces@.contains_key(block.piece_index)
                &&& self.dl.can_add(self.dl.pending_pieces@[block.piece_index], block)
            },
            (Phase::Picking, Event::Proceed) => own.can_pick() && self.dl.can_start(own),
            (Phase::Starting { piece, blocks, sent, .. }, Event::Done(ok)) => ok
                ==> self.dl.can_add(piece, blocks@[sent as int]),
            (Phase::Leaving, Event::Done(_)) => true,
            _ => false,
        }
    }

    /// Whether [`Session::step`] can deal with an event.
    pub fn accepts(&self, own: &Bitfield, event: &Event) -> (res: bool)
        requires
            self.valid(),
        ensures
            res == self.can_step(*own, *event),
    {
        match (&self.phase, event) {
            (Phase::Checking, Event::Proceed) => own.allows_count(),
            (Phase::Idle, Event::KeepAliveDue) => true,
            (Phase::Idle, Event::Ended) => true,
            (Phase::Idle, Event::Failed) => true,
            (Phase::Idle, Event::Received(msg)) => self.dl.accepts(own, msg),
            (Phase::KeepingAlive, Event::Done(_)) => true,
            (Phase::Delivering, Event::Done(_)) => true,
            (Phase::Asking, Event::Proceed) => self.dl.accepts_plan(),
            (Phase::Requesting { blocks, sent }, Event::Done(ok)) => {
                let block = blocks[*sent];
                !*ok || match self.dl.pending_pieces.get(&block.piece_index) {
                    Some(piece) => self.dl.accepts_request(piece, block),
                    None => false,
                }
            },
            (Phase::Picking, Event::Proceed) => own.allows_pick() && self.dl.accepts_next_piece(
                own,
            ),
            (Phase::Starting { piece, blocks, sent, .. }, Event::Done(ok)) => {
                !*ok || self.dl.accepts_request(piece, blocks[*sent])
            },
            (Phase::Leaving, Event::Done(_)) => true,
            _ => false,
        }
    }

    /// An exchange with a seed that has not been asked for anything.
    pub fn new(address: Address, torrent_info: Arc<Info>) -> (session: Self)
        ensures
            session.address == address,
            session.dl.torrent_info == torrent_info,
            session.dl.choked_us,
            session.dl.inflight == 0,
            session.dl.pending_pieces@ == Map::<u32, PieceDownload>::empty(),
            session.dl.blocks() == Set::<BlockDownload>::empty(),
            session.phase == Phase::Checking,
            session.sound(),
            session.paced(),
    {
        Session { address, dl: SeedDownloader::new(torrent_info), phase: Phase::Checking }
    }
}

impl Turn {
    /// Whether nothing has changed but the phase, and nothing was wrong.
    pub open spec fn only_moves(
        self,
        before: Session,
        own: Bitfield,
        own_before: Bitfield,
    ) -> bool {
        &&& self.session.dl == before.dl
        &&& own == own_before
        &&& self.error is None
    }

    /// Whether the step leads to a phase in which there is nothing to wait for.
    pub open spec fn leads_to(self, phase: Phase) -> bool {
        self.session.phase == phase && self.action == Action::Proceed
    }

    /// Whether this is the step that an event leads to.
    pub open spec fn comes_of(
        self,
        before: Session,
        own: Bitfield,
        own_before: Bitfield,
        event: Event,
    ) -> bool {
        let dl = self.session.dl;
        &&& self.session.address == before.address
        &&& match (before.phase, event) {
            (Phase::Checking, Event::Proceed) => {
                &&& self.only_moves(before, own, own_before)
                &&& if own.num_remaining() == 0 {
                    self.session.phase == Phase::Stopped && self.action == Action::Stop
                } else {
                    self.session.phase == Phase::Idle && self.action == Action::Wait
                }
            },
            (Phase::Idle, Event::KeepAliveDue) => {
                &&& self.only_moves(before, own, own_before)
                &&& self.session.phase == Phase::KeepingAlive
                &&& self.action == Action::Send(Message::KeepAlive)
            },
            (Phase::Idle, Event::Ended) => {
                &&& self.only_moves(before, own, own_before)
                &&& self.session.phase == Phase::Leaving
                &&& self.action == Action::Report(DownloaderMsg::Disconnect(before.address))
            },
            (Phase::Idle, Event::Failed) => {
                &&& self.only_moves(before, own, own_before)
                &&& self.leads_to(Phase::Checking)
            },
            (Phase::Idle, Event::Received(msg)) => exists|res: Result<Reaction, SeedError>|
             #[trigger]
                dl.is_after_msg(before.dl, own, own_before, msg, res) && match res {
                    Ok(Reaction::Nothing) => self.error is None && self.leads_to(Phase::Checking),
                    Ok(Reaction::RequestPieces) => self.error is None && self.leads_to(
                        Phase::Asking,
                    ),
                    Ok(Reaction::Deliver { index, length, bytes }) => {
                        &&& self.error is None
                        &&& self.session.phase == Phase::Delivering
                        &&& self.action == Action::Report(
                            DownloaderMsg::Piece { index, length, bytes },
                        )
                    },
                    Err(error) => self.error == Some(error) && self.leads_to(Phase::Checking),
                },
            (Phase::KeepingAlive, Event::Done(_)) => {
                &&& self.only_moves(before, own, own_before)
                &&& self.leads_to(Phase::Checking)
            },
            (Phase::Delivering, Event::Done(ok)) => {
                &&& self.only_moves(before, own, own_before)
                &&& self.leads_to(
                    if ok {
                        Phase::Asking
                    } else {
                        Phase::Checking
                    },
                )
            },
            (Phase::Asking, Event::Proceed) => {
                &&& self.only_moves(before, own, own_before)
                &&& match self.session.phase {
                    Phase::Requesting { blocks, sent } => {
                        &&& before.dl.is_plan(blocks@)
                        &&& blocks@.len() > 0
                        &&& sent == 0
                        &&& self.action == Action::Send(request_of(blocks@[0]))
                    },
                    _ => before.dl.is_plan(seq![]) && self.leads_to(Phase::Picking),
                }
            },
            (Phase::Requesting { blocks, sent }, Event::Done(true)) => {
                let block = blocks@[sent as int];
                &&& dl.is_after_request(before.dl, block)
                &&& dl.pending_pieces@ == after_request(before.dl.pending_pieces@, block)
                &&& own == own_before
                &&& self.error is None
                &&& if sent + 1 < blocks@.len() {
                    &&& self.session.phase == Phase::Requesting {
                        blocks,
                        sent: (sent + 1) as usize,
                    }
                    &&& self.action == Action::Send(request_of(blocks@[sent + 1]))
                } else {
                    self.leads_to(Phase::Picking)
                }
            },
            (Phase::Requesting { .. }, Event::Done(false)) => {
                &&& self.only_moves(before, own, own_before)
                &&& self.leads_to(Phase::Checking)
            },
            (Phase::Picking, Event::Proceed) => {
                &&& self.error is None
                &&& if before.dl.wants_piece() {
                    own.is_after_pick(own_before)
                } else {
                    own == own_before
                }
                &&& if !before.dl.starts_piece(own_before) {
                    dl == before.dl && self.leads_to(Phase::Checking)
                } else {
                    match self.session.phase {
                        Phase::Starting { index, piece, blocks, sent } => {
                            &&& dl == before.dl
                            &&& index == own_before.next_missing()
                            &&& dl.is_new(index, piece)
                            &&& blocks@ == piece.next_blocks(
                                index,
                                num_requests(dl.inflight as int, piece.unrequested()),
                            )
                            &&& blocks@.len() > 0
                            &&& sent == 0
                            &&& self.action == Action::Send(request_of(blocks@[0]))
                        },
                        // A piece without any bytes has no blocks to ask for.
                        _ => {
                            let index = own_before.next_missing() as u32;
                            let piece = dl.pending_pieces@[index];
                            &&& before.dl.is_new(index, piece)
                            &&& piece.piece_length == 0
                            &&& dl.is_after_addition(before.dl, index, piece)
                            &&& self.leads_to(Phase::Checking)
                        },
                    }
                }
            },
            (Phase::Starting { index, piece, blocks, sent }, Event::Done(true)) => {
                let block = blocks@[sent as int];
                let next = with_request(piece, block);
                &&& dl.is_after_request(before.dl, block)
                &&& own == own_before
                &&& self.error is None
                &&& if sent + 1 < blocks@.len() {
                    &&& dl.pending_pieces@ == before.dl.pending_pieces@
                    &&& self.session.phase == Phase::Starting {
                        index,
                        piece: next,
                        blocks,
                        sent: (sent + 1) as usize,
                    }
                    &&& self.action == Action::Send(request_of(blocks@[sent + 1]))
                } else {
                    &&& dl.pending_pieces@ == before.dl.pending_pieces@.insert(index, next)
                    &&& self.leads_to(Phase::Checking)
                }
            },
            (Phase::Starting { .. }, Event::Done(false)) => {
                &&& self.only_moves(before, own, own_before)
                &&& self.leads_to(Phase::Checking)
            },
            (Phase::Leaving, Event::Done(_)) => {
                &&& self.only_moves(before, own, own_before)
                &&& self.session.phase == Phase::Stopped
                &&& self.action == Action::Stop
            },
            _ => false,
        }
    }
}

impl Session {
    /// The turn that goes on in another phase.
    fn go(address: Address, dl: SeedDownloader, phase: Phase) -> (turn: Turn)
        ensures
            turn.session.address == address,
            turn.session.dl == dl,
            turn.leads_to(phase),
            turn.error is None,
    {
        Turn { session: Session { address, dl, phase }, action: Action::Proceed, error: None }
    }

    /// The turn that does something in another phase.
    fn act(address: Address, dl: SeedDownloader, phase: Phase, action: Action) -> (turn: Turn)
        ensures
            turn.session.address == address,
            turn.session.dl == dl,
            turn.session.phase == phase,
            turn.action == action,
            turn.error is None,
    {
        Turn { session: Session { address, dl, phase }, action, error: None }
    }

    /// Asks for the next of the blocks, once one has been asked for.
    fn step_requesting(self, ok: bool) -> (turn: Turn)
        requires
            self.valid(),
            self.phase is Requesting,
            forall|own: Bitfield| self.can_step(own, Event::Done(ok)),
        ensures
            forall|own: Bitfield| #[trigger] turn.comes_of(self, own, own, Event::Done(ok)),
            turn.session.valid(),
            self.sound() ==> turn.session.sound(),
            self.paced() ==> turn.session.paced(),
            !(turn.action is Report),
    {
        let ghost before = self;
        proof {
            assert(before.can_step(arbitrary(), Event::Done(ok)));
            if before.paced() {
                lemma_paced_at_rest(before);
            }
        }
        let Session { address, dl, phase } = self;
        let mut dl = dl;
        let (blocks, sent) = match phase {
            Phase::Requesting { blocks, sent } => (blocks, sent),
            _ => unreached(),
        };
        if !ok {
            return Self::go(address, dl, Phase::Checking);
        }
        assert(blocks@.skip(sent as int).skip(1) =~= blocks@.skip(sent + 1));
        assert(blocks@.skip(sent as int)[0] == blocks@[sent as int]);
        dl.request_sent(blocks[sent]);
        proof {
            if before.sound() {
                lemma_tidy_after_request(before, dl, blocks@[sent as int]);
            }
            if before.paced() {
                lemma_paced_after_request(before, dl, blocks@, sent);
            }
        }
        let len: usize = blocks.len();
        let sent: usize = sent + 1;
        if sent == len {
            return Self::go(address, dl, Phase::Picking);
        }
        let action = Action::Send(blocks[sent].request());
        Self::act(address, dl, Phase::Requesting { blocks, sent }, action)
    }

    /// Starts with a new piece, if there is one to start with.
    fn step_picking(self, own: &mut Bitfield) -> (turn: Turn)
        requires
            self.valid(),
            self.phase is Picking,
            self.can_step(*old(own), Event::Proceed),
        ensures
            turn.comes_of(self, *final(own), *old(own), Event::Proceed),
            turn.session.valid(),
            self.sound() && self.stays_sound(*old(own), Event::Proceed) ==> turn.session.sound(),
            self.paced() ==> turn.session.paced(),
            !(turn.action is Report),
            old(own).sound() ==> final(own).sound(),
    {
        let ghost before = self;
        proof {
            if before.paced() {
                lemma_paced_at_rest(before);
            }
        }
        let Session { address, dl, .. } = self;
        let mut dl = dl;
        let (index, piece) = match dl.next_piece(own) {
            Some(next) => next,
            None => return Self::go(address, dl, Phase::Checking),
        };
        proof {
            if before.sound() && before.stays_sound(*old(own), Event::Proceed) {
                assert forall|i: int| 0 <= i < dl.pending_blocks@.len() implies (
                #[trigger] dl.pending_blocks@[i]).piece_index != index by {
                    assert(dl.blocks().contains(dl.pending_blocks@[i]));
                }
                law_new_piece_is_tracked(dl, index, piece);
            }
        }
        let blocks = request_blocks(dl.inflight, index, &piece);
        if blocks.len() == 0 {
            dl.add_piece(index, piece);
            let turn = Self::go(address, dl, Phase::Checking);
            proof {
                if before.paced() {
                    lemma_paced_with_piece(before, turn.session, index, piece);
                }
            }
            return turn;
        }
        assert(blocks@.skip(0) =~= blocks@);
        let action = Action::Send(blocks[0].request());
        let turn = Self::act(
            address,
            dl,
            Phase::Starting { index, piece, blocks, sent: 0 },
            action,
        );
        proof {
            if before.paced() {
                lemma_paced_while_starting(before, turn.session);
            }
        }
        turn
    }

    /// Asks for the next block of a new piece, once one has been asked for, and adds the piece when
    /// all have.
    fn step_starting(self, ok: bool) -> (turn: Turn)
        requires
            self.valid(),
            self.phase is Starting,
            forall|own: Bitfield| self.can_step(own, Event::Done(ok)),
        ensures
            forall|own: Bitfield| #[trigger] turn.comes_of(self, own, own, Event::Done(ok)),
            turn.session.valid(),
            self.sound() && ok ==> turn.session.sound(),
            self.paced() ==> turn.session.paced(),
            !(turn.action is Report),
    {
        let ghost before = self;
        proof {
            assert(before.can_step(arbitrary(), Event::Done(ok)));
            if before.paced() {
                lemma_paced_at_rest(before);
            }
        }
        let Session { address, dl, phase } = self;
        let mut dl = dl;
        let (index, piece, blocks, sent) = match phase {
            Phase::Starting { index, piece, blocks, sent } => (index, piece, blocks, sent),
            _ => unreached(),
        };
        if !ok {
            return Self::go(address, dl, Phase::Checking);
        }
        let mut piece = piece;
        proof {
            assert(blocks@.skip(sent as int).skip(1) =~= blocks@.skip(sent + 1));
            if before.sound() || before.paced() {
                lemma_parts(piece.piece_length - piece.requested, BLOCK_SIZE as int);
                law_requests_follow(piece, index, blocks@.len() - sent);
                lemma_next_request(piece);
            }
        }
        dl.request_sent_for(&mut piece, blocks[sent]);
        let len: usize = blocks.len();
        let sent: usize = sent + 1;
        if sent == len {
            dl.add_piece(index, piece);
            let turn = Self::go(address, dl, Phase::Checking);
            proof {
                if before.paced() {
                    lemma_paced_with_piece(before, turn.session, index, piece);
                }
            }
            return turn;
        }
        let action = Action::Send(blocks[sent].request());
        let turn = Self::act(
            address,
            dl,
            Phase::Starting { index, piece, blocks, sent },
            action,
        );
        proof {
            if before.paced() {
                lemma_paced_while_starting(before, turn.session);
            }
        }
        turn
    }

    /// Deals with an event.
    pub fn step(self, own: &mut Bitfield, event: Event) -> (turn: Turn)
        requires
            self.valid(),
            self.can_step(*old(own), event),
        ensures
            turn.comes_of(self, *final(own), *old(own), event),
            turn.session.valid(),
            self.sound() && self.stays_sound(*old(own), event) ==> turn.session.sound(),
            self.paced() && event != Event::Received(Message::Choke) ==> turn.session.paced(),
            self.sound() ==> match turn.action {
                Action::Report(DownloaderMsg::Piece { index, length, bytes }) => {
                    &&& index < self.dl.torrent_info.pieces.0@.len()
                    &&& sha1_digest(bytes@) == self.dl.torrent_info.pieces.0@[index as int]@
                    &&& bytes@.len() == length == self.dl.torrent_info.piece_len(index as int)
                },
                _ => true,
            },
            self.sound() && old(own).sound() && old(own).total_pieces
                == self.dl.torrent_info.pieces.0@.len() ==> final(own).sound(),
            forall|i: int|
                0 <= i < old(own).num_bits() ==> (#[trigger] final(own).owns(i) == (old(own).owns(
                    i,
                ) || (turn.action matches Action::Report(DownloaderMsg::Piece { index, .. }) && i
                    == index))),
    {
        let ghost before = self;
        proof {
            if before.paced() {
                lemma_paced_at_rest(before);
            }
        }
        match (&self.phase, &event) {
            (Phase::Requesting { .. }, Event::Done(ok)) => {
                let ok = *ok;
                return self.step_requesting(ok);
            },
            (Phase::Picking, Event::Proceed) => return self.step_picking(own),
            (Phase::Starting { .. }, Event::Done(ok)) => {
                let ok = *ok;
                return self.step_starting(ok);
            },
            _ => {},
        }
        let Session { address, dl, phase } = self;
        let mut dl = dl;
        match (phase, event) {
            (Phase::Checking, Event::Proceed) => {
                if own.remaining() == 0 {
                    Self::act(address, dl, Phase::Stopped, Action::Stop)
                } else {
                    Self::act(address, dl, Phase::Idle, Action::Wait)
                }
            },
            (Phase::Idle, Event::KeepAliveDue) => {
                let action = Action::Send(Message::KeepAlive);
                Self::act(address, dl, Phase::KeepingAlive, action)
            },
            (Phase::Idle, Event::Ended) => {
                let action = Action::Report(DownloaderMsg::Disconnect(address));
                Self::act(address, dl, Phase::Leaving, action)
            },
            (Phase::Idle, Event::Failed) => Self::go(address, dl, Phase::Checking),
            (Phase::Idle, Event::Received(msg)) => {
                let res = dl.handle_msg(own, msg);
                proof {
                    if before.sound() {
                        lemma_tidy_after_msg(before, dl, *own, *old(own), msg, res);
                    }
                    if before.paced() && msg != Message::Choke {
                        lemma_paced_after_msg(before, dl, *own, *old(own), msg, res);
                    }
                }
                match res {
                    Ok(Reaction::Nothing) => Self::go(address, dl, Phase::Checking),
                    Ok(Reaction::RequestPieces) => Self::go(address, dl, Phase::Asking),
                    Ok(Reaction::Deliver { index, length, bytes }) => {
                        let action = Action::Report(DownloaderMsg::Piece { index, length, bytes });
                        Self::act(address, dl, Phase::Delivering, action)
                    },
                    Err(error) => {
                        let mut turn = Self::go(address, dl, Phase::Checking);
                        turn.error = Some(error);
                        turn
                    },
                }
            },
            (Phase::KeepingAlive, Event::Done(_)) => Self::go(address, dl, Phase::Checking),
            (Phase::Delivering, Event::Done(ok)) => {
                let phase = if ok {
                    Phase::Asking
                } else {
                    Phase::Checking
                };
                Self::go(address, dl, phase)
            },
            (Phase::Asking, Event::Proceed) => {
                let blocks = dl.request_pieces();
                proof {
                    if before.paced() {
                        lemma_plan_is_paced(before, blocks@);
                    }
                }
                if blocks.len() == 0 {
                    assert(blocks@ =~= seq![]);
                    return Self::go(address, dl, Phase::Picking);
                }
                assert(blocks@.skip(0) =~= blocks@);
                let action = Action::Send(blocks[0].request());
                Self::act(address, dl, Phase::Requesting { blocks, sent: 0 }, action)
            },
            (Phase::Leaving, Event::Done(_)) => {
                Self::act(address, dl, Phase::Stopped, Action::Stop)
            },
            _ => unreached(),
        }
    }
}

/// A sound exchange can deal with every event that can happen, as long as the open requests can be
/// counted, but for a peer that asks us for something.
pub proof fn law_sound_session_goes_on(session: Session, own: Bitfield, event: Event)
    requires
        session.sound(),
        session.dl.inflight < u8::MAX,
        session.expects(event),
        own.sound(),
        own.total_pieces == session.dl.torrent_info.pieces.0@.len(),
        session.dl.can_start(own),
        match event {
            Event::Received(Message::Piece { block, .. }) => block@.len() <= u32::MAX,
            Event::Received(Message::Request { .. }) => false,
            Event::Received(Message::Cancel { .. }) => false,
            _ => true,
        },
    ensures
        session.can_step(own, event),
{
    law_sound_counts_and_picks(own);
    match (session.phase, event) {
        (Phase::Idle, Event::Received(Message::Piece { index, begin, block })) => {
            law_sound_receives(session.dl, index, begin, block@.len());
            if session.dl.pending_pieces@.contains_key(index) {
                assert(session.dl.tracks(index, session.dl.pending_pieces@[index]));
                law_sound_sets(own, index);
            }
        },
        (Phase::Idle, Event::Received(Message::Choke)) => {
            law_sound_chokes(session.dl);
        },
        (Phase::Asking, Event::Proceed) => {
            law_sound_plans(session.dl);
        },
        (Phase::Requesting { blocks, sent }, Event::Done(_)) => {
            let rest = blocks@.skip(sent as int);
            assert(rest[0] == blocks@[sent as int]);
            law_next_in_turn_can_be_added(session.dl, rest);
        },
        (Phase::Starting { index, piece, blocks, sent }, Event::Done(_)) => {
            let rest = blocks@.skip(sent as int);
            assert(rest[0] == blocks@[sent as int]);
            law_requests_follow(piece, index, blocks@.len() - sent);
            if session.dl.blocks().contains(rest[0]) {
                let i = choose|i: int|
                    0 <= i < session.dl.pending_blocks@.len() && session.dl.pending_blocks@[i]
                        == rest[0];
                assert(session.dl.pending_blocks@[i].piece_index == index);
            }
        },
        _ => {},
    }
}

/// Every piece of a torrent with a digest for each piece can be started.
pub proof fn law_pieces_can_start(dl: SeedDownloader, own: Bitfield)
    requires
        dl.torrent_info.piece_length > 0,
        dl.torrent_info.piece_length + BLOCK_SIZE - 1 <= u32::MAX,
        dl.torrent_info.piece_length <= isize::MAX,
        dl.torrent_info.download_type.spec_len() <= u64::MAX,
        dl.torrent_info.spec_num_pieces() == dl.torrent_info.pieces.0@.len() == own.total_pieces,
        own.sound(),
    ensures
        dl.can_start(own),
{
    law_sound_counts_and_picks(own);
    if dl.starts_piece(own) {
        let index = own.next_missing();
        lemma_first_missing(own.piece_ownership@, own.cur as int, own.total_pieces as int);
        lemma_first_missing(own.piece_ownership@, own.confirmed as int, own.total_pieces as int);
        law_pieces_cover_the_download(&*dl.torrent_info, index);
    }
}

/// Without a piece that is complete, no block of it is left.
proof fn lemma_tidy_after_msg(
    before: Session,
    dl: SeedDownloader,
    own: Bitfield,
    own_before: Bitfield,
    msg: Message,
    res: Result<Reaction, SeedError>,
)
    requires
        before.sound(),
        before.phase is Idle,
        dl.is_after_msg(before.dl, own, own_before, msg, res),
    ensures
        forall|block: BlockDownload| #[trigger]
            dl.blocks().contains(block) ==> dl.pending_pieces@.contains_key(block.piece_index),
{
    assert forall|block: BlockDownload| #[trigger]
        dl.blocks().contains(block) implies dl.pending_pieces@.contains_key(block.piece_index) by {
        assert(before.dl.blocks().contains(block));
        if let Message::Piece { index, begin, block: data } = msg {
            let asked = SeedDownloader::block_of(index, begin, data@.len());
            if before.dl.blocks().contains(asked) && before.dl.pending_pieces@.contains_key(index)
                && before.dl.pending_pieces@[index].remaining_blocks == 1 {
                law_last_block_completes(before.dl, asked);
            }
        }
    }
}

proof fn lemma_tidy_after_request(before: Session, dl: SeedDownloader, block: BlockDownload)
    requires
        before.sound(),
        before.phase is Requesting,
        before.dl.pending_pieces@.contains_key(block.piece_index),
        dl.is_after_request(before.dl, block),
        dl.pending_pieces@ == after_request(before.dl.pending_pieces@, block),
    ensures
        forall|b: BlockDownload| #[trigger]
            dl.blocks().contains(b) ==> dl.pending_pieces@.contains_key(b.piece_index),
{
    assert forall|b: BlockDownload| #[trigger]
        dl.blocks().contains(b) implies dl.pending_pieces@.contains_key(b.piece_index) by {
        assert(b == block || before.dl.blocks().contains(b));
    }
}

/// What is paced stays so while nothing is being asked for.
proof fn lemma_paced_at_rest(before: Session)
    requires
        before.paced(),
    ensures
        forall|after: Session|
            after.dl == before.dl && (after.phase is Checking || after.phase is Idle
                || after.phase is KeepingAlive || after.phase is Leaving || after.phase is Stopped
                || before.phase is Delivering && after.phase is Asking) ==>
                #[trigger] after.paced(),
{
    assert forall|after: Session|
        after.dl == before.dl && (after.phase is Checking || after.phase is Idle
            || after.phase is KeepingAlive || after.phase is Leaving || after.phase is Stopped
            || before.phase is Delivering && after.phase is Asking) implies
        #[trigger] after.paced() by {
        assert forall|i: u32, j: u32| #[trigger]
            after.has_unrequested(i) && #[trigger] after.has_unrequested(j) implies i == j by {
            assert(before.has_unrequested(i) && before.has_unrequested(j));
        }
    }
}

/// A message other than a choke leaves no more to ask for, and no more requests open.
proof fn lemma_paced_after_msg(
    before: Session,
    dl: SeedDownloader,
    own: Bitfield,
    own_before: Bitfield,
    msg: Message,
    res: Result<Reaction, SeedError>,
)
    requires
        before.paced(),
        before.phase is Idle,
        msg != Message::Choke,
        dl.is_after_msg(before.dl, own, own_before, msg, res),
    ensures
        forall|after: Session|
            after.dl == dl && (after.phase is Checking || !(res matches Ok(Reaction::Nothing))
                && res is Ok && (after.phase is Asking || after.phase is Delivering)) ==>
                #[trigger] after.paced(),
{
    assert forall|i: u32| #[trigger]
        dl.pending_pieces@.contains_key(i) implies before.dl.pending_pieces@.contains_key(i)
        && dl.pending_pieces@[i].requested == before.dl.pending_pieces@[i].requested
        && dl.pending_pieces@[i].piece_length == before.dl.pending_pieces@[i].piece_length by {
        if let Message::Piece { index, .. } = msg {
            assert(i == index || before.dl.pending_pieces@.contains_key(i));
        }
    }
    assert forall|after: Session|
        after.dl == dl && (after.phase is Checking || !(res matches Ok(Reaction::Nothing))
            && res is Ok && (after.phase is Asking || after.phase is Delivering)) implies
        #[trigger] after.paced() by {
        assert forall|i: u32, j: u32| #[trigger]
            after.has_unrequested(i) && #[trigger] after.has_unrequested(j) implies i == j by {
            assert(before.has_unrequested(i) && before.has_unrequested(j));
        }
    }
}

/// The blocks to ask for are those of the one piece that has any left.
proof fn lemma_plan_is_paced(before: Session, blocks: Seq<BlockDownload>)
    requires
        before.paced(),
        before.phase is Asking,
        before.dl.is_plan(blocks),
    ensures
        blocks.len() == 0 ==> forall|after: Session|
            after.dl == before.dl && after.phase is Picking ==> #[trigger] after.paced(),
        blocks.len() > 0 ==> ({
            let index = blocks[0].piece_index;
            &&& before.dl.pending_pieces@.contains_key(index)
            &&& are_next(
                before.dl.pending_pieces@[index],
                index,
                before.dl.inflight,
                blocks,
                0,
            )
        }),
        forall|i: u32, j: u32, after: Session|
            after.dl == before.dl && #[trigger] after.has_unrequested(i)
                && #[trigger] after.has_unrequested(j) ==> i == j,
{
    let pieces = before.dl.pending_pieces@;
    let inflight = before.dl.inflight as int;
    assert forall|i: u32, j: u32, after: Session|
        after.dl == before.dl && #[trigger] after.has_unrequested(i)
            && #[trigger] after.has_unrequested(j) implies i == j by {
        assert(before.has_unrequested(i) && before.has_unrequested(j));
    }
    if !before.dl.choked_us {
        let order = choose|order: Seq<u32>|
            is_order_of(order, pieces) && blocks == #[trigger] planned(pieces, order, inflight);
        assert forall|i: int| 0 <= i < order.len() implies pieces.contains_key(
            #[trigger] order[i],
        ) by {
            assert(order.to_set().contains(order[i]));
        }
        if exists|at: int| 0 <= at < order.len() && before.has_unrequested(#[trigger] order[at]) {
            let at = choose|at: int|
                0 <= at < order.len() && before.has_unrequested(#[trigger] order[at]);
            assert forall|i: int| 0 <= i < order.len() && i != at implies pieces[
                #[trigger] order[i]].requested == pieces[order[i]].piece_length by {
                assert(!before.has_unrequested(order[i]));
            }
            law_limit_is_kept(pieces, order, inflight, at);
            lemma_parts(
                pieces[order[at]].piece_length - pieces[order[at]].requested,
                BLOCK_SIZE as int,
            );
            assert(blocks.skip(0) =~= blocks);
        } else {
            assert forall|i: int| 0 <= i < order.len() implies pieces[
                #[trigger] order[i]].requested == pieces[order[i]].piece_length by {
                assert(!before.has_unrequested(order[i]));
            }
            lemma_planned_in_full(pieces, order, inflight);
            assert forall|i: u32| !before.has_unrequested(i) by {
                if pieces.contains_key(i) {
                    assert(order.to_set().contains(i));
                    let k = choose|k: int| 0 <= k < order.len() && order[k] == i;
                    assert(!before.has_unrequested(order[k]));
                }
            }
            assert forall|after: Session|
                after.dl == before.dl && after.phase is Picking implies
                #[trigger] after.paced() by {
                assert forall|i: u32| !after.has_unrequested(i) by {
                    assert(!before.has_unrequested(i));
                }
            }
        }
    }
}

/// With one more block asked for, those that are left are the next ones, or there are none and
/// either the limit is met or nothing is left to ask for.
proof fn lemma_paced_after_request(
    before: Session,
    dl: SeedDownloader,
    blocks: Seq<BlockDownload>,
    sent: usize,
)
    requires
        before.paced(),
        before.valid(),
        before.phase matches Phase::Requesting { blocks: b, sent: s } && b@ == blocks && s == sent,
        dl.is_after_request(before.dl, blocks[sent as int]),
        dl.pending_pieces@ == after_request(before.dl.pending_pieces@, blocks[sent as int]),
    ensures
        forall|after: Session|
            after.dl == dl && (if sent + 1 < blocks.len() {
                after.phase matches Phase::Requesting { blocks: b, sent: s } && b@ == blocks && s
                    == sent + 1
            } else {
                after.phase is Picking
            }) ==> #[trigger] after.paced(),
{
    let index = blocks[sent as int].piece_index;
    let piece = before.dl.pending_pieces@[index];
    let left = blocks.len() - sent;
    let next = with_request(piece, blocks[sent as int]);
    assert(blocks.skip(sent as int)[0] == blocks[sent as int]);
    assert(blocks.skip(sent as int).skip(1) =~= blocks.skip(sent + 1));
    law_requests_follow(piece, index, left);
    lemma_next_request(piece);
    assert(dl.pending_pieces@[index] == next);
    if sent + 1 < blocks.len() {
        assert(blocks[sent + 1] == blocks.skip(sent + 1)[0]);
        assert(blocks[sent + 1].piece_index == index);
    }
    lemma_parts(next.piece_length - next.requested, BLOCK_SIZE as int);
    assert forall|after: Session|
        after.dl == dl && (if sent + 1 < blocks.len() {
            after.phase matches Phase::Requesting { blocks: b, sent: s } && b@ == blocks && s
                == sent + 1
        } else {
            after.phase is Picking
        }) implies #[trigger] after.paced() by {
        assert forall|i: u32| #[trigger]
            after.has_unrequested(i) implies i == index by {
            if i != index {
                assert(before.has_unrequested(i) && before.has_unrequested(index));
            }
        }
        assert forall|i: u32| #[trigger]
            dl.pending_pieces@.contains_key(i) implies dl.pending_pieces@[i].requested
            <= dl.pending_pieces@[i].piece_length by {
            if i != index {
                assert(before.dl.pending_pieces@.contains_key(i));
            }
        }
    }
}

/// While nothing is left to ask for of the pieces that are being downloaded, blocks of one more
/// piece can be asked for.
proof fn lemma_paced_while_starting(before: Session, after: Session)
    requires
        before.paced(),
        forall|i: u32| !before.has_unrequested(i),
        after.dl.pending_pieces@ == before.dl.pending_pieces@,
        after.dl.wants_piece(),
        after.phase matches Phase::Starting { index, piece, blocks, sent } && are_next(
            piece,
            index,
            after.dl.inflight,
            blocks@,
            sent,
        ),
    ensures
        after.paced(),
{
    assert forall|i: u32| !after.has_unrequested(i) by {
        assert(!before.has_unrequested(i));
    }
}

/// While nothing is left to ask for of the pieces that are being downloaded, one more piece can be
/// added.
proof fn lemma_paced_with_piece(
    before: Session,
    after: Session,
    index: u32,
    piece: PieceDownload,
)
    requires
        before.paced(),
        forall|i: u32| !before.has_unrequested(i),
        after.dl.pending_pieces@ == before.dl.pending_pieces@.insert(index, piece),
        piece.requested <= piece.piece_length,
        after.dl.inflight <= MAX_INFLIGHT_PER_PEER,
        !after.dl.choked_us,
        after.phase is Checking,
    ensures
        after.paced(),
{
    assert forall|i: u32, j: u32| #[trigger]
        after.has_unrequested(i) && #[trigger] after.has_unrequested(j) implies i == j by {
        assert(!before.has_unrequested(i) && !before.has_unrequested(j));
    }
    assert forall|i: u32| #[trigger]
        after.dl.pending_pieces@.contains_key(i) implies after.dl.pending_pieces@[i].requested
        <= after.dl.pending_pieces@[i].piece_length by {
        if i != index {
            assert(before.dl.pending_pieces@.contains_key(i));
        }
    }
}

} // verus!
