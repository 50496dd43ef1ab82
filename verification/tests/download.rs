use std::sync::Arc;

use torrent::bencode::meta_info::{DownloadType, Info, Pieces};
use torrent::download::bitfield::Bitfield;
use torrent::download::file::{
    accepts_first, check_is_seed, DownloaderMsg, File, PeerError, SeedPicker,
};
use torrent::download::peer_msg::Message;
use torrent::download::piece::{
    request_blocks, validate_piece, BlockDownload, PieceDownload, BLOCK_SIZE,
};
use torrent::download::seed::{Reaction, SeedDownloader, SeedError};
use torrent::download::session::{Action, Event, Phase, Session, Turn};
use torrent::tracker::peers::Address;

/// The SHA-1 digest of `abc`.
const ABC: [u8; 20] = [
    169, 153, 62, 54, 71, 6, 129, 106, 186, 62, 37, 113, 120, 80, 194, 108, 156, 208, 216, 157,
];

/// The SHA-1 digest of three blocks of zeros.
const ZEROS: [u8; 20] = [
    111, 236, 213, 118, 156, 114, 126, 19, 123, 117, 128, 174, 59, 24, 35, 176, 110, 230, 249, 217,
];

fn info(length: u64, piece_length: u32, hashes: Vec<[u8; 20]>) -> Info {
    Info {
        name: "download".to_string(),
        piece_length,
        pieces: Pieces(hashes),
        download_type: DownloadType::SingleFile { length },
    }
}

fn downloader(length: u64, piece_length: u32, hash: [u8; 20]) -> (SeedDownloader, Bitfield) {
    let num = ((length + piece_length as u64 - 1) / piece_length as u64) as u32;
    let info = info(length, piece_length, vec![hash; num as usize]);
    (SeedDownloader::new(Arc::new(info)), Bitfield::zero(num))
}

/// Asks for all that can be asked for.
fn request_all(dl: &mut SeedDownloader, own: &mut Bitfield) -> Vec<BlockDownload> {
    let mut sent = Vec::new();
    assert!(dl.accepts_plan());
    for block in dl.request_pieces() {
        assert!(dl.accepts_request(&dl.pending_pieces[&block.piece_index], block));
        dl.request_sent(block);
        sent.push(block);
    }
    assert!(dl.accepts_next_piece(own));
    if let Some((index, mut piece)) = dl.next_piece(own) {
        for block in request_blocks(dl.inflight, index, &piece) {
            assert!(dl.accepts_request(&piece, block));
            dl.request_sent_for(&mut piece, block);
            sent.push(block);
        }
        dl.add_piece(index, piece);
    }
    sent
}

fn answer(
    dl: &mut SeedDownloader,
    own: &mut Bitfield,
    block: BlockDownload,
    data: Vec<u8>,
) -> Result<Reaction, SeedError> {
    let msg = Message::Piece {
        index: block.piece_index,
        begin: block.block_begin,
        block: data,
    };
    assert!(dl.accepts(own, &msg));
    dl.handle_msg(own, msg)
}

fn unchoke(dl: &mut SeedDownloader, own: &mut Bitfield) {
    assert!(matches!(
        dl.handle_msg(own, Message::Unchoke),
        Ok(Reaction::RequestPieces)
    ));
}

#[test]
fn blocks_follow_each_other() {
    let piece = PieceDownload::new([0; 20], 2 * BLOCK_SIZE + 5);
    assert_eq!(piece.remaining_blocks, 3);
    let blocks = request_blocks(0, 7, &piece);
    let expected: Vec<BlockDownload> = [
        (0, BLOCK_SIZE),
        (BLOCK_SIZE, BLOCK_SIZE),
        (2 * BLOCK_SIZE, 5),
    ]
    .iter()
    .map(|(block_begin, block_len)| BlockDownload {
        piece_index: 7,
        block_begin: *block_begin,
        block_len: *block_len,
    })
    .collect();
    assert_eq!(blocks, expected);
    assert_eq!(
        blocks[2].request(),
        Message::Request {
            index: 7,
            begin: 2 * BLOCK_SIZE,
            length: 5
        }
    );
}

#[test]
fn requests_stop_at_the_limit() {
    let piece = PieceDownload::new([0; 20], 8 * BLOCK_SIZE);
    assert_eq!(request_blocks(0, 0, &piece).len(), 5);
    assert_eq!(request_blocks(3, 0, &piece).len(), 2);
    assert_eq!(request_blocks(4, 0, &piece).len(), 1);
    // The limit is only noticed when it is met.
    assert_eq!(request_blocks(5, 0, &piece).len(), 8);
    assert_eq!(request_blocks(6, 0, &piece).len(), 8);
}

#[test]
fn pieces_are_validated() {
    assert!(validate_piece(b"abc", ABC));
    assert!(!validate_piece(b"abd", ABC));
    let mut other = ABC;
    other[19] ^= 1;
    assert!(!validate_piece(b"abc", other));
}

#[test]
fn nothing_is_asked_for_while_choked() {
    let (mut dl, mut own) = downloader(3, 3, ABC);
    assert!(dl.choked_us);
    assert!(dl.request_pieces().is_empty());
    assert!(dl.next_piece(&mut own).is_none());
    assert_eq!(own.cur, 0);
    assert!(request_all(&mut dl, &mut own).is_empty());
}

#[test]
fn piece_is_delivered() {
    let (mut dl, mut own) = downloader(6, 3, ABC);
    unchoke(&mut dl, &mut own);
    let sent = request_all(&mut dl, &mut own);
    assert_eq!(sent.len(), 1);
    assert_eq!(sent[0].block_len, 3);
    match answer(&mut dl, &mut own, sent[0], b"abc".to_vec()) {
        Ok(Reaction::Deliver {
            index,
            length,
            bytes,
        }) => {
            assert_eq!((index, length), (0, 3));
            assert_eq!(bytes, b"abc");
        }
        _ => panic!("not delivered"),
    }
    assert!(own.has(0));
    assert_eq!(dl.inflight, 0);
    assert!(dl.pending_pieces.is_empty());
    assert!(dl.pending_blocks.is_empty());
    assert_eq!(request_all(&mut dl, &mut own)[0].piece_index, 1);
}

#[test]
fn invalid_piece_is_refused_and_comes_up_again() {
    let (mut dl, mut own) = downloader(6, 3, ABC);
    unchoke(&mut dl, &mut own);
    let sent = request_all(&mut dl, &mut own);
    assert_eq!(
        answer(&mut dl, &mut own, sent[0], b"xyz".to_vec()).err(),
        Some(SeedError::InvalidPiece)
    );
    assert!(!own.has(0));
    assert_eq!(own.remaining(), 2);
    assert!(dl.pending_pieces.is_empty());
    let next = request_all(&mut dl, &mut own);
    assert_eq!(next[0].piece_index, 1);
    let again = request_all(&mut dl, &mut own);
    assert_eq!(again, sent);
    assert!(answer(&mut dl, &mut own, again[0], b"abc".to_vec()).is_ok());
    assert!(own.has(0));
}

#[test]
fn complete_pieces_are_settled_by_their_digest() {
    let mut own = Bitfield::zero(2);
    let piece = PieceDownload::new(ABC, 3);
    assert_eq!(
        SeedDownloader::settle_piece(&mut own, 1, piece, false).err(),
        Some(SeedError::InvalidPiece)
    );
    assert_eq!(own, Bitfield::zero(2));
    let piece = PieceDownload::new(ABC, 3);
    assert!(matches!(
        SeedDownloader::settle_piece(&mut own, 1, piece, true),
        Ok(Reaction::Deliver {
            index: 1,
            length: 3,
            ..
        })
    ));
    assert!(own.has(1) && !own.has(0));
}

#[test]
fn blocks_arrive_in_any_order() {
    let length = 2 * BLOCK_SIZE + 5;
    let (mut dl, mut own) = downloader(length as u64, length, [0; 20]);
    unchoke(&mut dl, &mut own);
    let sent = request_all(&mut dl, &mut own);
    assert_eq!(sent.len(), 3);
    for (i, at) in [2, 0].iter().enumerate() {
        let block = sent[*at];
        assert!(matches!(
            answer(&mut dl, &mut own, block, vec![*at as u8 + 1; block.block_len as usize]),
            Ok(Reaction::RequestPieces)
        ));
        assert_eq!(dl.pending_pieces[&0].remaining_blocks as usize, 2 - i);
        assert_eq!(dl.inflight as usize, 2 - i);
    }
    let bytes = &dl.pending_pieces[&0].bytes;
    assert_eq!(bytes.len(), length as usize);
    assert!(bytes[..BLOCK_SIZE as usize].iter().all(|b| *b == 1));
    assert!(bytes[BLOCK_SIZE as usize..2 * BLOCK_SIZE as usize]
        .iter()
        .all(|b| *b == 0));
    assert_eq!(bytes[2 * BLOCK_SIZE as usize..], [3; 5]);
    assert_eq!(own.remaining(), 1);
    assert_eq!(
        answer(&mut dl, &mut own, sent[1], vec![9; BLOCK_SIZE as usize]).err(),
        Some(SeedError::InvalidPiece)
    );
}

#[test]
fn blocks_have_to_be_asked_for() {
    let (mut dl, mut own) = downloader(3, 3, ABC);
    unchoke(&mut dl, &mut own);
    let block = request_all(&mut dl, &mut own)[0];
    let other = BlockDownload {
        block_begin: 1,
        ..block
    };
    assert_eq!(
        answer(&mut dl, &mut own, other, b"abc".to_vec()).err(),
        Some(SeedError::UnrequestedBlock)
    );
    assert_eq!(
        answer(&mut dl, &mut own, block, b"ab".to_vec()).err(),
        Some(SeedError::UnrequestedBlock)
    );
    assert_eq!(dl.pending_blocks, vec![block]);
    assert!(answer(&mut dl, &mut own, block, b"abc".to_vec()).is_ok());
    assert_eq!(
        answer(&mut dl, &mut own, block, b"abc".to_vec()).err(),
        Some(SeedError::UnrequestedBlock)
    );
}

#[test]
fn blocks_of_a_dropped_piece_are_refused() {
    let (mut dl, mut own) = downloader(3, 3, ABC);
    unchoke(&mut dl, &mut own);
    let (index, mut piece) = dl.next_piece(&mut own).unwrap();
    let block = request_blocks(dl.inflight, index, &piece)[0];
    dl.request_sent_for(&mut piece, block);
    // The next request could not be sent, so the piece was not added.
    assert!(!dl.accepts_request(&PieceDownload::new(ABC, 3), block));
    assert_eq!(
        answer(&mut dl, &mut own, block, b"abc".to_vec()).err(),
        Some(SeedError::UnrequestedPiece { index: 0 })
    );
    assert!(dl.pending_blocks.is_empty());
    assert_eq!(dl.inflight, 1);
}

#[test]
fn choke_starts_pieces_over() {
    let length = 7 * BLOCK_SIZE;
    let (mut dl, mut own) = downloader(length as u64, length, [0; 20]);
    unchoke(&mut dl, &mut own);
    let sent = request_all(&mut dl, &mut own);
    assert_eq!(sent.len(), 5);
    assert!(answer(&mut dl, &mut own, sent[0], vec![1; BLOCK_SIZE as usize]).is_ok());
    assert!(dl.accepts(&own, &Message::Choke));
    assert!(matches!(
        dl.handle_msg(&mut own, Message::Choke),
        Ok(Reaction::Nothing)
    ));
    assert!(dl.choked_us);
    assert!(dl.pending_blocks.is_empty());
    assert_eq!(dl.inflight, 4);
    let piece = &dl.pending_pieces[&0];
    assert_eq!((piece.requested, piece.remaining_blocks), (0, 7));
    assert_eq!(piece.bytes[0], 1);

    unchoke(&mut dl, &mut own);
    assert!(matches!(
        dl.handle_msg(&mut own, Message::Unchoke),
        Ok(Reaction::Nothing)
    ));
    let again = request_all(&mut dl, &mut own);
    assert_eq!(again, sent[..1]);
    assert_eq!(dl.inflight, 5);
}

#[test]
fn limit_is_kept_without_a_choke() {
    let piece_length = 3 * BLOCK_SIZE;
    let (mut dl, mut own) = downloader(5 * piece_length as u64, piece_length, ZEROS);
    unchoke(&mut dl, &mut own);
    let mut open = request_all(&mut dl, &mut own);
    while let Some(block) = open.pop() {
        assert!(answer(&mut dl, &mut own, block, vec![0; block.block_len as usize]).is_ok());
        open.append(&mut request_all(&mut dl, &mut own));
        assert!(dl.inflight <= 5);
        assert_eq!(dl.inflight as usize, dl.pending_blocks.len());
    }
    assert_eq!(own.remaining(), 0);
}

#[test]
fn other_messages_change_nothing() {
    let (mut dl, mut own) = downloader(3, 3, ABC);
    for msg in [
        Message::KeepAlive,
        Message::Have { piece_index: 1 },
        Message::Interested,
        Message::NotInterested,
    ] {
        assert!(matches!(
            dl.handle_msg(&mut own, msg),
            Ok(Reaction::Nothing)
        ));
    }
    assert_eq!(
        dl.handle_msg(&mut own, Message::Bitfield(vec![255])).err(),
        Some(SeedError::BitfieldOutOfOrder)
    );
    let request = Message::Request {
        index: 0,
        begin: 0,
        length: 1,
    };
    let cancel = Message::Cancel {
        index: 0,
        begin: 0,
        length: 1,
    };
    assert!(!dl.accepts(&own, &request));
    assert!(!dl.accepts(&own, &cancel));
}

#[test]
fn pieces_without_a_digest_cannot_be_started() {
    let info = info(6, 3, vec![ABC]);
    let mut dl = SeedDownloader::new(Arc::new(info));
    let mut own = Bitfield::zero(2);
    unchoke(&mut dl, &mut own);
    assert!(dl.accepts_next_piece(&own));
    assert_eq!(request_all(&mut dl, &mut own).len(), 1);
    assert!(!dl.accepts_next_piece(&own));
}

#[test]
fn last_piece_of_a_full_byte_is_marked() {
    let (mut dl, mut own) = downloader(24, 3, ABC);
    for index in 0..7 {
        own.set(index);
    }
    unchoke(&mut dl, &mut own);
    let block = request_all(&mut dl, &mut own)[0];
    assert_eq!(block.piece_index, 7);
    assert!(matches!(
        answer(&mut dl, &mut own, block, b"abc".to_vec()),
        Ok(Reaction::Deliver { index: 7, .. })
    ));
    assert_eq!(own.remaining(), 0);
}

fn address(last: u8) -> Address {
    Address {
        ip: [10, 0, 0, last],
        port: 6881,
    }
}

#[test]
fn file_is_put_together() {
    let mut file = File::new("id".to_string(), info(7, 3, vec![]), vec![address(1)]);
    assert_eq!(file.bytes, [0; 7]);
    assert_eq!(file.peers, vec![address(1)]);
    for (index, bytes) in [(2, vec![7]), (0, vec![1, 2, 3]), (1, vec![4, 5, 6])] {
        let msg = DownloaderMsg::Piece {
            index,
            length: bytes.len() as u32,
            bytes,
        };
        assert!(file.accepts(&msg));
        file.handle(msg);
    }
    file.handle(DownloaderMsg::Disconnect(address(1)));
    assert!(!file.accepts(&DownloaderMsg::Piece {
        index: 2,
        length: 2,
        bytes: vec![1, 2]
    }));
    assert_eq!(file.into_bytes(), [1, 2, 3, 4, 5, 6, 7]);
}

#[test]
fn other_lengths_shift_what_follows() {
    let mut file = File::new("id".to_string(), info(6, 2, vec![]), vec![]);
    file.handle(DownloaderMsg::Piece {
        index: 1,
        length: 2,
        bytes: vec![1, 2, 3],
    });
    assert_eq!(file.bytes, [0, 0, 1, 2, 3, 0, 0]);
}

#[test]
fn download_is_finished_when_nothing_remains() {
    let mut own = Bitfield::zero(2);
    own.set(1);
    assert!(!File::is_finished(&own));
    own.set(0);
    assert!(File::is_finished(&own));
}

#[test]
fn first_message_tells_a_seed() {
    assert_eq!(check_is_seed(8, None), Err(PeerError::Ended));
    assert_eq!(
        check_is_seed(8, Some(Message::Bitfield(vec![0xff]))),
        Ok(())
    );
    assert_eq!(
        check_is_seed(8, Some(Message::Bitfield(vec![0xfe]))),
        Err(PeerError::NotSeed)
    );
    assert_eq!(
        check_is_seed(8, Some(Message::Unchoke)),
        Err(PeerError::NotBitfield)
    );
    assert!(!accepts_first(8, &Some(Message::Bitfield(vec![]))));
    assert!(accepts_first(8, &Some(Message::Choke)));
    assert!(accepts_first(8, &None));
}

#[test]
fn five_seeds_are_enough() {
    let peers: Vec<Address> = (0..9).map(address).collect();
    let mut picker = SeedPicker::new();
    let mut seeds = Vec::new();
    while let Some(peer) = picker.next_peer(&peers) {
        let seed = peer.ip[3] % 4 != 1;
        if seed {
            seeds.push(peer.ip[3]);
        }
        picker.peer_checked(seed);
    }
    assert_eq!(seeds, [0, 2, 3, 4, 6]);

    let mut picker = SeedPicker::new();
    let mut checked = 0;
    while picker.next_peer(&peers).is_some() {
        picker.peer_checked(false);
        checked += 1;
    }
    assert_eq!((checked, picker.num_seeds), (9, 0));
}

fn step(session: Session, own: &mut Bitfield, event: Event) -> Turn {
    assert!(session.accepts(own, &event));
    session.step(own, event)
}

/// Goes on until there is something to do.
fn proceed(session: Session, own: &mut Bitfield) -> Turn {
    let mut turn = step(session, own, Event::Proceed);
    while let Action::Proceed = turn.action {
        turn = step(turn.session, own, Event::Proceed);
    }
    turn
}

fn after(turn: Turn, own: &mut Bitfield, event: Event) -> Turn {
    let turn = step(turn.session, own, event);
    match turn.action {
        Action::Proceed => proceed(turn.session, own),
        _ => turn,
    }
}

fn piece(block: BlockDownload, data: &[u8]) -> Event {
    Event::Received(Message::Piece {
        index: block.piece_index,
        begin: block.block_begin,
        block: data.to_vec(),
    })
}

#[test]
fn session_downloads_from_a_seed() {
    let info = info(9, 3, vec![ABC; 3]);
    let mut own = Bitfield::zero(3);
    let session = Session::new(address(1), Arc::new(info));
    let mut turn = proceed(session, &mut own);
    assert!(matches!(turn.action, Action::Wait));
    let mut events = vec![Event::Received(Message::Unchoke)];
    let mut delivered = Vec::new();
    loop {
        let event = match &turn.action {
            Action::Stop => break,
            Action::Send(Message::Request {
                index,
                begin,
                length,
            }) => {
                let block = BlockDownload {
                    piece_index: *index,
                    block_begin: *begin,
                    block_len: *length,
                };
                events.push(piece(block, b"abc"));
                Event::Done(true)
            }
            Action::Report(DownloaderMsg::Piece {
                index,
                length,
                bytes,
            }) => {
                assert_eq!((*length, &bytes[..]), (3, &b"abc"[..]));
                delivered.push(*index);
                Event::Done(true)
            }
            Action::Wait => events.remove(0),
            _ => panic!("unexpected action"),
        };
        turn = after(turn, &mut own, event);
        assert!(turn.error.is_none());
    }
    assert_eq!(delivered, [0, 1, 2]);
    assert!(matches!(turn.session.phase, Phase::Stopped));
    assert_eq!(own.remaining(), 0);
}

#[test]
fn session_keeps_alive_and_leaves() {
    let mut own = Bitfield::zero(1);
    let session = Session::new(address(7), Arc::new(info(3, 3, vec![ABC])));
    let turn = proceed(session, &mut own);
    let turn = after(turn, &mut own, Event::KeepAliveDue);
    assert!(matches!(turn.action, Action::Send(Message::KeepAlive)));
    let turn = after(turn, &mut own, Event::Done(false));
    assert!(matches!(turn.action, Action::Wait));
    let turn = after(turn, &mut own, Event::Failed);
    assert!(matches!(turn.action, Action::Wait));
    let turn = after(turn, &mut own, Event::Ended);
    match &turn.action {
        Action::Report(DownloaderMsg::Disconnect(gone)) => assert_eq!(*gone, address(7)),
        _ => panic!("not reported"),
    }
    let turn = after(turn, &mut own, Event::Done(true));
    assert!(matches!(turn.action, Action::Stop));
    assert!(!turn.session.accepts(&own, &Event::Proceed));
}

#[test]
fn session_reports_errors() {
    let mut own = Bitfield::zero(2);
    let session = Session::new(address(7), Arc::new(info(6, 3, vec![ABC; 2])));
    let turn = proceed(session, &mut own);
    let turn = step(
        turn.session,
        &mut own,
        Event::Received(Message::Bitfield(vec![])),
    );
    assert_eq!(turn.error, Some(SeedError::BitfieldOutOfOrder));
    let turn = proceed(turn.session, &mut own);
    let turn = after(turn, &mut own, Event::Received(Message::Unchoke));
    assert!(matches!(
        turn.action,
        Action::Send(Message::Request {
            index: 0,
            begin: 0,
            length: 3
        })
    ));
    // The request is not sent, so the piece is given up.
    let turn = after(turn, &mut own, Event::Done(false));
    assert!(matches!(turn.action, Action::Wait));
    assert!(turn.session.dl.pending_pieces.is_empty());
    assert_eq!(turn.session.dl.inflight, 0);
}

#[test]
fn session_asks_for_one_block_at_a_time() {
    let length = 7 * BLOCK_SIZE;
    let mut own = Bitfield::zero(1);
    let session = Session::new(address(7), Arc::new(info(length as u64, length, vec![ABC])));
    let turn = proceed(session, &mut own);
    let mut turn = after(turn, &mut own, Event::Received(Message::Unchoke));
    let mut begins = Vec::new();
    while let Action::Send(Message::Request { begin, .. }) = turn.action {
        begins.push(begin);
        turn = after(turn, &mut own, Event::Done(true));
    }
    assert_eq!(begins, [0, 1, 2, 3, 4].map(|i| i * BLOCK_SIZE));
    assert!(matches!(turn.action, Action::Wait));
    assert_eq!(turn.session.dl.inflight, 5);

    // One answer makes room for one more request.
    let block = turn.session.dl.pending_blocks[1];
    let turn = after(
        turn,
        &mut own,
        piece(block, &vec![1; BLOCK_SIZE as usize]),
    );
    assert!(matches!(
        turn.action,
        Action::Send(Message::Request { begin, .. }) if begin == 5 * BLOCK_SIZE
    ));
    let turn = after(turn, &mut own, Event::Done(true));
    assert!(matches!(turn.action, Action::Wait));
    assert_eq!(turn.session.dl.inflight, 5);
    let turn = after(turn, &mut own, Event::Received(Message::Choke));
    assert!(matches!(turn.action, Action::Wait));
    assert_eq!(turn.session.dl.inflight, 5);

    // The requests that were open when the peer choked us stay counted, so the limit is not met.
    let mut turn = after(turn, &mut own, Event::Received(Message::Unchoke));
    let mut sent = 0;
    while let Action::Send(Message::Request { .. }) = turn.action {
        sent += 1;
        turn = after(turn, &mut own, Event::Done(true));
    }
    assert_eq!(sent, 7);
    assert_eq!(turn.session.dl.inflight, 12);
}

#[test]
fn session_expects_certain_events() {
    let own = Bitfield::zero(1);
    let session = Session::new(address(7), Arc::new(info(3, 3, vec![ABC])));
    assert!(session.accepts(&own, &Event::Proceed));
    assert!(!session.accepts(&own, &Event::Done(true)));
    assert!(!session.accepts(&own, &Event::Ended));
}
