use bytes::{BufMut, BytesMut};
use torrent::download::handshake::{Handshake, HandshakeCodec};
use torrent::download::peer_msg::{Message, MessageCodec, MessageType};
use torrent::download::CodecError;

fn round_trip(msg_sent: Message) {
    let mut codec = MessageCodec;

    let mut buf = BytesMut::new();
    codec.encode(msg_sent.clone(), &mut buf).unwrap();

    let msg_received = codec.decode(&mut buf).unwrap().unwrap();
    assert_eq!(msg_sent, msg_received);
}

#[test]
fn codec_choke() {
    round_trip(Message::Choke);
}

#[test]
fn codec_unchoke() {
    round_trip(Message::Unchoke);
}

#[test]
fn codev_interested() {
    round_trip(Message::Interested);
}

#[test]
fn codec_not_interested() {
    round_trip(Message::NotInterested);
}

#[test]
fn codec_have() {
    round_trip(Message::Have { piece_index: 2 });
}

#[test]
fn codec_bit_field() {
    round_trip(Message::Bitfield(vec![1, 0, 1, 0, 1, 0, 0, 0]));
}

#[test]
fn codec_request() {
    round_trip(Message::Request {
        index: 3,
        begin: 16384,
        length: 32768,
    });
}

#[test]
fn codec_piece() {
    round_trip(Message::Piece {
        index: 3,
        begin: 16384,
        block: vec![1, 1, 1, 1, 0, 0, 0, 0],
    });
}

#[test]
fn codec_cancel() {
    round_trip(Message::Cancel {
        index: 3,
        begin: 16384,
        length: 100_000,
    });
}

#[test]
fn codec_keep_alive() {
    round_trip(Message::KeepAlive);
}

fn wire(message: Message) -> Vec<u8> {
    let mut buf = BytesMut::new();
    MessageCodec.encode(message, &mut buf).unwrap();
    buf.to_vec()
}

#[test]
fn messages_are_framed() {
    assert_eq!(wire(Message::KeepAlive), [0, 0, 0, 0]);
    assert_eq!(wire(Message::NotInterested), [0, 0, 0, 1, 3]);
    assert_eq!(
        wire(Message::Have {
            piece_index: 0x01020304
        }),
        [0, 0, 0, 5, 4, 1, 2, 3, 4]
    );
    assert_eq!(
        wire(Message::Bitfield(vec![0xf0, 0x80])),
        [0, 0, 0, 3, 5, 0xf0, 0x80]
    );
    assert_eq!(
        wire(Message::Request {
            index: 1,
            begin: 0x4000,
            length: 0x200
        }),
        [0, 0, 0, 13, 6, 0, 0, 0, 1, 0, 0, 0x40, 0, 0, 0, 2, 0]
    );
    assert_eq!(
        wire(Message::Piece {
            index: 1,
            begin: 2,
            block: vec![7, 8]
        }),
        [0, 0, 0, 11, 7, 0, 0, 0, 1, 0, 0, 0, 2, 7, 8]
    );
}

#[test]
fn messages_are_awaited() {
    let sent = wire(Message::Piece {
        index: 1,
        begin: 2,
        block: vec![7, 8, 9],
    });
    for received in 0..sent.len() {
        let mut buf = BytesMut::new();
        buf.put(&sent[..received]);
        assert!(MessageCodec.can_decode(&buf));
        assert_eq!(MessageCodec.decode(&mut buf), Ok(None));
        assert_eq!(&buf[..], &sent[..received]);
    }
}

#[test]
fn what_follows_a_message_is_left() {
    let mut buf = BytesMut::new();
    MessageCodec.encode(Message::Unchoke, &mut buf).unwrap();
    MessageCodec
        .encode(Message::Bitfield(vec![1, 2]), &mut buf)
        .unwrap();
    assert_eq!(MessageCodec.decode(&mut buf), Ok(Some(Message::Unchoke)));
    assert_eq!(
        MessageCodec.decode(&mut buf),
        Ok(Some(Message::Bitfield(vec![1, 2])))
    );
    assert_eq!(MessageCodec.decode(&mut buf), Ok(None));
}

#[test]
fn unknown_kinds_are_refused() {
    let mut buf = BytesMut::new();
    buf.put(&[0, 0, 0, 2, 9, 1][..]);
    assert_eq!(MessageCodec.decode(&mut buf), Err(CodecError::InvalidData));
    assert_eq!(&buf[..], [1]);
}

#[test]
fn short_frames_cannot_be_decoded() {
    for bytes in [
        &[0, 0, 0, 1, 4][..],
        &[0, 0, 0, 5, 6, 0, 0, 0, 1],
        &[0, 0, 0, 1, 8],
        &[0, 0, 0, 8, 7, 0, 0, 0, 1, 0, 0, 0],
    ] {
        let mut buf = BytesMut::new();
        buf.put(bytes);
        assert!(!MessageCodec.can_decode(&buf));
    }
}

#[test]
fn kinds_have_codes() {
    for code in 0..=8 {
        assert_eq!(MessageType::try_from(code).unwrap().code(), code);
    }
    assert_eq!(MessageType::try_from(5), Ok(MessageType::Bitfield));
    assert_eq!(MessageType::try_from(9), Err(CodecError::InvalidData));
}

#[test]
fn handshakes_round_trip() {
    let mut buf = BytesMut::new();
    HandshakeCodec
        .encode(Handshake::new([3; 20], [4; 20]), &mut buf)
        .unwrap();
    assert_eq!(buf.len(), 68);
    assert_eq!(buf[0], 19);
    assert_eq!(&buf[1..20], b"BitTorrent protocol");
    assert_eq!(&buf[20..28], [0; 8]);
    buf.put_u8(99);

    let received = HandshakeCodec.decode(&mut buf).unwrap().unwrap();
    assert_eq!(received.length, 19);
    assert_eq!(&received.protocol, b"BitTorrent protocol");
    assert_eq!(received.reserved, [0; 8]);
    assert_eq!(received.info_hash, [3; 20]);
    assert_eq!(received.peer_id, [4; 20]);
    assert_eq!(&buf[..], [99]);
}

#[test]
fn handshakes_are_awaited() {
    let mut buf = BytesMut::new();
    HandshakeCodec
        .encode(Handshake::new([3; 20], [4; 20]), &mut buf)
        .unwrap();
    buf.truncate(67);
    assert!(HandshakeCodec.decode(&mut buf).unwrap().is_none());
    assert_eq!(buf.len(), 67);
}

#[test]
fn default_handshake_is_blank() {
    let handshake = Handshake::default();
    assert_eq!(handshake.length, 0);
    assert_eq!(handshake.protocol, [0; 19]);
    assert_eq!(handshake.peer_id, [0; 20]);
}
