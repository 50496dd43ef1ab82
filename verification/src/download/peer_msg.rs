//! The messages that peers exchange after the handshake.

use bytes::BytesMut;
use vstd::prelude::*;

use super::CodecError;
use crate::buffer::{self, contents, lemma_u32_at, u32_at, u32_bytes};

verus! {

#[derive(Clone, Debug, PartialEq)]
pub enum Message {
    KeepAlive,
    Choke,
    Unchoke,
    Interested,
    NotInterested,
    Have { piece_index: u32 },
    /// Only ever sent as the first message, right after the handshake.
    Bitfield(Vec<u8>),
    Request { index: u32, begin: u32, length: u32 },
    Piece { index: u32, begin: u32, block: Vec<u8> },
    Cancel { index: u32, begin: u32, length: u32 },
}

/// What a [`Message`] stands for.
#[verifier::ext_equal]
pub enum MessageView {
    KeepAlive,
    Choke,
    Unchoke,
    Interested,
    NotInterested,
    Have { piece_index: u32 },
    Bitfield(Seq<u8>),
    Request { index: u32, begin: u32, length: u32 },
    Piece { index: u32, begin: u32, block: Seq<u8> },
    Cancel { index: u32, begin: u32, length: u32 },
}

impl View for Message {
    type V = MessageView;

    open spec fn view(&self) -> MessageView {
        match *self {
            Message::KeepAlive => MessageView::KeepAlive,
            Message::Choke => MessageView::Choke,
            Message::Unchoke => MessageView::Unchoke,
            Message::Interested => MessageView::Interested,
            Message::NotInterested => MessageView::NotInterested,
            Message::Have { piece_index } => MessageView::Have { piece_index },
            Message::Bitfield(bytes) => MessageView::Bitfield(bytes@),
            Message::Request { index, begin, length } => MessageView::Request {
                index,
                begin,
                length,
            },
            Message::Piece { index, begin, block } => MessageView::Piece {
                index,
                begin,
                block: block@,
            },
            Message::Cancel { index, begin, length } => MessageView::Cancel {
                index,
                begin,
                length,
            },
        }
    }
}

/// The kinds of messages that have a code on the wire.
#[derive(Copy, Clone, Debug, PartialEq, Eq)]
pub enum MessageType {
    Choke,
    Unchoke,
    Interested,
    NotInterested,
    Have,
    Bitfield,
    Request,
    Piece,
    Cancel,
}

impl MessageType {
    /// The code of a kind.
    pub open spec fn spec_code(self) -> u8 {
        match self {
            MessageType::Choke => 0,
            MessageType::Unchoke => 1,
            MessageType::Interested => 2,
            MessageType::NotInterested => 3,
            MessageType::Have => 4,
            MessageType::Bitfield => 5,
            MessageType::Request => 6,
            MessageType::Piece => 7,
            MessageType::Cancel => 8,
        }
    }

    /// The code of a kind.
    pub fn code(self) -> (code: u8)
        ensures
            code == self.spec_code(),
    {
        match self {
            MessageType::Choke => 0,
            MessageType::Unchoke => 1,
            MessageType::Interested => 2,
            MessageType::NotInterested => 3,
            MessageType::Have => 4,
            MessageType::Bitfield => 5,
            MessageType::Request => 6,
            MessageType::Piece => 7,
            MessageType::Cancel => 8,
        }
    }

    /// The kind with a given code.
    pub fn try_from(value: u8) -> (res: Result<MessageType, CodecError>)
        ensures
            match res {
                Ok(kind) => kind.spec_code() == value,
                Err(error) => error == CodecError::InvalidData && value > 8,
            },
    {
        match value {
            0 => Ok(MessageType::Choke),
            1 => Ok(MessageType::Unchoke),
            2 => Ok(MessageType::Interested),
            3 => Ok(MessageType::NotInterested),
            4 => Ok(MessageType::Have),
            5 => Ok(MessageType::Bitfield),
            6 => Ok(MessageType::Request),
            7 => Ok(MessageType::Piece),
            8 => Ok(MessageType::Cancel),
            _ => Err(CodecError::InvalidData),
        }
    }
}

/// The three numbers of a request and of a cancellation.
pub open spec fn triple(index: u32, begin: u32, length: u32) -> Seq<u8> {
    u32_bytes(index) + u32_bytes(begin) + u32_bytes(length)
}

impl MessageView {
    /// The kind of a message and what follows its code; nothing for a keep-alive.
    pub open spec fn body(self) -> Option<(MessageType, Seq<u8>)> {
        match self {
            MessageView::KeepAlive => None,
            MessageView::Choke => Some((MessageType::Choke, seq![])),
            MessageView::Unchoke => Some((MessageType::Unchoke, seq![])),
            MessageView::Interested => Some((MessageType::Interested, seq![])),
            MessageView::NotInterested => Some((MessageType::NotInterested, seq![])),
            MessageView::Have { piece_index } => Some((MessageType::Have, u32_bytes(piece_index))),
            MessageView::Bitfield(bytes) => Some((MessageType::Bitfield, bytes)),
            MessageView::Request { index, begin, length } => Some(
                (MessageType::Request, triple(index, begin, length)),
            ),
            MessageView::Piece { index, begin, block } => Some(
                (MessageType::Piece, u32_bytes(index) + u32_bytes(begin) + block),
            ),
            MessageView::Cancel { index, begin, length } => Some(
                (MessageType::Cancel, triple(index, begin, length)),
            ),
        }
    }

    /// A message on the wire: the length of what follows in four bytes, the code of its kind and
    /// its body. A length of four gigabytes and more is cut down to four bytes.
    pub open spec fn wire(self) -> Seq<u8> {
        match self {
            MessageView::Bitfield(bytes) => u32_bytes(((bytes.len() as u32) + 1) as u32).push(
                MessageType::Bitfield.spec_code(),
            ) + bytes,
            MessageView::Piece { index, begin, block } => u32_bytes(
                (9 + (block.len() as u32)) as u32,
            ).push(MessageType::Piece.spec_code()) + u32_bytes(index) + u32_bytes(begin) + block,
            _ => match self.body() {
                None => u32_bytes(0),
                Some((kind, body)) => u32_bytes((body.len() + 1) as u32).push(kind.spec_code())
                    + body,
            },
        }
    }

    /// Whether the length of the message can be put in four bytes at all.
    pub open spec fn encodable(self) -> bool {
        match self {
            MessageView::Bitfield(bytes) => (bytes.len() as u32) + 1 <= u32::MAX,
            MessageView::Piece { block, .. } => 9 + (block.len() as u32) <= u32::MAX,
            _ => true,
        }
    }

    /// Whether the length of the message is put in four bytes as it is.
    pub open spec fn fits(self) -> bool {
        match self {
            MessageView::Bitfield(bytes) => bytes.len() + 1 <= u32::MAX,
            MessageView::Piece { block, .. } => block.len() + 9 <= u32::MAX,
            _ => true,
        }
    }
}

/// The length that a message starts with.
pub open spec fn msg_len(s: Seq<u8>) -> int {
    u32_at(s, 0) as int
}

/// Whether `s` starts with all the bytes of a message.
pub open spec fn complete(s: Seq<u8>) -> bool {
    s.len() >= 4 && s.len() >= 4 + msg_len(s)
}

/// The message that `s` starts with and the number of bytes that are taken for it, where it is
/// complete. Nothing but a code that is not known is refused.
pub open spec fn message_of(s: Seq<u8>) -> (Option<MessageView>, int) {
    let len = msg_len(s);
    if len == 0 {
        (Some(MessageView::KeepAlive), 4)
    } else if s[4] == 0 {
        (Some(MessageView::Choke), 5)
    } else if s[4] == 1 {
        (Some(MessageView::Unchoke), 5)
    } else if s[4] == 2 {
        (Some(MessageView::Interested), 5)
    } else if s[4] == 3 {
        (Some(MessageView::NotInterested), 5)
    } else if s[4] == 4 {
        (Some(MessageView::Have { piece_index: u32_at(s, 5) }), 9)
    } else if s[4] == 5 {
        (Some(MessageView::Bitfield(s.subrange(5, 4 + len))), 4 + len)
    } else if s[4] == 6 {
        (
            Some(
                MessageView::Request {
                    index: u32_at(s, 5),
                    begin: u32_at(s, 9),
                    length: u32_at(s, 13),
                },
            ),
            17,
        )
    } else if s[4] == 7 {
        (
            Some(
                MessageView::Piece {
                    index: u32_at(s, 5),
                    begin: u32_at(s, 9),
                    block: s.subrange(13, 4 + len),
                },
            ),
            4 + len,
        )
    } else if s[4] == 8 {
        (
            Some(
                MessageView::Cancel {
                    index: u32_at(s, 5),
                    begin: u32_at(s, 9),
                    length: u32_at(s, 13),
                },
            ),
            17,
        )
    } else {
        (None, 5)
    }
}

/// Whether the numbers of a complete message can be read: as many bytes as its kind has are there,
/// though they may be those of the next message, and a piece is not shorter than its numbers. An
/// incomplete message has to fit into memory.
pub open spec fn decodable(s: Seq<u8>) -> bool {
    if !complete(s) {
        s.len() >= 4 ==> 4 + msg_len(s) <= isize::MAX
    } else if msg_len(s) == 0 {
        true
    } else if s[4] == 4 {
        s.len() >= 9
    } else if s[4] == 6 || s[4] == 8 {
        s.len() >= 17
    } else if s[4] == 7 {
        msg_len(s) >= 9
    } else {
        true
    }
}

pub struct MessageCodec;

impl MessageCodec {
    /// Whether the front of a buffer can be decoded.
    pub fn can_decode(&self, src: &BytesMut) -> (res: bool)
        ensures
            res == decodable(contents(*src)),
    {
        let bytes = buffer::as_slice(src);
        if bytes.len() < 4 {
            return true;
        }
        let len: u32 = buffer::read_u32(bytes, 0);
        let have: usize = bytes.len() - 4;
        if (have as u64) < len as u64 {
            return len as u64 + 4 <= isize::MAX as u64;
        }
        if len == 0 {
            return true;
        }
        let code: u8 = bytes[4];
        if code == 4 {
            bytes.len() >= 9
        } else if code == 6 || code == 8 {
            bytes.len() >= 17
        } else if code == 7 {
            len >= 9
        } else {
            true
        }
    }

    /// Takes a message from the front of a buffer, once all of it has arrived.
    pub fn decode(&mut self, src: &mut BytesMut) -> (res: Result<Option<Message>, CodecError>)
        requires
            decodable(contents(*old(src))),
        ensures
            match res {
                Ok(None) => !complete(contents(*old(src))) && contents(*final(src)) == contents(
                    *old(src),
                ),
                Ok(Some(message)) => {
                    let (expected, len) = message_of(contents(*old(src)));
                    &&& complete(contents(*old(src)))
                    &&& expected == Some(message@)
                    &&& contents(*final(src)) == contents(*old(src)).skip(len)
                },
                Err(error) => {
                    let (expected, len) = message_of(contents(*old(src)));
                    &&& error == CodecError::InvalidData
                    &&& complete(contents(*old(src)))
                    &&& expected is None
                    &&& contents(*final(src)) == contents(*old(src)).skip(len)
                },
            },
    {
        let ghost s = contents(*src);
        if buffer::len(src) < 4 {
            return Ok(None);
        }
        let len: u32 = buffer::read_u32(buffer::as_slice(src), 0);
        let have: usize = buffer::len(src) - 4;
        if (have as u64) < len as u64 {
            // The message is not here yet, so make room for the rest of it.
            buffer::reserve(src, len as usize - have);
            return Ok(None);
        }
        let msg_len: usize = len as usize;
        buffer::advance(src, 4);
        if msg_len == 0 {
            return Ok(Some(Message::KeepAlive));
        }
        let code: u8 = buffer::get_u8(src);
        assert(contents(*src) =~= s.skip(5));
        let kind = match MessageType::try_from(code) {
            Ok(kind) => kind,
            Err(error) => return Err(error),
        };
        let message = match kind {
            MessageType::Choke => Message::Choke,
            MessageType::Unchoke => Message::Unchoke,
            MessageType::Interested => Message::Interested,
            MessageType::NotInterested => Message::NotInterested,
            MessageType::Have => {
                let piece_index: u32 = buffer::get_u32(src);
                assert(contents(*src) =~= s.skip(9));
                Message::Have { piece_index }
            },
            MessageType::Bitfield => {
                let mut bitfield: Vec<u8> = vec![0; msg_len - 1];
                buffer::copy_to_slice(src, &mut bitfield);
                assert(bitfield@ =~= s.subrange(5, 4 + msg_len));
                assert(contents(*src) =~= s.skip(4 + msg_len));
                Message::Bitfield(bitfield)
            },
            MessageType::Request => {
                let index: u32 = buffer::get_u32(src);
                let begin: u32 = buffer::get_u32(src);
                let length: u32 = buffer::get_u32(src);
                assert(contents(*src) =~= s.skip(17));
                Message::Request { index, begin, length }
            },
            MessageType::Piece => {
                // The length counts the code, the index and the offset as well.
                let mut block: Vec<u8> = vec![0; msg_len - 9];
                let index: u32 = buffer::get_u32(src);
                let begin: u32 = buffer::get_u32(src);
                buffer::copy_to_slice(src, &mut block);
                assert(block@ =~= s.subrange(13, 4 + msg_len));
                assert(contents(*src) =~= s.skip(4 + msg_len));
                Message::Piece { index, begin, block }
            },
            MessageType::Cancel => {
                let index: u32 = buffer::get_u32(src);
                let begin: u32 = buffer::get_u32(src);
                let length: u32 = buffer::get_u32(src);
                assert(contents(*src) =~= s.skip(17));
                Message::Cancel { index, begin, length }
            },
        };
        Ok(Some(message))
    }

    /// Whether a message can be added to a buffer.
    pub fn can_encode(&self, item: &Message, dst: &BytesMut) -> (res: bool)
        ensures
            res == (item@.encodable() && contents(*dst).len() + item@.wire().len() <= isize::MAX),
    {
        let len: usize = match item {
            Message::KeepAlive => 4,
            Message::Choke | Message::Unchoke | Message::Interested | Message::NotInterested => 5,
            Message::Have { .. } => 9,
            Message::Bitfield(bitfield) => {
                if bitfield.len() as u32 == u32::MAX {
                    return false;
                }
                if bitfield.len() > isize::MAX as usize - 5 {
                    return false;
                }
                bitfield.len() + 5
            },
            Message::Request { .. } | Message::Cancel { .. } => 17,
            Message::Piece { block, .. } => {
                if block.len() as u32 > u32::MAX - 9 {
                    return false;
                }
                if block.len() > isize::MAX as usize - 13 {
                    return false;
                }
                block.len() + 13
            },
        };
        len <= isize::MAX as usize && buffer::len(dst) <= isize::MAX as usize - len
    }

    /// Adds a message to the end of a buffer.
    pub fn encode(&mut self, item: Message, dst: &mut BytesMut) -> (res: Result<(), CodecError>)
        requires
            item@.encodable(),
            contents(*old(dst)).len() + item@.wire().len() <= isize::MAX,
        ensures
            res is Ok,
            contents(*final(dst)) == contents(*old(dst)) + item@.wire(),
    {
        let ghost s = contents(*dst);
        let ghost wire = item@.wire();
        match item {
            Message::KeepAlive => {
                buffer::put_u32(dst, 0);
            },
            Message::Choke => {
                buffer::put_u32(dst, 1);
                buffer::put_u8(dst, MessageType::Choke.code());
            },
            Message::Unchoke => {
                buffer::put_u32(dst, 1);
                buffer::put_u8(dst, MessageType::Unchoke.code());
            },
            Message::Interested => {
                buffer::put_u32(dst, 1);
                buffer::put_u8(dst, MessageType::Interested.code());
            },
            Message::NotInterested => {
                buffer::put_u32(dst, 1);
                buffer::put_u8(dst, MessageType::NotInterested.code());
            },
            Message::Have { piece_index } => {
                buffer::put_u32(dst, 5);
                buffer::put_u8(dst, MessageType::Have.code());
                buffer::put_u32(dst, piece_index);
            },
            Message::Bitfield(bitfield) => {
                buffer::reserve(dst, bitfield.len() + 5);
                buffer::put_u32(dst, bitfield.len() as u32 + 1);
                buffer::put_u8(dst, MessageType::Bitfield.code());
                buffer::put(dst, bitfield.as_slice());
            },
            Message::Request { index, begin, length } => {
                buffer::reserve(dst, 17);
                buffer::put_u32(dst, 13);
                buffer::put_u8(dst, MessageType::Request.code());
                buffer::put_u32(dst, index);
                buffer::put_u32(dst, begin);
                buffer::put_u32(dst, length);
            },
            Message::Piece { index, begin, block } => {
                buffer::reserve(dst, 13 + block.len());
                buffer::put_u32(dst, 9 + block.len() as u32);
                buffer::put_u8(dst, MessageType::Piece.code());
                buffer::put_u32(dst, index);
                buffer::put_u32(dst, begin);
                buffer::put(dst, block.as_slice());
            },
            Message::Cancel { index, begin, length } => {
                buffer::reserve(dst, 17);
                buffer::put_u32(dst, 13);
                buffer::put_u8(dst, MessageType::Cancel.code());
                buffer::put_u32(dst, index);
                buffer::put_u32(dst, begin);
                buffer::put_u32(dst, length);
            },
        }
        assert(contents(*dst) =~= s + wire);
        Ok(())
    }
}

/// Reading a written message gives back the message, whatever follows it, and leaves what follows.
pub proof fn law_message_round_trip(message: MessageView, rest: Seq<u8>)
    requires
        message.fits(),
    ensures
        message.encodable(),
        complete(message.wire() + rest),
        decodable(message.wire() + rest),
        message_of(message.wire() + rest) == (Some(message), message.wire().len() as int),
        (message.wire() + rest).skip(message.wire().len() as int) == rest,
{
    let s = message.wire() + rest;
    assert(s.skip(message.wire().len() as int) =~= rest);
    let len = (message.wire().len() - 4) as u32;
    lemma_u32_at(s, 0, len);
    match message {
        MessageView::Have { piece_index } => {
            lemma_u32_at(s, 5, piece_index);
        },
        MessageView::Bitfield(bytes) => {
            assert(s.subrange(5, 4 + len) =~= bytes);
        },
        MessageView::Request { index, begin, length } | MessageView::Cancel {
            index,
            begin,
            length,
        } => {
            lemma_u32_at(s, 5, index);
            lemma_u32_at(s, 9, begin);
            lemma_u32_at(s, 13, length);
        },
        MessageView::Piece { index, begin, block } => {
            lemma_u32_at(s, 5, index);
            lemma_u32_at(s, 9, begin);
            assert(s.subrange(13, 4 + len) =~= block);
        },
        _ => {},
    }
}

/// No message is read before all of its bytes are there.
pub proof fn law_message_is_awaited(message: MessageView, received: int)
    requires
        message.fits(),
        0 <= received < message.wire().len(),
    ensures
        !complete(message.wire().take(received)),
{
    let s = message.wire().take(received);
    if received >= 4 {
        let len = (message.wire().len() - 4) as u32;
        lemma_u32_at(s, 0, len);
    }
}

/// The messages without a body are five bytes that differ in the last, and a keep-alive is four
/// zeros.
pub proof fn law_plain_messages_on_the_wire()
    ensures
        MessageView::KeepAlive.wire() == seq![0u8, 0, 0, 0],
        MessageView::Choke.wire() == seq![0u8, 0, 0, 1, 0],
        MessageView::Unchoke.wire() == seq![0u8, 0, 0, 1, 1],
        MessageView::Interested.wire() == seq![0u8, 0, 0, 1, 2],
        MessageView::NotInterested.wire() == seq![0u8, 0, 0, 1, 3],
{
    assert(MessageView::KeepAlive.wire() =~= seq![0u8, 0, 0, 0]);
    assert(MessageView::Choke.wire() =~= seq![0u8, 0, 0, 1, 0]);
    assert(MessageView::Unchoke.wire() =~= seq![0u8, 0, 0, 1, 1]);
    assert(MessageView::Interested.wire() =~= seq![0u8, 0, 0, 1, 2]);
    assert(MessageView::NotInterested.wire() =~= seq![0u8, 0, 0, 1, 3]);
}

/// A message with a body is the number of the bytes that follow, its code, and its numbers and
/// bytes, each at its place.
pub proof fn law_messages_on_the_wire(message: MessageView)
    requires
        message.fits(),
    ensures
        ({
            let s = message.wire();
            match message {
                MessageView::Have { piece_index } => {
                    &&& s.len() == 9 && u32_at(s, 0) == 5 && s[4] == 4
                    &&& u32_at(s, 5) == piece_index
                },
                MessageView::Bitfield(bytes) => {
                    &&& s.len() == 5 + bytes.len() && u32_at(s, 0) == 1 + bytes.len() && s[4] == 5
                    &&& s.skip(5) == bytes
                },
                MessageView::Request { index, begin, length } => {
                    &&& s.len() == 17 && u32_at(s, 0) == 13 && s[4] == 6
                    &&& u32_at(s, 5) == index && u32_at(s, 9) == begin && u32_at(s, 13) == length
                },
                MessageView::Piece { index, begin, block } => {
                    &&& s.len() == 13 + block.len() && u32_at(s, 0) == 9 + block.len() && s[4] == 7
                    &&& u32_at(s, 5) == index && u32_at(s, 9) == begin && s.skip(13) == block
                },
                MessageView::Cancel { index, begin, length } => {
                    &&& s.len() == 17 && u32_at(s, 0) == 13 && s[4] == 8
                    &&& u32_at(s, 5) == index && u32_at(s, 9) == begin && u32_at(s, 13) == length
                },
                _ => true,
            }
        }),
{
    let s = message.wire();
    lemma_u32_at(s, 0, (s.len() - 4) as u32);
    match message {
        MessageView::Have { piece_index } => {
            lemma_u32_at(s, 5, piece_index);
        },
        MessageView::Bitfield(bytes) => {
            assert(s.skip(5) =~= bytes);
        },
        MessageView::Request { index, begin, length } | MessageView::Cancel {
            index,
            begin,
            length,
        } => {
            lemma_u32_at(s, 5, index);
            lemma_u32_at(s, 9, begin);
            lemma_u32_at(s, 13, length);
        },
        MessageView::Piece { index, begin, block } => {
            lemma_u32_at(s, 5, index);
            lemma_u32_at(s, 9, begin);
            assert(s.skip(13) =~= block);
        },
        _ => {},
    }
}

/// Every message can be written, unless it is too long for its length to be.
pub proof fn law_short_messages_fit(message: MessageView)
    ensures
        match message {
            MessageView::Bitfield(bytes) => bytes.len() + 1 <= u32::MAX ==> message.fits(),
            MessageView::Piece { block, .. } => block.len() + 9 <= u32::MAX ==> message.fits(),
            _ => message.fits(),
        },
        message.fits() ==> message.encodable(),
{
}

/// Exactly the inputs that hold as many bytes as their first four say hold a message. The others
/// are waited with, unless the message would not fit into memory.
pub proof fn law_length_tells_when_a_message_is_complete(s: Seq<u8>)
    ensures
        complete(s) <==> s.len() >= 4 && s.len() >= 4 + u32_at(s, 0),
        s.len() < 4 ==> decodable(s),
        4 <= s.len() < 4 + u32_at(s, 0) <= isize::MAX ==> decodable(s),
{
}

/// What is read of a complete message is what would be written as the bytes that are taken for it;
/// only a code above that of a cancellation is no message.
pub proof fn law_message_is_what_stands_there(s: Seq<u8>)
    requires
        s.len() >= 4 + u32_at(s, 0),
    ensures
        u32_at(s, 0) == 0 ==> message_of(s) == (Some(MessageView::KeepAlive), 4int),
        u32_at(s, 0) > 0 && s[4] > 8 ==> decodable(s) && message_of(s) == (
            None::<MessageView>,
            5int,
        ),
        u32_at(s, 0) > 0 && s[4] <= 8 && (s[4] == 4 ==> s.len() >= 9) && (s[4] == 6 || s[4] == 8
            ==> s.len() >= 17) && (s[4] == 7 ==> u32_at(s, 0) >= 9) ==> decodable(s) && match (
        message_of(s)) {
            (Some(message), len) => {
                &&& message.fits()
                &&& message.wire().len() == len <= s.len()
                &&& message.wire().skip(4) == s.subrange(4, len)
                &&& s[4] == 5 || s[4] == 7 ==> len == 4 + u32_at(s, 0)
            },
            (None, _) => false,
        },
{
    if u32_at(s, 0) > 0 && s[4] <= 8 && decodable(s) {
        let (read, len) = message_of(s);
        let message = read.unwrap();
        let w = message.wire();
        match message {
            MessageView::Have { piece_index } => {
                lemma_number_is_there(s, 5);
            },
            MessageView::Request { .. } | MessageView::Cancel { .. } => {
                lemma_number_is_there(s, 5);
                lemma_number_is_there(s, 9);
                lemma_number_is_there(s, 13);
            },
            MessageView::Piece { .. } => {
                lemma_number_is_there(s, 5);
                lemma_number_is_there(s, 9);
            },
            _ => {},
        }
        assert(w.skip(4) =~= s.subrange(4, len));
    }
}

/// A number that is read and written again is the same four bytes.
proof fn lemma_number_is_there(s: Seq<u8>, at: int)
    requires
        0 <= at,
        at + 4 <= s.len(),
    ensures
        u32_bytes(u32_at(s, at)) == s.subrange(at, at + 4),
{
    lemma_digits_of_number(s[at], s[at + 1], s[at + 2], s[at + 3]);
    assert(u32_bytes(u32_at(s, at)) =~= s.subrange(at, at + 4));
}

proof fn lemma_digits_of_number(a: u8, b: u8, c: u8, d: u8)
    ensures
        ({
            let n = (a * 0x100_0000 + b * 0x1_0000 + c * 0x100 + d) as u32;
            &&& n / 0x100_0000 == a
            &&& n / 0x1_0000 % 0x100 == b
            &&& n / 0x100 % 0x100 == c
            &&& n % 0x100 == d
        }),
{
    let low = (c * 0x100 + d) as int;
    let n = a * 0x100_0000 + b * 0x1_0000 + low;
    assert(n / 0x1_0000 == a * 0x100 + b);
    assert(n / 0x100 == (a * 0x100 + b) * 0x100 + c);
    assert(n / 0x100_0000 == a);
    assert((a * 0x100 + b) % 0x100 == b as int);
    assert(((a * 0x100 + b) * 0x100 + c) % 0x100 == c as int);
}

/// A message stands for its own kind, with the numbers and the bytes that it holds.
pub proof fn law_what_a_message_stands_for(message: Message)
    ensures
        match message {
            Message::KeepAlive => message@ is KeepAlive,
            Message::Choke => message@ is Choke,
            Message::Unchoke => message@ is Unchoke,
            Message::Interested => message@ is Interested,
            Message::NotInterested => message@ is NotInterested,
            Message::Have { piece_index } => message@ == MessageView::Have { piece_index },
            Message::Bitfield(bytes) => message@ == MessageView::Bitfield(bytes@),
            Message::Request { index, begin, length } => message@ == MessageView::Request {
                index,
                begin,
                length,
            },
            Message::Piece { index, begin, block } => message@ == MessageView::Piece {
                index,
                begin,
                block: block@,
            },
            Message::Cancel { index, begin, length } => message@ == MessageView::Cancel {
                index,
                begin,
                length,
            },
        },
{
}

/// The kinds of messages are numbered from choke to cancellation.
pub proof fn law_kinds_are_numbered(kind: MessageType)
    ensures
        kind.spec_code() <= 8,
        kind.spec_code() == 0 <==> kind is Choke,
        kind.spec_code() == 1 <==> kind is Unchoke,
        kind.spec_code() == 2 <==> kind is Interested,
        kind.spec_code() == 3 <==> kind is NotInterested,
        kind.spec_code() == 4 <==> kind is Have,
        kind.spec_code() == 5 <==> kind is Bitfield,
        kind.spec_code() == 6 <==> kind is Request,
        kind.spec_code() == 7 <==> kind is Piece,
        kind.spec_code() == 8 <==> kind is Cancel,
{
}

} // verus!
