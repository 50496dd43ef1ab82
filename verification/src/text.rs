//! Text as bytes.

use vstd::prelude::*;
use vstd::utf8::{decode_utf8, encode_utf8, is_ascii_chars, valid_utf8};

verus! {

/// What `String::from_utf8_lossy` makes of `bytes`: the text they encode, with every ill-formed
/// sequence replaced.
pub uninterp spec fn lossy_text(bytes: Seq<u8>) -> Seq<char>;

/// Calls `String::from_utf8_lossy` and takes ownership of the text. On well-formed UTF-8 the
/// result is the text that the bytes encode; which replacement characters stand for ill-formed
/// bytes is left to the standard library.
#[verifier::external_body]
pub(crate) fn from_utf8_lossy(bytes: &[u8]) -> (text: String)
    ensures
        text@ == lossy_text(bytes@),
        valid_utf8(bytes@) ==> text@ == decode_utf8(bytes@),
{
    String::from_utf8_lossy(bytes).into_owned()
}

/// The text that a decoder makes of `bytes`: what they encode where they are well-formed UTF-8.
pub open spec fn utf8_text(bytes: Seq<u8>) -> Seq<char> {
    if valid_utf8(bytes) {
        decode_utf8(bytes)
    } else {
        lossy_text(bytes)
    }
}

/// Encoded text is read as it was.
pub(crate) proof fn lemma_utf8_text(text: Seq<char>)
    ensures
        utf8_text(encode_utf8(text)) == text,
{
    vstd::utf8::encode_utf8_valid_utf8(text);
    vstd::utf8::encode_utf8_decode_utf8(text);
}

/// Calls `std::str::from_utf8`, which succeeds exactly on well-formed UTF-8.
#[verifier::external_body]
pub(crate) fn is_utf8(bytes: &[u8]) -> (res: bool)
    ensures
        res == valid_utf8(bytes@),
{
    std::str::from_utf8(bytes).is_ok()
}

/// The text in which each byte is a character of ASCII.
pub open spec fn ascii_text(bytes: Seq<u8>) -> Seq<char> {
    Seq::new(bytes.len(), |i: int| bytes[i] as char)
}

/// Makes a text of characters of ASCII.
pub fn ascii_string(bytes: &[u8]) -> (text: String)
    requires
        forall|i: int| 0 <= i < bytes@.len() ==> #[trigger] bytes@[i] < 0x80,
    ensures
        text@ == ascii_text(bytes@),
        encode_utf8(text@) == bytes@,
{
    proof {
        let chars = ascii_text(bytes@);
        assert(is_ascii_chars(chars)) by {
            assert forall|i: int| 0 <= i < chars.len() implies '\0' <= #[trigger] chars[i]
                <= '\u{7f}' by {
                assert(bytes@[i] < 0x80);
            }
        }
        vstd::utf8::is_ascii_chars_encode_utf8(chars);
        assert(encode_utf8(chars) =~= bytes@) by {
            assert forall|i: int| 0 <= i < chars.len() implies encode_utf8(chars)[i]
                == bytes@[i] by {
                assert(chars[i] as u8 == encode_utf8(chars)[i]);
            }
        }
        vstd::utf8::encode_utf8_valid_utf8(chars);
        vstd::utf8::encode_utf8_decode_utf8(chars);
    }
    from_utf8_lossy(bytes)
}

/// Encoded text is read as it was, whatever the text.
pub proof fn law_text_is_read_as_it_was(text: Seq<char>)
    ensures
        utf8_text(encode_utf8(text)) == text,
{
    lemma_utf8_text(text);
}

/// Each byte of ASCII stands for the character with its number.
pub proof fn law_ascii_text(bytes: Seq<u8>, i: int)
    requires
        0 <= i < bytes.len(),
    ensures
        ascii_text(bytes).len() == bytes.len(),
        ascii_text(bytes)[i] as u32 == bytes[i],
{
}

} // verus!
