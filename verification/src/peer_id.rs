//! The name by which peers know us.

use rand::distributions::Alphanumeric;
use rand::Rng;
use vstd::prelude::*;
use vstd::utf8::encode_utf8;

use crate::text::{ascii_string, ascii_text};

verus! {

/// The number of bytes in the name of a peer.
pub const PEER_ID_SIZE: usize = 20;

/// Whether a byte is one of `A` to `Z`, `a` to `z` and `0` to `9`.
pub open spec fn is_alphanumeric(b: u8) -> bool {
    0x41 <= b <= 0x5a || 0x61 <= b <= 0x7a || 0x30 <= b <= 0x39
}

/// Samples `rand::distributions::Alphanumeric` with `rand::thread_rng`. The byte is left to
/// chance, but it is always a letter or a digit of ASCII.
#[verifier::external_body]
fn random_alphanumeric() -> (b: u8)
    ensures
        is_alphanumeric(b),
{
    rand::thread_rng().sample(Alphanumeric)
}

/// Makes a text of letters and digits.
pub fn id_text(bytes: &[u8]) -> (id: String)
    requires
        forall|i: int| 0 <= i < bytes@.len() ==> is_alphanumeric(#[trigger] bytes@[i]),
    ensures
        id@ == ascii_text(bytes@),
        encode_utf8(id@) == bytes@,
{
    ascii_string(bytes)
}

/// A name of random letters and digits.
pub fn gen_peer_id() -> (id: String)
    ensures
        id@.len() == PEER_ID_SIZE,
        encode_utf8(id@).len() == PEER_ID_SIZE,
        forall|i: int| 0 <= i < PEER_ID_SIZE ==> is_alphanumeric(#[trigger] encode_utf8(id@)[i]),
{
    let mut bytes: Vec<u8> = Vec::new();
    while bytes.len() < PEER_ID_SIZE
        invariant
            bytes@.len() <= PEER_ID_SIZE,
            forall|i: int| 0 <= i < bytes@.len() ==> is_alphanumeric(#[trigger] bytes@[i]),
        decreases PEER_ID_SIZE - bytes@.len(),
    {
        bytes.push(random_alphanumeric());
    }
    id_text(bytes.as_slice())
}

/// The bytes of a name, where there are as many as a name has.
pub fn id_bytes(id: &str) -> (res: Option<[u8; 20]>)
    ensures
        match res {
            Some(bytes) => bytes@ == encode_utf8(id@),
            None => encode_utf8(id@).len() != PEER_ID_SIZE,
        },
{
    let text = id.as_bytes();
    if text.len() != PEER_ID_SIZE {
        return None;
    }
    let mut bytes: [u8; 20] = [0; 20];
    let mut i: usize = 0;
    while i < PEER_ID_SIZE
        invariant
            i <= PEER_ID_SIZE == text@.len(),
            forall|j: int| 0 <= j < i ==> bytes@[j] == text@[j],
        decreases PEER_ID_SIZE - i,
    {
        bytes[i] = text[i];
        i += 1;
    }
    assert(bytes@ =~= text@);
    Some(bytes)
}

} // verus!
