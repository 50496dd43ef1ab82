//! The bencoded form of numbers and strings.

use vstd::prelude::*;

use super::syntax::{all_digits, decimal, is_digit, COLON, END, INT, MINUS, ZERO};

verus! {

/// The decimal digits of a number, without leading zeros.
pub open spec fn digits(n: nat) -> Seq<u8>
    decreases n,
{
    if n < 10 {
        seq![(ZERO + n) as u8]
    } else {
        digits(n / 10).push((ZERO + n % 10) as u8)
    }
}

/// The digits of a number are digits, there is at least one, and they denote the number.
pub(crate) proof fn lemma_digits(n: nat)
    ensures
        digits(n).len() > 0,
        all_digits(digits(n)),
        decimal(digits(n)) == n,
    decreases n,
{
    if n < 10 {
        assert(digits(n).drop_last() =~= seq![]);
        assert(decimal(digits(n).drop_last()) == 0);
    } else {
        lemma_digits(n / 10);
        let d = (ZERO + n % 10) as u8;
        assert(digits(n).drop_last() =~= digits(n / 10));
        assert forall|i: int| 0 <= i < digits(n).len() implies is_digit(
            #[trigger] digits(n)[i],
        ) by {
            if i < digits(n / 10).len() {
                assert(is_digit(digits(n / 10)[i]));
            }
        }
    }
}

/// The decimal digits of a number.
pub fn decimal_digits(n: u64) -> (res: Vec<u8>)
    ensures
        res@ == digits(n as nat),
    decreases n,
{
    let last: u8 = ZERO + (n % 10) as u8;
    let mut res = if n < 10 {
        Vec::new()
    } else {
        decimal_digits(n / 10)
    };
    res.push(last);
    assert(n < 10 ==> res@ =~= digits(n as nat));
    res
}

/// A number as a bencoded integer.
pub open spec fn int_bytes(n: nat) -> Seq<u8> {
    seq![INT] + digits(n) + seq![END]
}

/// A number with its sign as a bencoded integer.
pub open spec fn signed_bytes(n: int) -> Seq<u8> {
    if n >= 0 {
        int_bytes(n as nat)
    } else {
        seq![INT, MINUS] + digits((-n) as nat) + seq![END]
    }
}

/// Bytes as a bencoded string.
pub open spec fn string_bytes(s: Seq<u8>) -> Seq<u8> {
    digits(s.len()) + seq![COLON] + s
}

/// Calls `serde_bencode::to_bytes` on a number, which never fails there: it is written in decimal
/// between `i` and `e`.
#[verifier::external_body]
pub(crate) fn encode_int(n: u64) -> (bytes: Vec<u8>)
    ensures
        bytes@ == int_bytes(n as nat),
{
    serde_bencode::to_bytes(&n).expect("numbers can be encoded")
}

/// Calls `serde_bencode::to_bytes` on a `serde_bencode::value::Value::Bytes`, which never fails
/// there: the bytes are written behind their number in decimal and a colon.
#[verifier::external_body]
pub(crate) fn encode_bytes(s: &[u8]) -> (bytes: Vec<u8>)
    ensures
        bytes@ == string_bytes(s@),
{
    let value = serde_bencode::value::Value::Bytes(s.to_vec());
    serde_bencode::to_bytes(&value).expect("byte strings can be encoded")
}

/// The digits of a number denote it, and none that leads is zero, so there is one way to write it.
pub proof fn law_digits_denote_their_number(n: nat)
    ensures
        digits(n).len() > 0,
        forall|i: int| 0 <= i < digits(n).len() ==> 0x30 <= #[trigger] digits(n)[i] <= 0x39,
        decimal(digits(n)) == n,
        n > 0 ==> digits(n)[0] != 0x30,
        n == 0 ==> digits(n) == seq![0x30u8],
{
    lemma_digits(n);
    law_no_leading_zero(n);
    assert forall|i: int| 0 <= i < digits(n).len() implies 0x30 <= #[trigger] digits(n)[i]
        <= 0x39 by {
        assert(is_digit(digits(n)[i]));
    }
}

/// A number with more than one digit does not start with a zero.
pub proof fn law_no_leading_zero(n: nat)
    ensures
        n > 0 ==> digits(n)[0] != 0x30,
        n < 10 <==> digits(n).len() == 1,
    decreases n,
{
    if n >= 10 {
        law_no_leading_zero(n / 10);
        lemma_digits(n / 10);
        assert(digits(n)[0] == digits(n / 10)[0]);
    }
}

/// A bencoded number is its digits between `i` and `e`, behind a minus where it is negative, and a
/// bencoded string is the number of its bytes, a colon, and the bytes.
pub proof fn law_bencoded_leaves(n: nat, s: Seq<u8>)
    ensures
        int_bytes(n).len() == digits(n).len() + 2,
        int_bytes(n)[0] == 0x69,
        int_bytes(n).subrange(1, 1 + digits(n).len() as int) == digits(n),
        int_bytes(n).last() == 0x65,
        signed_bytes(n as int) == int_bytes(n),
        n > 0 ==> signed_bytes(-(n as int)) == seq![0x69u8, 0x2d] + int_bytes(n).skip(1),
        string_bytes(s).len() == digits(s.len()).len() + 1 + s.len(),
        string_bytes(s).take(digits(s.len()).len() as int) == digits(s.len()),
        string_bytes(s)[digits(s.len()).len() as int] == 0x3a,
        string_bytes(s).skip(digits(s.len()).len() as int + 1) == s,
{
    assert(int_bytes(n).subrange(1, 1 + digits(n).len() as int) =~= digits(n));
    if n > 0 {
        assert(signed_bytes(-(n as int)) =~= seq![0x69u8, 0x2d] + int_bytes(n).skip(1));
    }
    assert(string_bytes(s).take(digits(s.len()).len() as int) =~= digits(s.len()));
    assert(string_bytes(s).skip(digits(s.len()).len() as int + 1) =~= s);
}

} // verus!
