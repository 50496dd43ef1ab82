//! The lexical elements that both decoders share: decimal numbers and length prefixes.

use vstd::prelude::*;
use vstd::slice::slice_subrange;

verus! {

/// The character `0`.
pub const ZERO: u8 = 0x30;

/// The character `9`.
pub const NINE: u8 = 0x39;

/// The character `+`.
pub const PLUS: u8 = 0x2b;

/// The character `-`.
pub const MINUS: u8 = 0x2d;

/// The character `:`, which ends the length of a string.
pub const COLON: u8 = 0x3a;

/// The character `i`, which starts an integer.
pub const INT: u8 = 0x69;

/// The character `l`, which starts a list.
pub const LIST: u8 = 0x6c;

/// The character `d`, which starts a dictionary.
pub const DICT: u8 = 0x64;

/// The character `e`, which ends an integer, a list and a dictionary.
pub const END: u8 = 0x65;

pub open spec fn is_digit(b: u8) -> bool {
    ZERO <= b <= NINE
}

pub open spec fn all_digits(s: Seq<u8>) -> bool {
    forall|i: int| 0 <= i < s.len() ==> is_digit(#[trigger] s[i])
}

/// The number that a sequence of decimal digits denotes.
pub open spec fn decimal(s: Seq<u8>) -> nat
    decreases s.len(),
{
    if s.len() == 0 {
        0
    } else {
        decimal(s.drop_last()) * 10 + (s.last() - ZERO) as nat
    }
}

/// How many bytes of `s` come before the first `b`; all of them, where there is no `b`.
pub open spec fn until(s: Seq<u8>, b: u8) -> int
    decreases s.len(),
{
    if s.len() == 0 || s[0] == b {
        0
    } else {
        1 + until(s.skip(1), b)
    }
}

/// The integer that an optionally signed sequence of decimal digits denotes, where it is one of
/// 64 bits.
pub open spec fn int_literal(t: Seq<u8>) -> Option<int> {
    let digits = if t.len() > 0 && (t[0] == PLUS || t[0] == MINUS) {
        t.skip(1)
    } else {
        t
    };
    let n = if t.len() > 0 && t[0] == MINUS {
        -(decimal(digits) as int)
    } else {
        decimal(digits) as int
    };
    if digits.len() > 0 && all_digits(digits) && i64::MIN <= n <= i64::MAX {
        Some(n)
    } else {
        None
    }
}

/// The length that a string starts with and the offset of its first byte of text.
pub open spec fn length_prefix(s: Seq<u8>) -> Option<(nat, int)> {
    let colon = until(s, COLON);
    if 0 < colon < s.len() && all_digits(s.take(colon)) {
        Some((decimal(s.take(colon)), colon + 1))
    } else {
        None
    }
}

pub(crate) proof fn lemma_until(s: Seq<u8>, b: u8)
    ensures
        0 <= until(s, b) <= s.len(),
        until(s, b) < s.len() ==> s[until(s, b)] == b,
        forall|j: int| 0 <= j < until(s, b) ==> s[j] != b,
    decreases s.len(),
{
    if s.len() != 0 && s[0] != b {
        lemma_until(s.skip(1), b);
        assert forall|j: int| 0 <= j < until(s, b) implies s[j] != b by {
            if j > 0 {
                assert(s[j] == s.skip(1)[j - 1]);
            }
        }
    }
}

pub(crate) proof fn lemma_until_is(s: Seq<u8>, b: u8, at: int)
    requires
        0 <= at <= s.len(),
        at < s.len() ==> s[at] == b,
        forall|j: int| 0 <= j < at ==> s[j] != b,
    ensures
        until(s, b) == at,
{
    lemma_until(s, b);
    let u = until(s, b);
    if u < at {
        assert(s[u] != b);
    }
}

pub(crate) proof fn lemma_decimal_grows(s: Seq<u8>, i: int)
    requires
        0 <= i <= s.len(),
        all_digits(s),
    ensures
        decimal(s.take(i)) <= decimal(s),
    decreases s.len() - i,
{
    if i < s.len() {
        lemma_decimal_grows(s, i + 1);
        assert(s.take(i + 1).drop_last() =~= s.take(i));
        assert(is_digit(s[i]));
    } else {
        assert(s.take(i) =~= s);
    }
}

/// Where the first `b` in `input` is.
pub fn find(input: &[u8], b: u8) -> (at: Option<usize>)
    ensures
        match at {
            Some(at) => at < input.len() && at == until(input@, b),
            None => until(input@, b) == input@.len(),
        },
{
    let mut i: usize = 0;
    while i < input.len()
        invariant
            i <= input@.len(),
            forall|j: int| 0 <= j < i ==> input@[j] != b,
        decreases input@.len() - i,
    {
        if input[i] == b {
            proof {
                lemma_until_is(input@, b, i as int);
            }
            return Some(i);
        }
        i += 1;
    }
    proof {
        lemma_until_is(input@, b, i as int);
    }
    None
}

/// Reads a run of decimal digits as a number of 64 bits.
pub fn parse_decimal(digits: &[u8]) -> (n: Option<u64>)
    ensures
        match n {
            Some(n) => all_digits(digits@) && n == decimal(digits@),
            None => !(all_digits(digits@) && decimal(digits@) <= u64::MAX),
        },
{
    let mut n: u64 = 0;
    let mut i: usize = 0;
    while i < digits.len()
        invariant
            i <= digits@.len(),
            all_digits(digits@.take(i as int)),
            n == decimal(digits@.take(i as int)),
        decreases digits@.len() - i,
    {
        let d: u8 = digits[i];
        if d < ZERO || d > NINE {
            assert(!is_digit(digits@[i as int]));
            return None;
        }
        proof {
            assert(digits@.take(i + 1).drop_last() =~= digits@.take(i as int));
            assert(digits@.take(i + 1).last() == d);
            if all_digits(digits@) {
                lemma_decimal_grows(digits@, i + 1);
            }
        }
        let value: u64 = (d - ZERO) as u64;
        n = match n.checked_mul(10) {
            Some(shifted) => match shifted.checked_add(value) {
                Some(sum) => sum,
                None => return None,
            },
            None => return None,
        };
        assert forall|j: int| 0 <= j < i + 1 implies is_digit(
            #[trigger] digits@.take(i + 1)[j],
        ) by {
            if j < i {
                assert(digits@.take(i as int)[j] == digits@[j]);
            }
        }
        i += 1;
    }
    assert(digits@.take(i as int) =~= digits@);
    Some(n)
}

/// Reads an optionally signed decimal number of 64 bits.
pub fn parse_int(text: &[u8]) -> (n: Option<i64>)
    ensures
        match n {
            Some(n) => int_literal(text@) == Some(n as int),
            None => int_literal(text@) is None,
        },
{
    if text.len() == 0 {
        return None;
    }
    let signed = text[0] == PLUS || text[0] == MINUS;
    let negative = text[0] == MINUS;
    let start: usize = if signed {
        1
    } else {
        0
    };
    if text.len() == start {
        return None;
    }
    let digits = slice_subrange(text, start, text.len());
    assert(digits@ =~= text@.skip(start as int));
    assert(text@.skip(0) =~= text@);
    match parse_decimal(digits) {
        None => None,
        Some(n) => if negative {
            if n < 0x8000_0000_0000_0000 {
                Some(-(n as i64))
            } else if n == 0x8000_0000_0000_0000 {
                Some(i64::MIN)
            } else {
                None
            }
        } else if n <= 0x7fff_ffff_ffff_ffff {
            Some(n as i64)
        } else {
            None
        },
    }
}

/// Digits denote a number by their place: one more digit makes ten times the number, and its own
/// value.
pub proof fn law_digits_count_by_place(s: Seq<u8>, d: u8)
    requires
        0x30 <= d <= 0x39,
    ensures
        decimal(seq![]) == 0,
        decimal(s.push(d)) == 10 * decimal(s) + (d - 0x30),
{
    assert(s.push(d).drop_last() =~= s);
}

} // verus!
