//! Byte buffers from the `bytes` crate, and integers in network byte order.
//!
//! That memory may run out is left aside.

use bytes::{Buf, BufMut, BytesMut};
use vstd::prelude::*;

verus! {

#[verifier::external_type_specification]
#[verifier::external_body]
pub struct ExBytesMut(BytesMut);

/// The bytes that a buffer holds.
pub uninterp spec fn contents(buf: BytesMut) -> Seq<u8>;

/// The two bytes of `n`, the most significant first.
pub open spec fn u16_bytes(n: u16) -> Seq<u8> {
    seq![(n / 0x100) as u8, (n % 0x100) as u8]
}

/// The four bytes of `n`, the most significant first.
pub open spec fn u32_bytes(n: u32) -> Seq<u8> {
    seq![
        (n / 0x100_0000) as u8,
        (n / 0x1_0000 % 0x100) as u8,
        (n / 0x100 % 0x100) as u8,
        (n % 0x100) as u8,
    ]
}

/// The eight bytes of `n`, the most significant first.
pub open spec fn u64_bytes(n: u64) -> Seq<u8> {
    u32_bytes((n / 0x1_0000_0000) as u32) + u32_bytes((n % 0x1_0000_0000) as u32)
}

/// The number whose two bytes, the most significant first, stand in `s` from `at` on.
pub open spec fn u16_at(s: Seq<u8>, at: int) -> u16 {
    (s[at] * 0x100 + s[at + 1]) as u16
}

/// The number whose four bytes, the most significant first, stand in `s` from `at` on.
pub open spec fn u32_at(s: Seq<u8>, at: int) -> u32 {
    (s[at] * 0x100_0000 + s[at + 1] * 0x1_0000 + s[at + 2] * 0x100 + s[at + 3]) as u32
}

/// The number whose eight bytes, the most significant first, stand in `s` from `at` on.
pub open spec fn u64_at(s: Seq<u8>, at: int) -> u64 {
    (u32_at(s, at) * 0x1_0000_0000 + u32_at(s, at + 4)) as u64
}

/// Reading two bytes gives back the number that was written there.
pub proof fn law_u16_round_trip(n: u16, before: Seq<u8>, after: Seq<u8>)
    ensures
        u16_at(before + u16_bytes(n) + after, before.len() as int) == n,
{
    let s = before + u16_bytes(n) + after;
    let at = before.len() as int;
    assert(s[at] == u16_bytes(n)[0]);
    assert(s[at + 1] == u16_bytes(n)[1]);
}

/// Where the four bytes of a number stand, the number is read.
pub(crate) proof fn lemma_u32_at(s: Seq<u8>, at: int, n: u32)
    requires
        0 <= at,
        at + 4 <= s.len(),
        s[at] == u32_bytes(n)[0],
        s[at + 1] == u32_bytes(n)[1],
        s[at + 2] == u32_bytes(n)[2],
        s[at + 3] == u32_bytes(n)[3],
    ensures
        u32_at(s, at) == n,
{
}

/// Reading four bytes gives back the number that was written there.
pub proof fn law_u32_round_trip(n: u32, before: Seq<u8>, after: Seq<u8>)
    ensures
        u32_at(before + u32_bytes(n) + after, before.len() as int) == n,
{
    let s = before + u32_bytes(n) + after;
    let at = before.len() as int;
    let b = u32_bytes(n);
    assert(s[at] == b[0]);
    assert(s[at + 1] == b[1]);
    assert(s[at + 2] == b[2]);
    assert(s[at + 3] == b[3]);
}

/// Reading eight bytes gives back the number that was written there.
pub proof fn law_u64_round_trip(n: u64, before: Seq<u8>, after: Seq<u8>)
    ensures
        u64_at(before + u64_bytes(n) + after, before.len() as int) == n,
{
    let high = (n / 0x1_0000_0000) as u32;
    let low = (n % 0x1_0000_0000) as u32;
    let s = before + u64_bytes(n) + after;
    assert(s =~= before + u32_bytes(high) + (u32_bytes(low) + after));
    assert(s =~= (before + u32_bytes(high)) + u32_bytes(low) + after);
    law_u32_round_trip(high, before, u32_bytes(low) + after);
    law_u32_round_trip(low, before + u32_bytes(high), after);
}

/// The number whose four bytes, the most significant first, stand in a slice.
pub(crate) fn read_u32(bytes: &[u8], at: usize) -> (n: u32)
    requires
        at + 4 <= bytes@.len(),
    ensures
        n == u32_at(bytes@, at as int),
{
    let a: u32 = bytes[at] as u32;
    let b: u32 = bytes[at + 1] as u32;
    let c: u32 = bytes[at + 2] as u32;
    let d: u32 = bytes[at + 3] as u32;
    a * 0x100_0000 + b * 0x1_0000 + c * 0x100 + d
}

/// Calls `BytesMut::with_capacity`, which makes a buffer without any bytes.
#[verifier::external_body]
pub(crate) fn with_capacity(capacity: usize) -> (buf: BytesMut)
    requires
        capacity <= isize::MAX,
    ensures
        contents(buf) == Seq::<u8>::empty(),
{
    BytesMut::with_capacity(capacity)
}

/// Calls `BytesMut::len`.
#[verifier::external_body]
pub(crate) fn len(buf: &BytesMut) -> (n: usize)
    ensures
        n == contents(*buf).len(),
{
    buf.len()
}

/// Views a buffer as a slice, by its `Deref`.
#[verifier::external_body]
pub(crate) fn as_slice(buf: &BytesMut) -> (bytes: &[u8])
    ensures
        bytes@ == contents(*buf),
{
    &buf[..]
}

/// Calls `BytesMut::clear`, which drops all bytes.
#[verifier::external_body]
pub(crate) fn clear(buf: &mut BytesMut)
    ensures
        contents(*final(buf)) == Seq::<u8>::empty(),
{
    buf.clear()
}

/// Calls `BytesMut::reserve`, which makes room and keeps the bytes. Room for more than
/// `isize::MAX` bytes cannot be had.
#[verifier::external_body]
pub(crate) fn reserve(buf: &mut BytesMut, additional: usize)
    requires
        contents(*old(buf)).len() + additional <= isize::MAX,
    ensures
        contents(*final(buf)) == contents(*old(buf)),
{
    buf.reserve(additional)
}

/// Calls `Buf::advance`, which drops the first `n` bytes.
#[verifier::external_body]
pub(crate) fn advance(buf: &mut BytesMut, n: usize)
    requires
        n <= contents(*old(buf)).len(),
    ensures
        contents(*final(buf)) == contents(*old(buf)).skip(n as int),
{
    buf.advance(n)
}

/// Calls `Buf::get_u8`, which takes the first byte.
#[verifier::external_body]
pub(crate) fn get_u8(buf: &mut BytesMut) -> (n: u8)
    requires
        1 <= contents(*old(buf)).len(),
    ensures
        n == contents(*old(buf))[0],
        contents(*final(buf)) == contents(*old(buf)).skip(1),
{
    buf.get_u8()
}

/// Calls `Buf::get_u16`, which takes the first two bytes as a number, the most significant first.
#[verifier::external_body]
pub(crate) fn get_u16(buf: &mut BytesMut) -> (n: u16)
    requires
        2 <= contents(*old(buf)).len(),
    ensures
        n == u16_at(contents(*old(buf)), 0),
        contents(*final(buf)) == contents(*old(buf)).skip(2),
{
    buf.get_u16()
}

/// Calls `Buf::get_u32`, which takes the first four bytes as a number, the most significant first.
#[verifier::external_body]
pub(crate) fn get_u32(buf: &mut BytesMut) -> (n: u32)
    requires
        4 <= contents(*old(buf)).len(),
    ensures
        n == u32_at(contents(*old(buf)), 0),
        contents(*final(buf)) == contents(*old(buf)).skip(4),
{
    buf.get_u32()
}

/// Calls `Buf::get_u64`, which takes the first eight bytes as a number, the most significant
/// first.
#[verifier::external_body]
pub(crate) fn get_u64(buf: &mut BytesMut) -> (n: u64)
    requires
        8 <= contents(*old(buf)).len(),
    ensures
        n == u64_at(contents(*old(buf)), 0),
        contents(*final(buf)) == contents(*old(buf)).skip(8),
{
    buf.get_u64()
}

/// Calls `Buf::copy_to_slice`, which takes as many bytes as `dst` has and writes them there.
#[verifier::external_body]
pub(crate) fn copy_to_slice(buf: &mut BytesMut, dst: &mut [u8])
    requires
        old(dst)@.len() <= contents(*old(buf)).len(),
    ensures
        final(dst)@ == contents(*old(buf)).take(old(dst)@.len() as int),
        contents(*final(buf)) == contents(*old(buf)).skip(old(dst)@.len() as int),
{
    buf.copy_to_slice(dst)
}

/// Calls `BufMut::put_u8`, which adds a byte.
#[verifier::external_body]
pub(crate) fn put_u8(buf: &mut BytesMut, n: u8)
    requires
        contents(*old(buf)).len() + 1 <= isize::MAX,
    ensures
        contents(*final(buf)) == contents(*old(buf)).push(n),
{
    buf.put_u8(n)
}

/// Calls `BufMut::put_u16`, which adds the two bytes of a number, the most significant first.
#[verifier::external_body]
pub(crate) fn put_u16(buf: &mut BytesMut, n: u16)
    requires
        contents(*old(buf)).len() + 2 <= isize::MAX,
    ensures
        contents(*final(buf)) == contents(*old(buf)) + u16_bytes(n),
{
    buf.put_u16(n)
}

/// Calls `BufMut::put_u32`, which adds the four bytes of a number, the most significant first.
#[verifier::external_body]
pub(crate) fn put_u32(buf: &mut BytesMut, n: u32)
    requires
        contents(*old(buf)).len() + 4 <= isize::MAX,
    ensures
        contents(*final(buf)) == contents(*old(buf)) + u32_bytes(n),
{
    buf.put_u32(n)
}

/// Calls `BufMut::put_i32`, which adds the four bytes of a number in two's complement, the most
/// significant first.
#[verifier::external_body]
pub(crate) fn put_i32(buf: &mut BytesMut, n: i32)
    requires
        contents(*old(buf)).len() + 4 <= isize::MAX,
    ensures
        contents(*final(buf)) == contents(*old(buf)) + u32_bytes(
            (if n >= 0 {
                n as int
            } else {
                n + 0x1_0000_0000
            }) as u32,
        ),
{
    buf.put_i32(n)
}

/// Calls `BufMut::put_u64`, which adds the eight bytes of a number, the most significant first.
#[verifier::external_body]
pub(crate) fn put_u64(buf: &mut BytesMut, n: u64)
    requires
        contents(*old(buf)).len() + 8 <= isize::MAX,
    ensures
        contents(*final(buf)) == contents(*old(buf)) + u64_bytes(n),
{
    buf.put_u64(n)
}

/// Calls `BufMut::put_bytes`, which adds a byte several times.
#[verifier::external_body]
pub(crate) fn put_bytes(buf: &mut BytesMut, byte: u8, count: usize)
    requires
        contents(*old(buf)).len() + count <= isize::MAX,
    ensures
        contents(*final(buf)) == contents(*old(buf)) + Seq::new(count as nat, |i: int| byte),
{
    buf.put_bytes(byte, count)
}

/// Calls `BufMut::put` with a slice, which adds all its bytes.
#[verifier::external_body]
pub(crate) fn put(buf: &mut BytesMut, bytes: &[u8])
    requires
        contents(*old(buf)).len() + bytes@.len() <= isize::MAX,
    ensures
        contents(*final(buf)) == contents(*old(buf)) + bytes@,
{
    buf.put(bytes)
}

/// The first of the bytes that a number is read from counts most.
pub proof fn law_first_byte_counts_most(s: Seq<u8>, at: int)
    ensures
        u16_at(s, at) as int == s[at] * 0x100 + s[at + 1],
        u32_at(s, at) as int == s[at] * 0x100_0000 + s[at + 1] * 0x1_0000 + s[at + 2] * 0x100
            + s[at + 3],
        u64_at(s, at) as int == (s[at] * 0x100_0000 + s[at + 1] * 0x1_0000 + s[at + 2] * 0x100
            + s[at + 3]) * 0x1_0000_0000 + (s[at + 4] * 0x100_0000 + s[at + 5] * 0x1_0000 + s[at
            + 6] * 0x100 + s[at + 7]),
{
}

/// A number is written in as many bytes as it has, which are read as the number.
pub proof fn law_numbers_have_their_length(a: u16, b: u32, c: u64)
    ensures
        u16_bytes(a).len() == 2 && u16_at(u16_bytes(a), 0) == a,
        u32_bytes(b).len() == 4 && u32_at(u32_bytes(b), 0) == b,
        u64_bytes(c).len() == 8 && u64_at(u64_bytes(c), 0) == c,
{
    let none = Seq::<u8>::empty();
    law_u16_round_trip(a, none, none);
    law_u32_round_trip(b, none, none);
    law_u64_round_trip(c, none, none);
    assert(none + u16_bytes(a) + none =~= u16_bytes(a));
    assert(none + u32_bytes(b) + none =~= u32_bytes(b));
    assert(none + u64_bytes(c) + none =~= u64_bytes(c));
}

/// Where the eight bytes of a number stand, the number is read.
pub(crate) proof fn lemma_u64_at(s: Seq<u8>, at: int, n: u64)
    requires
        0 <= at,
        at + 8 <= s.len(),
        s.subrange(at, at + 8) == u64_bytes(n),
    ensures
        u64_at(s, at) == n,
{
    law_u64_round_trip(n, s.take(at), s.skip(at + 8));
    assert(s.take(at) + u64_bytes(n) + s.skip(at + 8) =~= s) by {
        assert forall|i: int| at <= i < at + 8 implies s[i] == u64_bytes(n)[i - at] by {
            assert(s.subrange(at, at + 8)[i - at] == s[i]);
        }
    }
}

} // verus!
