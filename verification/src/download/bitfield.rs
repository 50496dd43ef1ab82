//! Which pieces a peer owns, one bit per piece, the first piece in the highest bit of the first
//! byte.

use vstd::prelude::*;

verus! {

/// The bit of its byte that stands for piece `i`.
pub open spec fn mask(i: int) -> u8 {
    1u8 << ((7 - i % 8) as u8)
}

/// Whether piece `i` is owned.
pub open spec fn owned(bytes: Seq<u8>, i: int) -> bool {
    bytes[i / 8] & mask(i) != 0
}

/// The first piece from `from` on and before `to` that is not owned; `to`, where there is none.
pub open spec fn first_missing(bytes: Seq<u8>, from: int, to: int) -> int
    decreases to - from,
{
    if from >= to {
        to
    } else if !owned(bytes, from) {
        from
    } else {
        first_missing(bytes, from + 1, to)
    }
}

/// How many of the first `n` pieces are owned.
pub open spec fn num_owned(bytes: Seq<u8>, n: int) -> nat
    decreases n,
{
    if n <= 0 {
        0
    } else {
        num_owned(bytes, n - 1) + (if owned(bytes, n - 1) {
            1nat
        } else {
            0nat
        })
    }
}

/// `bytes` with the bit of piece `i` set.
pub open spec fn with_piece(bytes: Seq<u8>, i: int) -> Seq<u8> {
    bytes.update(i / 8, bytes[i / 8] | mask(i))
}

/// The character for bit `k` of a byte, counted from the highest.
pub open spec fn bit_char(b: u8, k: int) -> char {
    if b & (1u8 << ((7 - k) as u8)) != 0 {
        '1'
    } else {
        '0'
    }
}

/// The bits of `bytes` as text, a space after each byte.
pub open spec fn bits_text(bytes: Seq<u8>) -> Seq<char>
    decreases bytes.len(),
{
    if bytes.len() == 0 {
        seq![]
    } else {
        bits_text(bytes.drop_last()) + Seq::new(8, |k: int| bit_char(bytes.last(), k)).push(' ')
    }
}

pub(crate) proof fn lemma_first_missing(bytes: Seq<u8>, from: int, to: int)
    requires
        from <= to,
    ensures
        from <= first_missing(bytes, from, to) <= to,
        first_missing(bytes, from, to) < to ==> !owned(bytes, first_missing(bytes, from, to)),
        forall|j: int| from <= j < first_missing(bytes, from, to) ==> owned(bytes, j),
    decreases to - from,
{
    if from < to && owned(bytes, from) {
        lemma_first_missing(bytes, from + 1, to);
    }
}

/// The first missing piece is the only one that is missing with none missing before it.
pub(crate) proof fn lemma_first_missing_is(bytes: Seq<u8>, from: int, to: int, at: int)
    requires
        from <= at <= to,
        at < to ==> !owned(bytes, at),
        forall|j: int| from <= j < at ==> owned(bytes, j),
    ensures
        first_missing(bytes, from, to) == at,
{
    lemma_first_missing(bytes, from, to);
    let f = first_missing(bytes, from, to);
    if f < at {
        assert(owned(bytes, f));
    } else if at < f {
        assert(owned(bytes, at));
    }
}

/// What is missing in a range depends on the bits of that range only.
proof fn lemma_same_missing(a: Seq<u8>, b: Seq<u8>, from: int, to: int)
    requires
        forall|j: int| from <= j < to ==> #[trigger] owned(a, j) == owned(b, j),
    ensures
        first_missing(a, from, to) == first_missing(b, from, to),
    decreases to - from,
{
    if from < to {
        assert(owned(a, from) == owned(b, from));
        lemma_same_missing(a, b, from + 1, to);
    }
}

proof fn lemma_full_byte(b: u8, k: u8)
    requires
        b == 255,
        k < 8,
    ensures
        b & (1u8 << k) != 0,
{
    assert(b == 255 && k < 8 ==> b & (1u8 << k) != 0) by (bit_vector);
}

proof fn lemma_not_full_byte(b: u8) -> (k: int)
    requires
        b != 255,
    ensures
        0 <= k < 8,
        b & mask(k) == 0,
{
    assert(b == 255 || b & (1u8 << 7u8) == 0 || b & (1u8 << 6u8) == 0 || b & (1u8 << 5u8) == 0 || b
        & (1u8 << 4u8) == 0 || b & (1u8 << 3u8) == 0 || b & (1u8 << 2u8) == 0 || b & (1u8 << 1u8)
        == 0 || b & (1u8 << 0u8) == 0) by (bit_vector);
    if b & (1u8 << 7u8) == 0 {
        0
    } else if b & (1u8 << 6u8) == 0 {
        1
    } else if b & (1u8 << 5u8) == 0 {
        2
    } else if b & (1u8 << 4u8) == 0 {
        3
    } else if b & (1u8 << 3u8) == 0 {
        4
    } else if b & (1u8 << 2u8) == 0 {
        5
    } else if b & (1u8 << 1u8) == 0 {
        6
    } else {
        7
    }
}

/// Setting the bit of a piece makes that piece owned and changes no other.
pub(crate) proof fn lemma_with_piece(bytes: Seq<u8>, i: int)
    requires
        0 <= i < 8 * bytes.len(),
    ensures
        with_piece(bytes, i).len() == bytes.len(),
        forall|j: int|
            0 <= j < 8 * bytes.len() ==> (#[trigger] owned(with_piece(bytes, i), j) == (owned(
                bytes,
                j,
            ) || j == i)),
{
    assert forall|j: int| 0 <= j < 8 * bytes.len() implies (#[trigger] owned(
        with_piece(bytes, i),
        j,
    ) == (owned(bytes, j) || j == i)) by {
        if j / 8 == i / 8 {
            let b = bytes[i / 8];
            let x = (7 - i % 8) as u8;
            let y = (7 - j % 8) as u8;
            assert(x < 8 && y < 8 ==> ((b | (1u8 << x)) & (1u8 << y) != 0) == (b & (1u8 << y) != 0
                || x == y)) by (bit_vector);
            assert(j == i <==> x == y);
        }
    }
}

/// The pieces of one byte are counted as those of a bitfield of that byte alone.
proof fn lemma_num_owned_byte(bytes: Seq<u8>, at: int, k: int)
    requires
        0 <= at < bytes.len(),
        0 <= k <= 8,
    ensures
        num_owned(bytes, 8 * at + k) == num_owned(bytes, 8 * at) + num_owned(seq![bytes[at]], k),
    decreases k,
{
    if k > 0 {
        lemma_num_owned_byte(bytes, at, k - 1);
        assert((8 * at + k - 1) / 8 == at && (8 * at + k - 1) % 8 == k - 1);
        assert((k - 1) / 8 == 0);
        assert(owned(bytes, 8 * at + k - 1) == owned(seq![bytes[at]], k - 1));
    }
}

proof fn lemma_num_owned_grows(bytes: Seq<u8>, m: int, n: int)
    requires
        0 <= m <= n,
    ensures
        num_owned(bytes, m) <= num_owned(bytes, n),
    decreases n - m,
{
    if m < n {
        lemma_num_owned_grows(bytes, m, n - 1);
    }
}

/// How many bits of a byte are set.
fn count_ones(b: u8) -> (n: u32)
    ensures
        n == num_owned(seq![b], 8),
        n <= 8,
{
    let mut n: u32 = 0;
    let mut k: u8 = 0;
    while k < 8
        invariant
            k <= 8,
            n == num_owned(seq![b], k as int),
            n <= k,
        decreases 8 - k,
    {
        let bit: u8 = b & (1u8 << (7 - k));
        assert(k as int / 8 == 0);
        assert(owned(seq![b], k as int) == (bit != 0));
        if bit != 0 {
            n += 1;
        }
        k += 1;
    }
    n
}

/// Where the bit of a piece is: its byte, and its place in the byte.
pub fn piece_bucket_offset(piece_idx: u32) -> (res: (usize, u8))
    ensures
        res.0 == piece_idx as int / 8,
        res.1 < 8,
        1u8 << res.1 == mask(piece_idx as int),
{
    let bucket: u32 = piece_idx / 8;
    let offset: u32 = 7 - piece_idx % 8;
    (bucket as usize, offset as u8)
}

/// Whether a bitfield can be looked at: it is not empty, its bits can be counted, and it has a bit
/// for every piece, unless one of its bits is clear.
pub open spec fn can_check(total_pieces: usize, bitfield: Seq<u8>) -> bool {
    &&& 0 < bitfield.len()
    &&& 8 * (bitfield.len() - 1) <= usize::MAX
    &&& total_pieces <= 0x1_0000_0000
    &&& total_pieces <= 8 * bitfield.len() || exists|i: int|
        0 <= i < 8 * bitfield.len() && !owned(bitfield, i)
}

/// Whether [`is_seed`] accepts a bitfield.
pub fn accepts_bitfield(total_pieces: usize, bitfield: &[u8]) -> (res: bool)
    ensures
        res == can_check(total_pieces, bitfield@),
{
    if bitfield.len() == 0 || bitfield.len() - 1 > usize::MAX / 8 || total_pieces as u64
        > 0x1_0000_0000 {
        return false;
    }
    if total_pieces == 0 || (total_pieces - 1) / 8 < bitfield.len() {
        return true;
    }
    let mut idx: usize = 0;
    while idx < bitfield.len()
        invariant
            idx <= bitfield@.len(),
            forall|i: int| 0 <= i < 8 * idx ==> owned(bitfield@, i),
            0 < bitfield@.len(),
            8 * (bitfield@.len() - 1) <= usize::MAX,
            total_pieces <= 0x1_0000_0000,
        decreases bitfield@.len() - idx,
    {
        if bitfield[idx] != 255 {
            proof {
                let k = lemma_not_full_byte(bitfield@[idx as int]);
                assert((8 * idx + k) / 8 == idx && (8 * idx + k) % 8 == k);
                assert(!owned(bitfield@, 8 * idx + k));
            }
            return true;
        }
        assert forall|i: int| 0 <= i < 8 * (idx + 1) implies owned(bitfield@, i) by {
            if i >= 8 * idx {
                assert(i / 8 == idx);
                lemma_full_byte(bitfield@[idx as int], (7 - i % 8) as u8);
            }
        }
        idx += 1;
    }
    false
}

/// Whether every piece is owned, and every byte but the last is full.
pub open spec fn is_full(total_pieces: int, bitfield: Seq<u8>) -> bool {
    forall|i: int|
        0 <= i < 8 * (bitfield.len() - 1) || 0 <= i < total_pieces ==> owned(bitfield, i)
}

/// Whether the peer that sent `bitfield` owns every piece.
///
/// All bytes but the last have to be full, whatever the number of pieces.
pub fn is_seed(total_pieces: usize, bitfield: &[u8]) -> (seed: bool)
    requires
        can_check(total_pieces, bitfield@),
    ensures
        seed == is_full(total_pieces as int, bitfield@),
        seed <==> forall|i: int|
            0 <= i < 8 * (bitfield@.len() - 1) || 0 <= i < total_pieces ==> owned(bitfield@, i),
{
    let last: usize = bitfield.len() - 1;
    let mut idx: usize = 0;
    while idx < last
        invariant
            idx <= last,
            last == bitfield@.len() - 1,
            forall|i: int| 0 <= i < 8 * idx ==> owned(bitfield@, i),
        decreases last - idx,
    {
        if bitfield[idx] != 255 {
            proof {
                let k = lemma_not_full_byte(bitfield@[idx as int]);
                assert((8 * idx + k) / 8 == idx && (8 * idx + k) % 8 == k);
                assert(!owned(bitfield@, 8 * idx + k));
            }
            return false;
        }
        assert forall|i: int| 0 <= i < 8 * (idx + 1) implies owned(bitfield@, i) by {
            if i >= 8 * idx {
                assert(i / 8 == idx);
                lemma_full_byte(bitfield@[idx as int], (7 - i % 8) as u8);
            }
        }
        idx += 1;
    }

    let mut piece: usize = last * 8;
    while piece < total_pieces
        invariant
            last == bitfield@.len() - 1,
            total_pieces <= 0x1_0000_0000,
            8 * last <= piece <= 8 * bitfield@.len(),
            forall|i: int| 0 <= i < piece ==> owned(bitfield@, i),
            total_pieces <= 8 * bitfield@.len() || exists|i: int|
                0 <= i < 8 * bitfield@.len() && !owned(bitfield@, i),
        decreases total_pieces - piece,
    {
        proof {
            if piece == 8 * bitfield@.len() {
                let i = choose|i: int| 0 <= i < 8 * bitfield@.len() && !owned(bitfield@, i);
                assert(owned(bitfield@, i));
            }
        }
        let (bucket, offset) = piece_bucket_offset(piece as u32);
        if bitfield[bucket] & (1u8 << offset) == 0 {
            assert(!owned(bitfield@, piece as int));
            return false;
        }
        piece += 1;
    }
    true
}

/// The pieces that we own, and which of the others to ask for next.
#[derive(Clone, Debug, PartialEq)]
pub struct Bitfield {
    /// One bit for each piece, set where we own it.
    pub piece_ownership: Vec<u8>,
    /// The number of pieces.
    pub total_pieces: usize,
    /// The next piece to consider.
    pub cur: usize,
    /// We own all the pieces before this one.
    pub confirmed: usize,
}

impl Bitfield {
    /// The number of bits, of which those from `total_pieces` on are padding.
    pub open spec fn num_bits(self) -> int {
        8 * self.piece_ownership@.len() as int
    }

    /// Whether piece `i` is owned.
    #[verifier::inline]
    pub open spec fn owns(self, i: int) -> bool {
        owned(self.piece_ownership@, i)
    }

    /// Whether every piece has a bit and the next piece to consider is one of them.
    pub open spec fn wf(self) -> bool {
        &&& self.piece_ownership@.len() <= 0x2000_0000
        &&& self.total_pieces <= self.num_bits()
        &&& self.total_pieces <= u32::MAX
        &&& self.cur < self.total_pieces || self.total_pieces == 0
    }

    /// Whether `confirmed` has advanced as far as it can.
    pub open spec fn settled(self) -> bool {
        self.confirmed == first_missing(self.piece_ownership@, 0, self.num_bits())
    }

    /// Whether, besides, the bits can be counted, and only pieces are marked as owned.
    pub open spec fn sound(self) -> bool {
        &&& self.wf()
        &&& self.num_bits() <= usize::MAX
        &&& self.settled()
        &&& forall|i: int| self.total_pieces <= i < self.num_bits() ==> !self.owns(i)
    }

    /// The piece that comes up next in the round from `cur` to the last piece and again from
    /// `confirmed` on, leaving out those that we own.
    pub open spec fn next_missing(self) -> int {
        let ahead = first_missing(
            self.piece_ownership@,
            self.cur as int,
            self.total_pieces as int,
        );
        if ahead < self.total_pieces {
            ahead
        } else {
            first_missing(
                self.piece_ownership@,
                self.confirmed as int,
                self.total_pieces as int,
            )
        }
    }

    /// The piece to consider after piece `i`.
    pub open spec fn following(self, i: int) -> int {
        if i + 1 == self.total_pieces {
            self.confirmed as int
        } else {
            i + 1
        }
    }

    /// The number of pieces less the number of bits that are set.
    pub open spec fn num_remaining(self) -> int {
        self.total_pieces - num_owned(self.piece_ownership@, self.num_bits())
    }

    /// Whether no more bits are set than there are pieces.
    pub open spec fn can_count(self) -> bool {
        self.total_pieces <= u32::MAX && self.num_remaining() >= 0
    }

    /// Whether a piece that is missing comes up where there should be one.
    pub open spec fn can_pick(self) -> bool {
        &&& self.wf()
        &&& self.confirmed < self.total_pieces ==> self.next_missing() < self.total_pieces
    }

    /// Whether this is what `before` becomes when a piece is picked: only the next piece to
    /// consider changes.
    pub open spec fn is_after_pick(self, before: Bitfield) -> bool {
        &&& self.piece_ownership@ == before.piece_ownership@
        &&& self.total_pieces == before.total_pieces
        &&& self.confirmed == before.confirmed
        &&& self.cur == if before.confirmed < before.total_pieces {
            before.following(before.next_missing())
        } else {
            before.cur as int
        }
    }

    /// A bitfield with the given bits.
    pub fn from_vec(total_pieces: usize, v: Vec<u8>) -> (res: Self)
        ensures
            res.piece_ownership@ == v@,
            res.total_pieces == total_pieces,
            res.cur == 0,
            res.confirmed == 0,
    {
        Self { piece_ownership: v, total_pieces, cur: 0, confirmed: 0 }
    }

    /// A bitfield without any piece.
    pub fn zero(num_pieces: u32) -> (res: Self)
        requires
            num_pieces + 7 <= usize::MAX,
        ensures
            res.piece_ownership@ == Seq::new(((num_pieces + 7) / 8) as nat, |i: int| 0u8),
            res.total_pieces == num_pieces,
            res.cur == 0,
            res.confirmed == 0,
            res.sound(),
            res.can_count(),
            res.can_pick(),
            res.num_remaining() == num_pieces,
            forall|i: int| 0 <= i < res.num_bits() ==> !res.owns(i),
    {
        let len: usize = (num_pieces as usize + 7) / 8;
        let res = Self {
            piece_ownership: vec![0u8; len],
            total_pieces: num_pieces as usize,
            cur: 0,
            confirmed: 0,
        };
        proof {
            assert(res.piece_ownership@ =~= Seq::new(len as nat, |i: int| 0u8));
            assert forall|i: int| 0 <= i < res.num_bits() implies !res.owns(i) by {
                let m = mask(i);
                assert(0u8 & m == 0) by (bit_vector);
            }
            if res.num_bits() > 0 {
                assert(!res.owns(0));
            }
            lemma_padding_counts_nothing(res.piece_ownership@, 0, res.num_bits());
            law_sound_counts_and_picks(res);
        }
        res
    }

    /// Whether we own a piece.
    pub fn has(&self, piece_idx: u32) -> (res: bool)
        requires
            piece_idx < self.num_bits(),
        ensures
            res == self.owns(piece_idx as int),
    {
        let (bucket, offset) = piece_bucket_offset(piece_idx);
        let bits: u8 = self.piece_ownership[bucket] & (1u8 << offset);
        bits > 0
    }

    /// The next piece to ask for, or none where we own all of them.
    ///
    /// A piece that is not set comes up again after all the others.
    pub fn pick_piece(&mut self) -> (res: Option<u32>)
        requires
            old(self).can_pick(),
        ensures
            final(self).wf(),
            old(self).sound() ==> final(self).sound() && final(self).can_count()
                && final(self).can_pick(),
            final(self).is_after_pick(*old(self)),
            match res {
                None => old(self).confirmed >= old(self).total_pieces,
                Some(i) => old(self).confirmed < old(self).total_pieces && i == old(
                    self,
                ).next_missing(),
            },
    {
        if self.cur >= self.total_pieces && self.confirmed >= self.total_pieces {
            proof {
                if self.sound() {
                    law_sound_counts_and_picks(*self);
                }
            }
            return None;
        }
        // Whether the round has started over at `confirmed`.
        let ghost mut wrapped = false;
        while self.confirmed < self.total_pieces
            invariant
                self.wf(),
                self.piece_ownership@ == old(self).piece_ownership@,
                self.total_pieces == old(self).total_pieces,
                self.confirmed == old(self).confirmed,
                self.confirmed >= self.total_pieces ==> self.cur == old(self).cur,
                self.confirmed < self.total_pieces ==> {
                    &&& self.next_missing() < self.total_pieces
                    &&& self.next_missing() == old(self).next_missing()
                    &&& wrapped ==> self.cur >= self.confirmed && first_missing(
                        self.piece_ownership@,
                        self.cur as int,
                        self.total_pieces as int,
                    ) < self.total_pieces
                },
            decreases
                    if wrapped {
                        0int
                    } else {
                        1int
                    },
                    self.total_pieces - self.cur,
        {
            let ghost was = *self;
            let bit_index: u32 = self.cur as u32;
            self.cur += 1;
            if self.cur == self.total_pieces {
                self.cur = self.confirmed;
                proof {
                    wrapped = true;
                }
            }
            if !self.has(bit_index) {
                proof {
                    if self.sound() {
                        law_sound_counts_and_picks(*self);
                    }
                }
                return Some(bit_index);
            }
            proof {
                let bytes = self.piece_ownership@;
                let total = self.total_pieces as int;
                assert(first_missing(bytes, was.cur as int, total) == first_missing(
                    bytes,
                    was.cur + 1,
                    total,
                ));
                if was.cur + 1 == total {
                    assert(first_missing(bytes, was.cur + 1, total) == total);
                }
            }
        }
        proof {
            if self.sound() {
                law_sound_counts_and_picks(*self);
            }
        }
        None
    }

    /// Whether [`Bitfield::pick_piece`] can pick a piece.
    pub fn allows_pick(&self) -> (res: bool)
        ensures
            res == self.can_pick(),
    {
        if self.piece_ownership.len() > 0x2000_0000 || self.total_pieces as u64 > 8
            * self.piece_ownership.len() as u64 || self.total_pieces as u64 > u32::MAX as u64
            || !(self.cur < self.total_pieces || self.total_pieces == 0) {
            return false;
        }
        self.confirmed >= self.total_pieces || self.find_missing(self.cur) < self.total_pieces
            || self.find_missing(self.confirmed) < self.total_pieces
    }

    /// The piece that [`Bitfield::pick_piece`] is going to pick.
    pub fn peek_piece(&self) -> (res: Option<u32>)
        requires
            self.can_pick(),
        ensures
            match res {
                None => self.confirmed >= self.total_pieces,
                Some(i) => self.confirmed < self.total_pieces && i == self.next_missing(),
            },
    {
        if self.confirmed >= self.total_pieces {
            return None;
        }
        let ahead: usize = self.find_missing(self.cur);
        if ahead < self.total_pieces {
            Some(ahead as u32)
        } else {
            Some(self.find_missing(self.confirmed) as u32)
        }
    }

    /// The first piece from `from` on that we do not own.
    fn find_missing(&self, from: usize) -> (res: usize)
        requires
            self.wf(),
            from <= self.total_pieces,
        ensures
            res == first_missing(self.piece_ownership@, from as int, self.total_pieces as int),
    {
        let mut i: usize = from;
        while i < self.total_pieces && self.has(i as u32)
            invariant
                self.wf(),
                from <= i <= self.total_pieces,
                forall|j: int| from <= j < i ==> owned(self.piece_ownership@, j),
            decreases self.total_pieces - i,
        {
            i += 1;
        }
        proof {
            lemma_first_missing_is(
                self.piece_ownership@,
                from as int,
                self.total_pieces as int,
                i as int,
            );
        }
        i
    }

    /// Marks a piece as owned, and advances `confirmed` as far as possible.
    pub fn set(&mut self, piece_idx: u32)
        requires
            old(self).can_set(piece_idx),
        ensures
            final(self).is_after_set(*old(self), piece_idx),
            forall|i: int|
                0 <= i < old(self).num_bits() ==> (#[trigger] final(self).owns(i) == (old(
                    self,
                ).owns(i) || i == piece_idx)),
            old(self).wf() ==> final(self).wf(),
            old(self).settled() ==> final(self).settled(),
            final(self).num_remaining() == old(self).num_remaining() - (if old(self).owns(
                piece_idx as int,
            ) {
                0int
            } else {
                1int
            }),
            old(self).sound() && piece_idx < old(self).total_pieces ==> final(self).sound()
                && final(self).can_count() && final(self).can_pick(),
    {
        let (bucket, offset) = piece_bucket_offset(piece_idx);
        let bits: u8 = self.piece_ownership[bucket] | (1u8 << offset);
        self.piece_ownership[bucket] = bits;
        proof {
            lemma_with_piece(old(self).piece_ownership@, piece_idx as int);
            assert(self.piece_ownership@ =~= with_piece(
                old(self).piece_ownership@,
                piece_idx as int,
            ));
        }
        let ghost all = self.num_bits();
        proof {
            lemma_same_missing(
                old(self).piece_ownership@,
                self.piece_ownership@,
                piece_idx + 1,
                all,
            );
        }
        let ghost end = first_missing(self.piece_ownership@, piece_idx + 1, all);

        if self.confirmed == piece_idx as usize {
            proof {
                lemma_first_missing(self.piece_ownership@, piece_idx + 1, all);
            }
            self.confirmed += 1;
            while self.confirmed / 8 < self.piece_ownership.len() && self.has(
                self.confirmed as u32,
            )
                invariant
                    self.piece_ownership@ == with_piece(
                        old(self).piece_ownership@,
                        piece_idx as int,
                    ),
                    self.total_pieces == old(self).total_pieces,
                    self.cur == old(self).cur,
                    all == self.num_bits(),
                    all <= 0x1_0000_0000,
                    all <= usize::MAX,
                    piece_idx + 1 <= self.confirmed <= end <= all,
                    end < all ==> !owned(self.piece_ownership@, end),
                    forall|j: int|
                        piece_idx + 1 <= j < self.confirmed ==> owned(self.piece_ownership@, j),
                decreases end - self.confirmed,
            {
                self.confirmed += 1;
            }
            proof {
                lemma_first_missing_is(
                    self.piece_ownership@,
                    piece_idx + 1,
                    all,
                    self.confirmed as int,
                );
            }
        }
        proof {
            law_set_counts(old(self).piece_ownership@, piece_idx as int, all);
            if old(self).settled() {
                let before = old(self).piece_ownership@;
                lemma_first_missing(before, 0, all);
                assert forall|j: int| 0 <= j < self.confirmed implies owned(
                    self.piece_ownership@,
                    j,
                ) by {
                    assert(old(self).owns(j) || j == piece_idx || j > piece_idx);
                }
                lemma_first_missing_is(self.piece_ownership@, 0, all, self.confirmed as int);
            }
            if old(self).sound() && piece_idx < self.total_pieces {
                law_sound_counts_and_picks(*self);
            }
        }
    }

    /// Whether [`Bitfield::set`] accepts a piece.
    pub fn allows_set(&self, piece_idx: u32) -> (res: bool)
        ensures
            res == self.can_set(piece_idx),
    {
        if self.piece_ownership.len() > 0x2000_0000 {
            return false;
        }
        let bits: u64 = 8 * self.piece_ownership.len() as u64;
        bits <= usize::MAX as u64 && (piece_idx as u64) < bits
    }

    /// The number of pieces less the number of bits that are set.
    ///
    /// Padding bits count as well, and no more bits may be set than there are pieces.
    pub fn remaining(&self) -> (res: u32)
        requires
            self.can_count(),
        ensures
            res == self.num_remaining(),
    {
        let mut owned_bits: u32 = 0;
        let mut i: usize = 0;
        while i < self.piece_ownership.len()
            invariant
                i <= self.piece_ownership@.len(),
                self.can_count(),
                owned_bits == num_owned(self.piece_ownership@, 8 * i),
            decreases self.piece_ownership@.len() - i,
        {
            proof {
                lemma_num_owned_byte(self.piece_ownership@, i as int, 8);
                lemma_num_owned_grows(self.piece_ownership@, 8 * (i + 1), self.num_bits());
            }
            owned_bits += count_ones(self.piece_ownership[i]);
            i += 1;
        }
        self.total_pieces as u32 - owned_bits
    }

    /// Whether [`Bitfield::remaining`] can count the pieces.
    pub fn allows_count(&self) -> (res: bool)
        ensures
            res == self.can_count(),
    {
        if self.total_pieces as u64 > u32::MAX as u64 {
            return false;
        }
        let mut owned_bits: u64 = 0;
        let mut i: usize = 0;
        while i < self.piece_ownership.len()
            invariant
                i <= self.piece_ownership@.len(),
                self.total_pieces <= u32::MAX,
                owned_bits == num_owned(self.piece_ownership@, 8 * i),
                owned_bits <= self.total_pieces,
            decreases self.piece_ownership@.len() - i,
        {
            proof {
                lemma_num_owned_byte(self.piece_ownership@, i as int, 8);
                lemma_num_owned_grows(self.piece_ownership@, 8 * (i + 1), self.num_bits());
            }
            owned_bits += count_ones(self.piece_ownership[i]) as u64;
            if owned_bits > self.total_pieces as u64 {
                return false;
            }
            i += 1;
        }
        true
    }

    /// The bits as text, a space after each byte.
    pub fn to_string(&self) -> (text: String)
        ensures
            text@ == bits_text(self.piece_ownership@),
    {
        let mut text = String::new();
        let mut i: usize = 0;
        while i < self.piece_ownership.len()
            invariant
                i <= self.piece_ownership@.len(),
                text@ == bits_text(self.piece_ownership@.take(i as int)),
            decreases self.piece_ownership@.len() - i,
        {
            let b: u8 = self.piece_ownership[i];
            let ghost known = text@;
            let mut k: u8 = 0;
            while k < 8
                invariant
                    k <= 8,
                    text@ == known + Seq::new(k as nat, |j: int| bit_char(b, j)),
                decreases 8 - k,
            {
                let bit: u8 = b & (1u8 << (7 - k));
                assert(bit_char(b, k as int) == if bit != 0 {
                    '1'
                } else {
                    '0'
                });
                proof {
                    reveal_strlit("1");
                    reveal_strlit("0");
                }
                if bit != 0 {
                    text.append("1");
                } else {
                    text.append("0");
                }
                assert(text@ =~= known + Seq::new((k + 1) as nat, |j: int| bit_char(b, j)));
                k += 1;
            }
            proof {
                reveal_strlit(" ");
            }
            text.append(" ");
            proof {
                let next = self.piece_ownership@.take(i + 1);
                assert(next.drop_last() =~= self.piece_ownership@.take(i as int));
                assert(text@ =~= bits_text(next));
            }
            i += 1;
        }
        assert(self.piece_ownership@.take(i as int) =~= self.piece_ownership@);
        text
    }

    /// Whether this is what `before` becomes when a piece is set: the piece is owned, and where it
    /// was the first one missing, we own all the pieces before the next one missing.
    pub open spec fn is_after_set(self, before: Bitfield, piece_idx: u32) -> bool {
        &&& self.piece_ownership@ == with_piece(before.piece_ownership@, piece_idx as int)
        &&& self.total_pieces == before.total_pieces
        &&& self.cur == before.cur
        &&& self.confirmed == if before.confirmed == piece_idx {
            first_missing(self.piece_ownership@, piece_idx + 1, self.num_bits())
        } else {
            before.confirmed as int
        }
    }

    /// Whether a piece can be set: it has a bit, and the bits can be counted.
    pub open spec fn can_set(self, piece_idx: u32) -> bool {
        &&& self.piece_ownership@.len() <= 0x2000_0000
        &&& self.num_bits() <= usize::MAX
        &&& piece_idx < self.num_bits()
    }
}

/// Setting a piece that is missing leaves one piece less; setting one that is owned changes
/// nothing.
pub proof fn law_set_counts(bytes: Seq<u8>, i: int, n: int)
    requires
        0 <= i < 8 * bytes.len(),
        0 <= n <= 8 * bytes.len(),
    ensures
        num_owned(with_piece(bytes, i), n) == num_owned(bytes, n) + (if i < n && !owned(bytes, i) {
            1int
        } else {
            0
        }),
    decreases n,
{
    lemma_with_piece(bytes, i);
    if n > 0 {
        law_set_counts(bytes, i, n - 1);
        assert(owned(with_piece(bytes, i), n - 1) == (owned(bytes, n - 1) || n - 1 == i));
    }
}

/// Where no padding bit is set, nothing remains exactly when every piece is owned.
pub proof fn law_nothing_remains(b: Bitfield)
    requires
        b.wf(),
        forall|i: int| b.total_pieces <= i < b.num_bits() ==> !b.owns(i),
    ensures
        b.can_count(),
        b.num_remaining() == 0 <==> forall|i: int| 0 <= i < b.total_pieces ==> b.owns(i),
{
    lemma_padding_counts_nothing(b.piece_ownership@, b.total_pieces as int, b.num_bits());
    lemma_all_counted(b.piece_ownership@, b.total_pieces as int);
}

/// In a sound bitfield the pieces can be counted, and a piece can be picked.
pub proof fn law_sound_counts_and_picks(b: Bitfield)
    requires
        b.sound(),
    ensures
        b.can_count(),
        b.can_pick(),
{
    law_nothing_remains(b);
    lemma_first_missing(b.piece_ownership@, 0, b.num_bits());
}

/// In a sound bitfield every piece can be set.
pub proof fn law_sound_sets(b: Bitfield, piece: u32)
    requires
        b.sound(),
        piece < b.total_pieces,
    ensures
        b.can_set(piece),
{
}

/// Once nothing remains of a sound bitfield, all of its pieces are confirmed.
pub proof fn law_all_owned_is_the_end(b: Bitfield)
    requires
        b.sound(),
        b.num_remaining() == 0,
    ensures
        b.confirmed == b.total_pieces,
{
    law_nothing_remains(b);
    lemma_first_missing(b.piece_ownership@, 0, b.num_bits());
    if b.confirmed < b.total_pieces {
        assert(b.owns(b.confirmed as int));
    }
    if b.confirmed > b.total_pieces {
        assert(owned(b.piece_ownership@, b.total_pieces as int));
        assert(!b.owns(b.total_pieces as int));
    }
}

proof fn lemma_padding_counts_nothing(bytes: Seq<u8>, m: int, n: int)
    requires
        0 <= m <= n,
        forall|i: int| m <= i < n ==> !owned(bytes, i),
    ensures
        num_owned(bytes, n) == num_owned(bytes, m),
    decreases n - m,
{
    if m < n {
        lemma_padding_counts_nothing(bytes, m, n - 1);
        assert(!owned(bytes, n - 1));
    }
}

proof fn lemma_all_counted(bytes: Seq<u8>, n: int)
    requires
        n >= 0,
    ensures
        num_owned(bytes, n) <= n,
        num_owned(bytes, n) == n <==> forall|i: int| 0 <= i < n ==> owned(bytes, i),
    decreases n,
{
    if n > 0 {
        lemma_all_counted(bytes, n - 1);
        if num_owned(bytes, n) == n {
            assert forall|i: int| 0 <= i < n implies owned(bytes, i) by {
                if i < n - 1 {
                    assert(forall|j: int| 0 <= j < n - 1 ==> owned(bytes, j));
                }
            }
        }
        if forall|i: int| 0 <= i < n ==> owned(bytes, i) {
            assert(owned(bytes, n - 1));
        }
    }
}

/// The bitfield after `n` pieces were picked and none of them was set.
pub open spec fn after_picks(b: Bitfield, n: nat) -> Bitfield
    decreases n,
{
    if n == 0 {
        b
    } else {
        let was = after_picks(b, (n - 1) as nat);
        Bitfield { cur: was.following(was.next_missing()) as usize, ..was }
    }
}

/// A piece that is not set comes up again: however far the round has come, some later pick yields
/// every piece that is still missing.
pub proof fn law_missing_piece_comes_up(b: Bitfield, piece: int)
    requires
        b.wf(),
        b.confirmed <= piece < b.total_pieces,
        !b.owns(piece),
    ensures
        exists|n: nat| (#[trigger] after_picks(b, n)).next_missing() == piece,
{
    if b.cur <= piece {
        lemma_comes_up_ahead(b, b, 0, piece);
    } else {
        lemma_round_ends(b, b, 0, piece);
    }
}

/// A missing piece ahead of the next one to consider is picked before the round ends.
proof fn lemma_comes_up_ahead(b: Bitfield, was: Bitfield, n: nat, piece: int)
    requires
        was == after_picks(b, n),
        was.wf(),
        was.cur <= piece < was.total_pieces,
        !was.owns(piece),
    ensures
        exists|m: nat| (#[trigger] after_picks(b, m)).next_missing() == piece,
    decreases piece - was.cur,
{
    lemma_first_missing(was.piece_ownership@, was.cur as int, was.total_pieces as int);
    let next = was.next_missing();
    if next > piece {
        assert(owned(was.piece_ownership@, piece));
    }
    if next == piece {
        assert(after_picks(b, n).next_missing() == piece);
    } else {
        lemma_comes_up_ahead(b, after_picks(b, n + 1), n + 1, piece);
    }
}

/// The round ends, and the next one starts at `confirmed`.
proof fn lemma_round_ends(b: Bitfield, was: Bitfield, n: nat, piece: int)
    requires
        was == after_picks(b, n),
        was.wf(),
        was.confirmed <= piece < was.cur,
        piece < was.total_pieces,
        !was.owns(piece),
    ensures
        exists|m: nat| (#[trigger] after_picks(b, m)).next_missing() == piece,
    decreases was.total_pieces - was.cur,
{
    let bytes = was.piece_ownership@;
    lemma_first_missing(bytes, was.cur as int, was.total_pieces as int);
    lemma_first_missing(bytes, was.confirmed as int, was.total_pieces as int);
    let ahead = first_missing(bytes, was.cur as int, was.total_pieces as int);
    let again = first_missing(bytes, was.confirmed as int, was.total_pieces as int);
    if again > piece {
        assert(owned(bytes, piece));
    }
    let next = after_picks(b, n + 1);
    if ahead + 1 < was.total_pieces {
        lemma_round_ends(b, next, n + 1, piece);
    } else if ahead == was.total_pieces && again == piece {
        assert(after_picks(b, n).next_missing() == piece);
    } else {
        lemma_comes_up_ahead(b, next, n + 1, piece);
    }
}

/// How many of the pieces before `p` are missing.
pub open spec fn missing_before(bytes: Seq<u8>, p: int) -> int {
    p - num_owned(bytes, p)
}

/// Whether each bitfield is what the one before it becomes when a piece is picked.
pub open spec fn are_picks(states: Seq<Bitfield>) -> bool {
    forall|i: int|
        0 <= i < states.len() - 1 ==> (#[trigger] states[i + 1]).is_after_pick(states[i])
}

/// As many picks in a row as pieces remain, with no piece set in between, yield every piece that is
/// missing exactly once.
pub proof fn law_picks_yield_each_missing_piece_once(states: Seq<Bitfield>)
    requires
        states.len() > 0,
        states[0].sound(),
        states[0].num_remaining() == states.len(),
        are_picks(states),
    ensures
        forall|i: int|
            0 <= i < states.len() ==> 0 <= (#[trigger] states[i]).next_missing()
                < states[0].total_pieces && !states[0].owns(states[i].next_missing()),
        forall|i: int, j: int|
            0 <= i < j < states.len() ==> (#[trigger] states[i]).next_missing() != (
            #[trigger] states[j]).next_missing(),
        forall|p: int|
            0 <= p < states[0].total_pieces && !states[0].owns(p) ==> exists|i: int|
                0 <= i < states.len() && (#[trigger] states[i]).next_missing() == p,
{
    let b = states[0];
    let bytes = b.piece_ownership@;
    let k = states.len() as int;
    let first = missing_before(bytes, b.cur as int);
    lemma_padding_counts_nothing(bytes, b.total_pieces as int, b.num_bits());
    assert forall|i: int| 0 <= i < k implies 0 <= (#[trigger] states[i]).next_missing()
        < b.total_pieces && !b.owns(states[i].next_missing()) && missing_before(
        bytes,
        states[i].next_missing(),
    ) == (first + i) % k by {
        lemma_nth_pick(states, i);
    }
    assert forall|i: int, j: int| 0 <= i < j < k implies (#[trigger] states[i]).next_missing() != (
    #[trigger] states[j]).next_missing() by {
        lemma_nth_pick(states, i);
        lemma_nth_pick(states, j);
        lemma_other_remainder(first + i, first + j, k);
    }
    assert forall|p: int| 0 <= p < b.total_pieces && !b.owns(p) implies exists|i: int|
        0 <= i < k && (#[trigger] states[i]).next_missing() == p by {
        lemma_missing_before_grows(bytes, p + 1, b.total_pieces as int);
        lemma_missing_before_grows(bytes, 0, p);
        lemma_missing_before_grows(bytes, 0, b.cur as int);
        lemma_missing_before_grows(bytes, b.cur as int, b.total_pieces as int);
        let m = missing_before(bytes, p);
        let i = if m >= first {
            m - first
        } else {
            m - first + k
        };
        lemma_nth_pick(states, i);
        if m >= first {
            assert((first + i) % k == m) by (nonlinear_arith)
                requires
                    first + i == m,
                    0 <= m < k,
            ;
        } else {
            assert((first + i) % k == m) by (nonlinear_arith)
                requires
                    first + i == m + k,
                    0 <= m < k,
            ;
        }
        lemma_missing_before_tells(bytes, p, states[i].next_missing());
        assert(states[i].next_missing() == p);
    }
}

proof fn lemma_other_remainder(a: int, b: int, k: int)
    requires
        a < b < a + k,
    ensures
        a % k != b % k,
{
    assert(a % k != b % k) by (nonlinear_arith)
        requires
            a < b < a + k,
    ;
}

proof fn lemma_missing_before_grows(bytes: Seq<u8>, m: int, n: int)
    requires
        0 <= m <= n,
    ensures
        0 <= missing_before(bytes, n) - missing_before(bytes, m) <= n - m,
    decreases n - m,
{
    if m < n {
        lemma_missing_before_grows(bytes, m, n - 1);
    }
}

/// Missing pieces are told apart by how many are missing before them.
proof fn lemma_missing_before_tells(bytes: Seq<u8>, p: int, q: int)
    requires
        0 <= p,
        0 <= q,
        !owned(bytes, p),
        !owned(bytes, q),
        missing_before(bytes, p) == missing_before(bytes, q),
    ensures
        p == q,
{
    if p < q {
        lemma_missing_before_grows(bytes, p + 1, q);
    } else if q < p {
        lemma_missing_before_grows(bytes, q + 1, p);
    }
}

/// No piece is missing between a piece and the first one missing from it on.
proof fn lemma_missing_before_first(bytes: Seq<u8>, from: int, to: int)
    requires
        0 <= from <= to,
    ensures
        from <= first_missing(bytes, from, to) <= to,
        missing_before(bytes, first_missing(bytes, from, to)) == missing_before(bytes, from),
        first_missing(bytes, from, to) < to ==> !owned(bytes, first_missing(bytes, from, to)),
    decreases to - from,
{
    if from < to && owned(bytes, from) {
        lemma_missing_before_first(bytes, from + 1, to);
    }
}

/// The pieces that are missing come up in turn, round and round.
proof fn lemma_nth_pick(states: Seq<Bitfield>, n: int)
    requires
        states[0].sound(),
        states[0].num_remaining() == states.len(),
        are_picks(states),
        0 <= n < states.len(),
    ensures
        states[n].piece_ownership@ == states[0].piece_ownership@,
        states[n].total_pieces == states[0].total_pieces,
        states[n].confirmed == states[0].confirmed,
        states[n].cur < states[0].total_pieces,
        0 <= states[n].next_missing() < states[0].total_pieces,
        !states[0].owns(states[n].next_missing()),
        missing_before(states[0].piece_ownership@, states[n].next_missing()) == (missing_before(
            states[0].piece_ownership@,
            states[0].cur as int,
        ) + n) % (states.len() as int),
    decreases n,
{
    let b = states[0];
    let bytes = b.piece_ownership@;
    let total = b.total_pieces as int;
    let k = states.len() as int;
    let first = missing_before(bytes, b.cur as int);
    lemma_padding_counts_nothing(bytes, total, b.num_bits());
    assert(missing_before(bytes, total) == k);
    lemma_missing_before_first(bytes, 0, b.num_bits());
    lemma_first_missing(bytes, 0, b.num_bits());
    lemma_all_counted(bytes, total);
    law_nothing_remains(b);
    assert(b.confirmed < total) by {
        if b.confirmed >= total {
            assert forall|i: int| 0 <= i < total implies b.owns(i) by {
                assert(owned(bytes, i));
            }
        }
    }
    if n > 0 {
        lemma_nth_pick(states, n - 1);
        assert(states[n].is_after_pick(states[n - 1])) by {
            assert(states[(n - 1) + 1].is_after_pick(states[n - 1]));
        }
        let last = states[n - 1].next_missing();
        assert(missing_before(bytes, last + 1) == missing_before(bytes, last) + 1);
    }
    let here = states[n];
    let cur = here.cur as int;
    let m = missing_before(bytes, cur);
    lemma_missing_before_grows(bytes, 0, cur);
    lemma_missing_before_grows(bytes, cur, total);
    lemma_missing_before_first(bytes, cur, total);
    lemma_missing_before_first(bytes, b.confirmed as int, total);
    let next = here.next_missing();
    // The pieces that are missing are all before `cur` where none is ahead.
    if first_missing(bytes, cur, total) < total {
        lemma_missing_before_grows(bytes, next + 1, total);
        assert(missing_before(bytes, next) == m && m < k);
    } else {
        assert(m == k);
        assert(missing_before(bytes, next) == 0);
    }
    let turn = missing_before(bytes, next);
    if n == 0 {
        assert((first + n) % k == turn) by (nonlinear_arith)
            requires
                n == 0,
                k > 0,
                (first == turn && 0 <= turn < k) || (first == k && turn == 0),
        ;
    } else {
        let last = states[n - 1].next_missing();
        let was = missing_before(bytes, last);
        assert(was == (first + (n - 1)) % k);
        lemma_missing_before_grows(bytes, last + 1, total);
        assert((first + n) % k == turn) by (nonlinear_arith)
            requires
                k > 0,
                was == (first + (n - 1)) % k,
                0 <= was < k,
                (was + 1 < k && turn == was + 1) || (was + 1 == k && turn == 0),
        ;
    }
}

/// A bitfield of just the length that the pieces need is that of a seed exactly when every piece
/// is owned.
pub proof fn law_seed_owns_every_piece(total_pieces: int, bytes: Seq<u8>)
    requires
        0 < total_pieces,
        bytes.len() == (total_pieces + 7) / 8,
    ensures
        (forall|i: int| 0 <= i < 8 * (bytes.len() - 1) || 0 <= i < total_pieces ==> owned(bytes, i))
            <==> (forall|i: int| 0 <= i < total_pieces ==> owned(bytes, i)),
{
}

/// The first piece has the highest bit of the first byte, the ninth the highest of the second.
pub proof fn law_bit_of_a_piece(bytes: Seq<u8>, i: int)
    requires
        0 <= i < 8 * bytes.len(),
    ensures
        owned(bytes, i) <==> bytes[i / 8] & (0x80u8 >> ((i % 8) as u8)) != 0,
{
    let k = (i % 8) as u8;
    assert(1u8 << ((7 - k) as u8) == 0x80u8 >> k) by (bit_vector)
        requires
            k < 8,
    ;
}

/// The first piece that is missing is missing, and none before it is.
pub proof fn law_first_missing_piece(bytes: Seq<u8>, from: int, to: int)
    requires
        from <= to,
    ensures
        from <= first_missing(bytes, from, to) <= to,
        first_missing(bytes, from, to) < to ==> !owned(bytes, first_missing(bytes, from, to)),
        forall|j: int| from <= j < first_missing(bytes, from, to) ==> owned(bytes, j),
{
    lemma_first_missing(bytes, from, to);
}

/// As many pieces are owned as there are that are owned.
pub proof fn law_owned_pieces_are_counted(bytes: Seq<u8>, n: int)
    requires
        n >= 0,
    ensures
        Set::new(|i: int| 0 <= i < n && owned(bytes, i)).finite(),
        num_owned(bytes, n) == Set::new(|i: int| 0 <= i < n && owned(bytes, i)).len(),
    decreases n,
{
    let all = Set::new(|i: int| 0 <= i < n && owned(bytes, i));
    if n == 0 {
        assert(all =~= Set::empty());
    } else {
        law_owned_pieces_are_counted(bytes, n - 1);
        let others = Set::new(|i: int| 0 <= i < n - 1 && owned(bytes, i));
        if owned(bytes, n - 1) {
            assert(all =~= others.insert(n - 1));
        } else {
            assert(all =~= others);
        }
    }
}

/// As many pieces remain as there are, less the bits that are set.
pub proof fn law_what_remains(b: Bitfield)
    ensures
        b.num_remaining() == b.total_pieces - Set::new(
            |i: int| 0 <= i < 8 * b.piece_ownership@.len() && owned(b.piece_ownership@, i),
        ).len(),
{
    law_owned_pieces_are_counted(b.piece_ownership@, 8 * b.piece_ownership@.len() as int);
    assert(b.num_bits() == 8 * b.piece_ownership@.len());
}

/// The piece that comes up next is missing. It is the first from `cur` on, or where none is missing
/// from there, the first from `confirmed` on.
pub proof fn law_next_piece_is_missing(b: Bitfield)
    requires
        b.can_pick(),
        b.confirmed < b.total_pieces,
    ensures
        0 <= b.next_missing() < b.total_pieces,
        !b.owns(b.next_missing()),
        b.cur <= b.next_missing() ==> forall|j: int| b.cur <= j < b.next_missing() ==> b.owns(j),
        b.next_missing() < b.cur ==> {
            &&& forall|j: int| b.cur <= j < b.total_pieces ==> b.owns(j)
            &&& b.confirmed <= b.next_missing()
            &&& forall|j: int| b.confirmed <= j < b.next_missing() ==> b.owns(j)
        },
{
    lemma_first_missing(b.piece_ownership@, b.cur as int, b.total_pieces as int);
    lemma_first_missing(b.piece_ownership@, b.confirmed as int, b.total_pieces as int);
}

/// After a pick, the piece behind the one that was picked is considered next, and after the last
/// piece those that are not confirmed. Nothing else changes.
pub proof fn law_pick_moves_on(after: Bitfield, before: Bitfield)
    requires
        after.is_after_pick(before),
    ensures
        after.piece_ownership@ == before.piece_ownership@,
        after.total_pieces == before.total_pieces,
        after.confirmed == before.confirmed,
        before.confirmed >= before.total_pieces ==> after.cur == before.cur,
        before.confirmed < before.total_pieces ==> after.cur == if before.next_missing() + 1
            == before.total_pieces {
            before.confirmed as int
        } else {
            before.next_missing() + 1
        },
{
}

/// Setting a piece makes just that piece owned. Where it was the first that was not confirmed, all
/// that are owned behind it are confirmed with it.
pub proof fn law_set_owns_a_piece(after: Bitfield, before: Bitfield, piece: u32)
    requires
        after.is_after_set(before, piece),
        before.can_set(piece),
    ensures
        after.total_pieces == before.total_pieces,
        after.cur == before.cur,
        after.piece_ownership@.len() == before.piece_ownership@.len(),
        forall|i: int|
            0 <= i < 8 * before.piece_ownership@.len() ==> (#[trigger] after.owns(i) == (
            before.owns(i) || i == piece)),
        before.confirmed != piece ==> after.confirmed == before.confirmed,
        before.confirmed == piece ==> {
            &&& piece < after.confirmed <= 8 * before.piece_ownership@.len()
            &&& forall|i: int| piece <= i < after.confirmed ==> after.owns(i)
            &&& after.confirmed < 8 * before.piece_ownership@.len() ==> !after.owns(
                after.confirmed as int,
            )
        },
{
    lemma_with_piece(before.piece_ownership@, piece as int);
    lemma_first_missing(after.piece_ownership@, piece + 1, after.num_bits());
    assert(after.owns(piece as int));
}

/// The text of a bitfield has nine characters for each byte: its bits, the highest first, and a
/// space.
pub proof fn law_bits_are_shown(bytes: Seq<u8>, i: int, k: int)
    requires
        0 <= i < bytes.len(),
        0 <= k < 8,
    ensures
        bits_text(bytes).len() == 9 * bytes.len(),
        bits_text(bytes)[9 * i + k] == if owned(bytes, 8 * i + k) {
            '1'
        } else {
            '0'
        },
        bits_text(bytes)[9 * i + 8] == ' ',
    decreases bytes.len(),
{
    let init = bytes.drop_last();
    assert((8 * i + k) / 8 == i && (8 * i + k) % 8 == k);
    lemma_bits_text_len(bytes);
    lemma_bits_text_len(init);
    if i < init.len() {
        law_bits_are_shown(init, i, k);
        assert(init[i] == bytes[i]);
        assert(bits_text(bytes)[9 * i + k] == bits_text(init)[9 * i + k]);
        assert(bits_text(bytes)[9 * i + 8] == bits_text(init)[9 * i + 8]);
    }
}

proof fn lemma_bits_text_len(bytes: Seq<u8>)
    ensures
        bits_text(bytes).len() == 9 * bytes.len(),
    decreases bytes.len(),
{
    if bytes.len() > 0 {
        lemma_bits_text_len(bytes.drop_last());
    }
}

/// A bitfield can be looked at where it is not empty and has a bit for every piece, or one that is
/// clear.
pub proof fn law_bitfields_can_be_looked_at(total_pieces: usize, bitfield: Seq<u8>, clear: int)
    requires
        0 < bitfield.len() <= 0x1fff_ffff,
        total_pieces <= u32::MAX,
        total_pieces <= 8 * bitfield.len() || (0 <= clear < 8 * bitfield.len() && !owned(
            bitfield,
            clear,
        )),
    ensures
        can_check(total_pieces, bitfield),
{
}

/// A bitfield that holds a bit for each piece, and is to consider one of them next, can be counted
/// and picked from: all that is needed of one that is sound.
pub proof fn law_new_bitfields_are_sound(b: Bitfield)
    requires
        b.piece_ownership@.len() == (b.total_pieces + 7) / 8,
        forall|i: int| 0 <= i < b.piece_ownership@.len() ==> b.piece_ownership@[i] == 0,
        b.cur == 0,
        b.confirmed == 0,
        b.total_pieces <= u32::MAX,
        b.total_pieces + 7 <= usize::MAX,
    ensures
        b.sound(),
        b.num_remaining() == b.total_pieces,
{
    let bytes = b.piece_ownership@;
    assert forall|i: int| 0 <= i < 8 * bytes.len() implies !owned(bytes, i) by {
        let m = mask(i);
        assert(0u8 & m == 0) by (bit_vector);
    }
    lemma_padding_counts_nothing(bytes, 0, b.num_bits());
    if b.num_bits() > 0 {
        assert(!owned(bytes, 0));
    }
}

/// A seed owns every piece, and a peer whose bitfield is just long enough is a seed exactly where
/// it does.
pub proof fn law_seeds_are_full(total_pieces: int, bytes: Seq<u8>, i: int)
    requires
        0 <= i < total_pieces,
    ensures
        is_full(total_pieces, bytes) ==> owned(bytes, i),
        is_full(total_pieces, bytes) && 8 * (bytes.len() - 1) < total_pieces <= 8 * bytes.len()
            <==> 8 * (bytes.len() - 1) < total_pieces <= 8 * bytes.len() && forall|j: int|
            0 <= j < total_pieces ==> owned(bytes, j),
{
}

} // verus!
