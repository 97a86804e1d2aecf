//! The 90-square bitboard and the bit-level facts its operations rest on.

use vstd::prelude::*;
use vstd::set_lib::*;
use vstd::std_specs::bits::*;

use crate::types::{Square, on_board, push_char};

verus! {

/// Bits 0..90: one per board square.
pub const BOARD_MASK: u128 = 0x3ff_ffff_ffff_ffff_ffff_ffff;

/// Bit `i` of `x` is set (only positions 0..128 exist).
pub open spec fn bit(x: u128, i: int) -> bool {
    0 <= i < 128 && (x >> (i as u128)) & 1u128 == 1u128
}

/// Lowest set bit of a 128-bit word, from the two 64-bit halves; 128 for zero.
pub open spec fn lowest_bit(x: u128) -> int {
    if (x as u64) != 0 {
        u64_trailing_zeros(x as u64) as int
    } else {
        64 + u64_trailing_zeros((x >> 64u128) as u64) as int
    }
}

/// Bit-level facts about the Boolean operations, at position `j`.
proof fn bv_ops(a: u128, b: u128, j: u128)
    by (bit_vector)
    requires
        j < 128,
    ensures
        (((a & b) >> j) & 1u128 == 1u128) == (((a >> j) & 1u128 == 1u128) && ((b >> j) & 1u128
            == 1u128)),
        (((a | b) >> j) & 1u128 == 1u128) == (((a >> j) & 1u128 == 1u128) || ((b >> j) & 1u128
            == 1u128)),
        (((a ^ b) >> j) & 1u128 == 1u128) == (((a >> j) & 1u128 == 1u128) != ((b >> j) & 1u128
            == 1u128)),
        (((!a) >> j) & 1u128 == 1u128) == !((a >> j) & 1u128 == 1u128),
        (0u128 >> j) & 1u128 == 0u128,
        (((0x3ff_ffff_ffff_ffff_ffff_ffffu128) >> j) & 1u128 == 1u128) == (j < 90),
        a ^ b == 0 ==> a == b,
        a & !0x3ff_ffff_ffff_ffff_ffff_ffffu128 == 0 ==> a >> 90u128 == 0,
        a >> 90u128 == 0 && 90 <= j ==> (a >> j) & 1u128 == 0u128,
        ((a & (1u128 << j)) != 0) == ((a >> j) & 1u128 == 1u128),
{
}

/// Bit-level facts about shifts, at position `j`.
proof fn bv_shift(a: u128, k: u128, j: u128)
    by (bit_vector)
    requires
        k < 128,
        j < 128,
    ensures
        k <= j ==> ((((a << k) >> j) & 1u128 == 1u128) == (((a >> ((j - k) as u128)) & 1u128)
            == 1u128)),
        j < k ==> ((a << k) >> j) & 1u128 == 0u128,
        j + k < 128 ==> ((((a >> k) >> j) & 1u128 == 1u128) == (((a >> ((j + k) as u128))
            & 1u128) == 1u128)),
        j + k >= 128 ==> ((a >> k) >> j) & 1u128 == 0u128,
        (((1u128 << k) >> j) & 1u128 == 1u128) == (j == k),
{
}

pub broadcast proof fn lemma_bit_and(a: u128, b: u128, i: int)
    ensures
        #[trigger] bit(a & b, i) == (bit(a, i) && bit(b, i)),
{
    if 0 <= i < 128 {
        bv_ops(a, b, i as u128);
    }
}

pub broadcast proof fn lemma_bit_or(a: u128, b: u128, i: int)
    ensures
        #[trigger] bit(a | b, i) == (bit(a, i) || bit(b, i)),
{
    if 0 <= i < 128 {
        bv_ops(a, b, i as u128);
    }
}

pub broadcast proof fn lemma_bit_xor(a: u128, b: u128, i: int)
    ensures
        #[trigger] bit(a ^ b, i) == (bit(a, i) != bit(b, i)),
{
    if 0 <= i < 128 {
        bv_ops(a, b, i as u128);
    }
}

pub broadcast proof fn lemma_bit_not(a: u128, i: int)
    ensures
        #[trigger] bit(!a, i) == (0 <= i < 128 && !bit(a, i)),
{
    if 0 <= i < 128 {
        bv_ops(a, a, i as u128);
    }
}

pub broadcast proof fn lemma_bit_zero(i: int)
    ensures
        !#[trigger] bit(0u128, i),
{
    if 0 <= i < 128 {
        bv_ops(0, 0, i as u128);
    }
}

pub broadcast proof fn lemma_bit_single(s: u128, i: int)
    requires
        s < 128,
    ensures
        #[trigger] bit(1u128 << s, i) == (i == s),
{
    if 0 <= i < 128 {
        bv_shift(1, s, i as u128);
    }
}

pub broadcast proof fn lemma_bit_shl(a: u128, k: u128, i: int)
    requires
        k < 128,
    ensures
        #[trigger] bit(a << k, i) == (0 <= i < 128 && k <= i && bit(a, i - k)),
{
    if 0 <= i < 128 {
        bv_shift(a, k, i as u128);
    }
}

pub broadcast proof fn lemma_bit_shr(a: u128, k: u128, i: int)
    requires
        k < 128,
    ensures
        #[trigger] bit(a >> k, i) == (0 <= i < 128 && bit(a, i + k)),
{
    if 0 <= i < 128 {
        bv_shift(a, k, i as u128);
    }
}

/// Bits of `BOARD_MASK` are exactly the board squares.
pub broadcast proof fn lemma_bit_mask(i: int)
    ensures
        #[trigger] bit(BOARD_MASK, i) == on_board(i),
{
    if 0 <= i < 128 {
        bv_ops(0, 0, i as u128);
    }
}

pub broadcast group group_bits {
    lemma_bit_and,
    lemma_bit_or,
    lemma_bit_xor,
    lemma_bit_not,
    lemma_bit_zero,
    lemma_bit_single,
    lemma_bit_shl,
    lemma_bit_shr,
    lemma_bit_mask,
}

/// A word whose bits all lie below 90 has no bit at or above 90.
pub proof fn lemma_board_bits(x: u128, i: int)
    requires
        x >> 90u128 == 0,
    ensures
        bit(x, i) ==> on_board(i),
{
    if 90 <= i < 128 {
        bv_ops(x, x, i as u128);
    }
}

/// A word with no set bit at or above 90 lies below `2^90`.
pub proof fn lemma_board_word(x: u128)
    requires
        forall|i: int| #[trigger] bit(x, i) ==> on_board(i),
    ensures
        x >> 90u128 == 0,
{
    let y = x & !BOARD_MASK;
    broadcast use group_bits;

    assert forall|i: int| !#[trigger] bit(y, i) by {
        if bit(y, i) {
            assert(bit(x, i));
        }
    }
    lemma_no_bits_zero(y);
    bv_ops(x, x, 0);
}

/// The bits of the low half of a word.
proof fn bv_low_half(x: u128, lo: u64, t: u64, j: u64)
    by (bit_vector)
    requires
        lo == x as u64,
        t < 64,
        j < 64,
    ensures
        (lo >> t) & 1u64 == 1u64 ==> (x >> (t as u128)) & 1u128 == 1u128,
        (lo >> j) & 1u64 == 0u64 ==> (x >> (j as u128)) & 1u128 == 0u128,
        lo << ((64u64 - t) as u64) == 0u64 ==> x & (((1u128 << (t as u128)) - 1u128) as u128)
            == 0,
{
}

/// The bits of the high half of a word whose low half is zero.
proof fn bv_high_half(x: u128, lo: u64, hi: u64, t: u64, j: u64)
    by (bit_vector)
    requires
        lo == x as u64,
        hi == (x >> 64u128) as u64,
        lo == 0,
        t < 64,
        j < 64,
    ensures
        x != 0 ==> hi != 0,
        (hi >> t) & 1u64 == 1u64 ==> (x >> ((t + 64) as u128)) & 1u128 == 1u128,
        (hi >> j) & 1u64 == 0u64 ==> (x >> ((j + 64) as u128)) & 1u128 == 0u128,
        (x >> (j as u128)) & 1u128 == 0u128,
        hi << ((64u64 - t) as u64) == 0u64 ==> x & (((1u128 << ((t + 64) as u128)) - 1u128)
            as u128) == 0,
{
}

/// The lowest set bit of a nonzero word is set and no lower bit is.
pub proof fn lemma_lowest_bit(x: u128)
    requires
        x != 0,
    ensures
        0 <= lowest_bit(x) < 128,
        bit(x, lowest_bit(x)),
        forall|j: int| 0 <= j < lowest_bit(x) ==> !#[trigger] bit(x, j),
        x & (((1u128 << (lowest_bit(x) as u128)) - 1u128) as u128) == 0,
{
    let lo = x as u64;
    let hi = (x >> 64u128) as u64;
    axiom_u64_trailing_zeros(lo);
    axiom_u64_trailing_zeros(hi);
    if lo != 0 {
        let t = u64_trailing_zeros(lo) as u64;
        assert(t < 64);
        bv_low_half(x, lo, t, 0);
        assert forall|j: int| 0 <= j < lowest_bit(x) implies !#[trigger] bit(x, j) by {
            let jj = j as u64;
            assert((lo >> jj) & 1u64 == 0u64);
            bv_low_half(x, lo, t, jj);
        }
    } else {
        bv_high_half(x, lo, hi, 0, 0);
        let t = u64_trailing_zeros(hi) as u64;
        assert(t < 64);
        bv_high_half(x, lo, hi, t, 0);
        assert forall|j: int| 0 <= j < lowest_bit(x) implies !#[trigger] bit(x, j) by {
            if j < 64 {
                bv_high_half(x, lo, hi, t, j as u64);
            } else {
                let jj = (j - 64) as u64;
                assert((hi >> jj) & 1u64 == 0u64);
                bv_high_half(x, lo, hi, t, jj);
            }
        }
    }
}

/// A word with no set bit is zero.
pub proof fn lemma_no_bits_zero(x: u128)
    requires
        forall|i: int| !#[trigger] bit(x, i),
    ensures
        x == 0,
{
    if x != 0 {
        lemma_lowest_bit(x);
    }
}

/// Two words with the same bits are equal.
pub proof fn lemma_bits_ext(a: u128, b: u128)
    requires
        forall|i: int| #[trigger] bit(a, i) == bit(b, i),
    ensures
        a == b,
{
    broadcast use lemma_bit_xor;

    assert forall|i: int| !#[trigger] bit(a ^ b, i) by {}
    lemma_no_bits_zero(a ^ b);
    bv_ops(a, b, 0);
}

/// Clearing the lowest set bit with `x & (x - 1)`, at position `j`.
proof fn bv_clear_lowest(x: u128, t: u128, j: u128)
    by (bit_vector)
    requires
        x != 0,
        t < 128,
        j < 128,
        (x >> t) & 1u128 == 1u128,
        x & (((1u128 << t) - 1u128) as u128) == 0,
    ensures
        (((x & ((x - 1u128) as u128)) >> j) & 1u128 == 1u128) == (((x >> j) & 1u128 == 1u128)
            && j != t),
{
}

/// Clearing the lowest set bit with `x & (x - 1)`.
pub proof fn lemma_clear_lowest(x: u128, i: int)
    requires
        x != 0,
    ensures
        bit(x & ((x - 1u128) as u128), i) == (bit(x, i) && i != lowest_bit(x)),
{
    lemma_lowest_bit(x);
    if 0 <= i < 128 {
        bv_clear_lowest(x, lowest_bit(x) as u128, i as u128);
    }
}

/// The set of positions of the set bits of `x`.
pub open spec fn bits_of(x: u128) -> Set<int> {
    Set::new(|i: int| bit(x, i))
}

pub proof fn lemma_bits_finite(x: u128)
    ensures
        bits_of(x).finite(),
        bits_of(x).len() <= 128,
{
    lemma_int_range(0, 128);
    assert(bits_of(x).subset_of(set_int_range(0, 128)));
    lemma_len_subset(bits_of(x), set_int_range(0, 128));
}

/// The one-square set `{s}`.
pub open spec fn sq_set(s: int) -> Bitboard {
    Bitboard(1u128 << (s as u128))
}

pub proof fn lemma_sq_set(s: int, t: int)
    requires
        0 <= s < 128,
    ensures
        sq_set(s).has(t) == (t == s),
{
    lemma_bit_single(s as u128, t);
}

/// A set of squares, bit `s` standing for square `s`.
#[derive(Clone, Copy, PartialEq, Eq, Debug, Structural)]
pub struct Bitboard(pub u128);

impl View for Bitboard {
    type V = Set<int>;

    open spec fn view(&self) -> Set<int> {
        bits_of(self.0)
    }
}

impl Bitboard {
    /// Only board squares are present.
    pub open spec fn wf(self) -> bool {
        self.0 >> 90u128 == 0
    }

    pub open spec fn has(self, s: int) -> bool {
        bit(self.0, s)
    }

    pub fn empty() -> (b: Bitboard)
        ensures
            b.0 == 0,
            b@ == Set::<int>::empty(),
            forall|t: int| !#[trigger] b.has(t),
            b.wf(),
    {
        proof {
            broadcast use group_bits;

            assert(bits_of(0u128) =~= Set::<int>::empty());
            lemma_board_word(0u128);
        }
        Bitboard(0)
    }

    /// All 90 squares.
    pub fn all_squares() -> (b: Bitboard)
        ensures
            b.0 == BOARD_MASK,
            forall|s: int| #[trigger] b.has(s) == on_board(s),
            b.wf(),
    {
        proof {
            broadcast use group_bits;

            lemma_board_word(BOARD_MASK);
        }
        Bitboard(BOARD_MASK)
    }

    /// The board squares of `v`; bits above the board are dropped.
    pub fn new(v: u128) -> (b: Bitboard)
        ensures
            b.0 == v & BOARD_MASK,
            forall|s: int| #[trigger] b.has(s) == (bit(v, s) && on_board(s)),
            b.wf(),
    {
        proof {
            broadcast use group_bits;

            lemma_board_word(v & BOARD_MASK);
        }
        Bitboard(v & BOARD_MASK)
    }

    pub fn raw(self) -> (r: u128)
        ensures
            r == self.0,
    {
        self.0
    }

    pub fn is_empty(self) -> (r: bool)
        ensures
            r == (self.0 == 0),
            r == (self@ == Set::<int>::empty()),
    {
        proof {
            self.lemma_empty_iff();
        }
        self.0 == 0
    }

    pub fn is_not_empty(self) -> (r: bool)
        ensures
            r == (self.0 != 0),
            r == (self@ != Set::<int>::empty()),
    {
        proof {
            self.lemma_empty_iff();
        }
        self.0 != 0
    }

    pub proof fn lemma_empty_iff(self)
        ensures
            (self.0 == 0) == (self@ == Set::<int>::empty()),
            (self.0 == 0) == (forall|s: int| !#[trigger] self.has(s)),
    {
        broadcast use group_bits;

        if self.0 == 0 {
            assert(self@ =~= Set::<int>::empty());
            assert forall|s: int| !#[trigger] self.has(s) by {
                lemma_bit_zero(s);
            }
        } else {
            lemma_lowest_bit(self.0);
            assert(self@.contains(lowest_bit(self.0)));
            assert(self.has(lowest_bit(self.0)));
        }
    }

    pub proof fn lemma_finite(self)
        ensures
            self@.finite(),
            self@.len() <= 128,
    {
        lemma_bits_finite(self.0);
    }

    /// At least two squares are present.
    pub fn more_than_one(self) -> (r: bool)
        ensures
            r == (self@.len() > 1),
    {
        let x = self.0;
        let y = x & x.wrapping_sub(1);
        proof {
            lemma_bits_finite(x);
            if x != 0 {
                assert(x.wrapping_sub(1) == ((x - 1u128) as u128));
                lemma_lowest_bit(x);
                let t = lowest_bit(x);
                assert forall|i: int| #[trigger] bits_of(y).contains(i) == bits_of(x).remove(
                    t,
                ).contains(i) by {
                    lemma_clear_lowest(x, i);
                }
                assert(bits_of(y) =~= bits_of(x).remove(t));
                assert(bits_of(x).contains(t));
                lemma_bits_finite(y);
                let by = Bitboard(y);
                by.lemma_empty_iff();
                lemma_set_empty_equivalency_len(bits_of(y));
            } else {
                broadcast use group_bits;

                assert forall|i: int| !#[trigger] bit(y, i) by {}
                lemma_no_bits_zero(y);
                self.lemma_empty_iff();
                lemma_set_empty_equivalency_len(bits_of(x));
            }
        }
        y != 0
    }

    /// Number of squares present.
    pub fn popcount(self) -> (n: u32)
        ensures
            n == self@.len(),
    {
        let mut x = self.0;
        let mut n: u32 = 0;
        proof {
            lemma_bits_finite(x);
        }
        while x != 0
            invariant
                bits_of(x).finite(),
                n + bits_of(x).len() == bits_of(self.0).len(),
                bits_of(self.0).len() <= 128,
            decreases bits_of(x).len(),
        {
            let ghost old_x = x;
            proof {
                assert(x.wrapping_sub(1) == ((x - 1u128) as u128));
                lemma_lowest_bit(x);
            }
            x = x & x.wrapping_sub(1);
            proof {
                let t = lowest_bit(old_x);
                assert forall|i: int| #[trigger] bits_of(x).contains(i) == bits_of(old_x).remove(
                    t,
                ).contains(i) by {
                    lemma_clear_lowest(old_x, i);
                }
                assert(bits_of(x) =~= bits_of(old_x).remove(t));
                assert(bits_of(old_x).contains(t));
            }
            n = n + 1;
        }
        proof {
            Bitboard(x).lemma_empty_iff();
            assert(bits_of(x).len() == 0);
        }
        n
    }

    /// The lowest square present.
    pub fn lsb(self) -> (s: Square)
        requires
            self.0 != 0,
            self.wf(),
        ensures
            s.id() == lowest_bit(self.0),
            s.valid(),
            self.has(s.id()),
            forall|t: int| #[trigger] self.has(t) ==> s.id() <= t,
    {
        proof {
            lemma_lowest_bit(self.0);
            lemma_board_bits(self.0, lowest_bit(self.0));
        }
        let lo = self.0 as u64;
        let t: u32 = if lo != 0 {
            lo.trailing_zeros()
        } else {
            64 + ((self.0 >> 64u32) as u64).trailing_zeros()
        };
        Square::from_raw_unchecked(t as u8)
    }

    /// Removes and returns the lowest square.
    pub fn pop_lsb(&mut self) -> (s: Square)
        requires
            old(self).0 != 0,
            old(self).wf(),
        ensures
            s.id() == lowest_bit(old(self).0),
            s.valid(),
            old(self).has(s.id()),
            forall|t: int| #[trigger] old(self).has(t) ==> s.id() <= t,
            final(self)@ == old(self)@.remove(s.id()),
            forall|t: int| #[trigger] final(self).has(t) == (old(self).has(t) && t != s.id()),
            final(self).wf(),
            final(self)@.len() + 1 == old(self)@.len(),
    {
        let s = self.lsb();
        let x = self.0;
        proof {
            assert(x.wrapping_sub(1) == ((x - 1u128) as u128));
        }
        self.0 = x & x.wrapping_sub(1);
        proof {
            assert forall|i: int| #[trigger] bit(self.0, i) implies on_board(i) by {
                lemma_clear_lowest(x, i);
                lemma_board_bits(x, i);
            }
            lemma_board_word(self.0);
            assert forall|i: int| #[trigger] bits_of(self.0).contains(i) == bits_of(x).remove(
                s.id(),
            ).contains(i) by {
                lemma_clear_lowest(x, i);
            }
            assert(bits_of(self.0) =~= bits_of(x).remove(s.id()));
            assert forall|t: int| #[trigger] bit(self.0, t) == (bit(x, t) && t != s.id()) by {
                lemma_clear_lowest(x, t);
            }
            lemma_bits_finite(x);
        }
        s
    }

    pub fn contains(self, sq: Square) -> (r: bool)
        requires
            sq.valid(),
        ensures
            r == self.has(sq.id()),
            r == self@.contains(sq.id()),
    {
        let x = self.0;
        let s = sq.raw() as u128;
        proof {
            bv_ops(x, x, s);
        }
        x & (1u128 << s) != 0
    }

    /// The one-square set `{sq}`.
    pub fn from_square(sq: Square) -> (b: Bitboard)
        requires
            sq.valid(),
        ensures
            b@ == set![sq.id()],
            forall|t: int| #[trigger] b.has(t) == (t == sq.id()),
            b.wf(),
            b == sq_set(sq.id()),
    {
        let s = sq.raw() as u128;
        proof {
            broadcast use group_bits;

            assert(bits_of(1u128 << s) =~= set![sq.id()]);
            lemma_board_word(1u128 << s);
        }
        Bitboard(1u128 << s)
    }

    /// Squares present in both.
    pub fn and(self, o: Bitboard) -> (r: Bitboard)
        ensures
            r.0 == self.0 & o.0,
            r@ == self@.intersect(o@),
            forall|t: int| #[trigger] r.has(t) == (self.has(t) && o.has(t)),
            self.wf() || o.wf() ==> r.wf(),
    {
        proof {
            broadcast use group_bits;

            if self.wf() || o.wf() {
                assert forall|i: int| #[trigger] bit(self.0 & o.0, i) implies on_board(i) by {
                    if self.wf() {
                        lemma_board_bits(self.0, i);
                    } else {
                        lemma_board_bits(o.0, i);
                    }
                }
                lemma_board_word(self.0 & o.0);
            }
            assert(bits_of(self.0 & o.0) =~= bits_of(self.0).intersect(bits_of(o.0)));
        }
        Bitboard(self.0 & o.0)
    }

    /// Squares present in either.
    pub fn or(self, o: Bitboard) -> (r: Bitboard)
        ensures
            r.0 == self.0 | o.0,
            r@ == self@.union(o@),
            forall|t: int| #[trigger] r.has(t) == (self.has(t) || o.has(t)),
            self.wf() && o.wf() ==> r.wf(),
    {
        proof {
            broadcast use group_bits;

            if self.wf() && o.wf() {
                assert forall|i: int| #[trigger] bit(self.0 | o.0, i) implies on_board(i) by {
                    lemma_board_bits(self.0, i);
                    lemma_board_bits(o.0, i);
                }
                lemma_board_word(self.0 | o.0);
            }
            assert(bits_of(self.0 | o.0) =~= bits_of(self.0).union(bits_of(o.0)));
        }
        Bitboard(self.0 | o.0)
    }

    /// Squares present in exactly one.
    pub fn xor(self, o: Bitboard) -> (r: Bitboard)
        ensures
            r.0 == self.0 ^ o.0,
            r@ == self@.difference(o@).union(o@.difference(self@)),
            forall|t: int| #[trigger] r.has(t) == (self.has(t) != o.has(t)),
            self.wf() && o.wf() ==> r.wf(),
    {
        proof {
            broadcast use group_bits;

            if self.wf() && o.wf() {
                assert forall|i: int| #[trigger] bit(self.0 ^ o.0, i) implies on_board(i) by {
                    lemma_board_bits(self.0, i);
                    lemma_board_bits(o.0, i);
                }
                lemma_board_word(self.0 ^ o.0);
            }
            assert(bits_of(self.0 ^ o.0) =~= bits_of(self.0).difference(bits_of(o.0)).union(
                bits_of(o.0).difference(bits_of(self.0)),
            ));
        }
        Bitboard(self.0 ^ o.0)
    }

    /// The board squares absent from `self`.
    pub fn complement(self) -> (r: Bitboard)
        ensures
            r.0 == !self.0 & BOARD_MASK,
            forall|s: int| #[trigger] r.has(s) == (on_board(s) && !self.has(s)),
            r.wf(),
    {
        proof {
            broadcast use group_bits;

            lemma_board_word(!self.0 & BOARD_MASK);
        }
        Bitboard(!self.0 & BOARD_MASK)
    }
}

impl core::ops::BitAnd for Bitboard {
    type Output = Bitboard;

    fn bitand(self, rhs: Bitboard) -> (r: Bitboard) {
        Bitboard(self.0 & rhs.0)
    }
}

impl vstd::std_specs::ops::BitAndSpecImpl for Bitboard {
    open spec fn obeys_bitand_spec() -> bool {
        true
    }

    open spec fn bitand_req(self, rhs: Bitboard) -> bool {
        true
    }

    open spec fn bitand_spec(self, rhs: Bitboard) -> Bitboard {
        Bitboard(self.0 & rhs.0)
    }
}

impl core::ops::BitOr for Bitboard {
    type Output = Bitboard;

    fn bitor(self, rhs: Bitboard) -> (r: Bitboard) {
        Bitboard(self.0 | rhs.0)
    }
}

impl vstd::std_specs::ops::BitOrSpecImpl for Bitboard {
    open spec fn obeys_bitor_spec() -> bool {
        true
    }

    open spec fn bitor_req(self, rhs: Bitboard) -> bool {
        true
    }

    open spec fn bitor_spec(self, rhs: Bitboard) -> Bitboard {
        Bitboard(self.0 | rhs.0)
    }
}

impl core::ops::BitXor for Bitboard {
    type Output = Bitboard;

    fn bitxor(self, rhs: Bitboard) -> (r: Bitboard) {
        Bitboard(self.0 ^ rhs.0)
    }
}

impl vstd::std_specs::ops::BitXorSpecImpl for Bitboard {
    open spec fn obeys_bitxor_spec() -> bool {
        true
    }

    open spec fn bitxor_req(self, rhs: Bitboard) -> bool {
        true
    }

    open spec fn bitxor_spec(self, rhs: Bitboard) -> Bitboard {
        Bitboard(self.0 ^ rhs.0)
    }
}

impl core::ops::Not for Bitboard {
    type Output = Bitboard;

    fn not(self) -> (r: Bitboard) {
        Bitboard(!self.0 & BOARD_MASK)
    }
}

impl vstd::std_specs::ops::NotSpecImpl for Bitboard {
    open spec fn obeys_not_spec() -> bool {
        true
    }

    open spec fn not_req(self) -> bool {
        true
    }

    open spec fn not_spec(self) -> Bitboard {
        Bitboard(!self.0 & BOARD_MASK)
    }
}

impl core::ops::Shl<u8> for Bitboard {
    type Output = Bitboard;

    fn shl(self, rhs: u8) -> (r: Bitboard) {
        Bitboard((self.0 << rhs) & BOARD_MASK)
    }
}

impl vstd::std_specs::ops::ShlSpecImpl<u8> for Bitboard {
    open spec fn obeys_shl_spec() -> bool {
        true
    }

    open spec fn shl_req(self, rhs: u8) -> bool {
        rhs < 128
    }

    open spec fn shl_spec(self, rhs: u8) -> Bitboard {
        Bitboard((self.0 << rhs) & BOARD_MASK)
    }
}

impl core::ops::Shr<u8> for Bitboard {
    type Output = Bitboard;

    fn shr(self, rhs: u8) -> (r: Bitboard) {
        Bitboard(self.0 >> rhs)
    }
}

impl vstd::std_specs::ops::ShrSpecImpl<u8> for Bitboard {
    open spec fn obeys_shr_spec() -> bool {
        true
    }

    open spec fn shr_req(self, rhs: u8) -> bool {
        rhs < 128
    }

    open spec fn shr_spec(self, rhs: u8) -> Bitboard {
        Bitboard(self.0 >> rhs)
    }
}

impl core::ops::BitAnd<Square> for Bitboard {
    type Output = Bitboard;

    fn bitand(self, sq: Square) -> (r: Bitboard) {
        Bitboard(self.0 & (1u128 << (sq as u8)))
    }
}

impl vstd::std_specs::ops::BitAndSpecImpl<Square> for Bitboard {
    open spec fn obeys_bitand_spec() -> bool {
        true
    }

    open spec fn bitand_req(self, sq: Square) -> bool {
        true
    }

    open spec fn bitand_spec(self, sq: Square) -> Bitboard {
        Bitboard(self.0 & (1u128 << (sq as u8)))
    }
}

impl core::ops::BitOr<Square> for Bitboard {
    type Output = Bitboard;

    fn bitor(self, sq: Square) -> (r: Bitboard) {
        Bitboard(self.0 | (1u128 << (sq as u8)))
    }
}

impl vstd::std_specs::ops::BitOrSpecImpl<Square> for Bitboard {
    open spec fn obeys_bitor_spec() -> bool {
        true
    }

    open spec fn bitor_req(self, sq: Square) -> bool {
        true
    }

    open spec fn bitor_spec(self, sq: Square) -> Bitboard {
        Bitboard(self.0 | (1u128 << (sq as u8)))
    }
}

impl core::ops::BitXor<Square> for Bitboard {
    type Output = Bitboard;

    fn bitxor(self, sq: Square) -> (r: Bitboard) {
        Bitboard(self.0 ^ (1u128 << (sq as u8)))
    }
}

impl vstd::std_specs::ops::BitXorSpecImpl<Square> for Bitboard {
    open spec fn obeys_bitxor_spec() -> bool {
        true
    }

    open spec fn bitxor_req(self, sq: Square) -> bool {
        true
    }

    open spec fn bitxor_spec(self, sq: Square) -> Bitboard {
        Bitboard(self.0 ^ (1u128 << (sq as u8)))
    }
}

impl core::ops::BitOr for Square {
    type Output = Bitboard;

    fn bitor(self, rhs: Square) -> (r: Bitboard) {
        Bitboard((1u128 << (self as u8)) | (1u128 << (rhs as u8)))
    }
}

impl vstd::std_specs::ops::BitOrSpecImpl for Square {
    open spec fn obeys_bitor_spec() -> bool {
        true
    }

    open spec fn bitor_req(self, rhs: Square) -> bool {
        true
    }

    open spec fn bitor_spec(self, rhs: Square) -> Bitboard {
        Bitboard((1u128 << (self as u8)) | (1u128 << (rhs as u8)))
    }
}

impl From<Square> for Bitboard {
    fn from(sq: Square) -> (b: Bitboard) {
        Bitboard(1u128 << (sq as u8))
    }
}

impl vstd::std_specs::convert::FromSpecImpl<Square> for Bitboard {
    open spec fn obeys_from_spec() -> bool {
        true
    }

    open spec fn from_spec(sq: Square) -> Bitboard {
        Bitboard(1u128 << (sq as u8))
    }
}

/// The line between ranks of the text drawing: `+---` nine times, `+`.
pub open spec fn rule_line() -> Seq<char> {
    Seq::new(38, |i: int| if i == 37 {
        '\n'
    } else if i % 4 == 0 {
        '+'
    } else {
        '-'
    })
}

/// The file letters under the drawing.
pub open spec fn file_line() -> Seq<char> {
    Seq::new(36, |i: int| if i == 35 {
        '\n'
    } else if i % 4 == 2 {
        (97 + i / 4) as char
    } else {
        ' '
    })
}

/// The first `f` cells of rank `r`: `| X ` on a square of `b`, `|   `
/// elsewhere.
pub open spec fn rank_cells(b: Bitboard, r: int, f: nat) -> Seq<char>
    decreases f,
{
    if f == 0 {
        Seq::empty()
    } else {
        rank_cells(b, r, (f - 1) as nat) + seq!['|', ' ', if b.has(r * 9 + f - 1) {
            'X'
        } else {
            ' '
        }, ' ']
    }
}

/// The ranks from 9 down to `10 - k`, each with its cells, its number and
/// the line under it.
pub open spec fn rank_lines(b: Bitboard, k: nat) -> Seq<char>
    decreases k,
{
    if k == 0 {
        Seq::empty()
    } else {
        let r = 10 - k;
        rank_lines(b, (k - 1) as nat) + rank_cells(b, r, 9) + seq!['|', ' ', (48 + r) as char, '\n']
            + rule_line()
    }
}

/// The drawing of `b`: the board from rank 9 down to rank 0, an `X` on each
/// of its squares, and the file letters.
pub open spec fn board_drawing(b: Bitboard) -> Seq<char> {
    rule_line() + rank_lines(b, 10) + file_line()
}

/// Appends the line between ranks.
fn push_rule_line(s: &mut String)
    ensures
        final(s)@ == old(s)@ + rule_line(),
{
    let mut i: usize = 0;
    while i < 38
        invariant
            i <= 38,
            s@ == old(s)@ + rule_line().subrange(0, i as int),
        decreases 38 - i,
    {
        let c = if i == 37 {
            '\n'
        } else if i % 4 == 0 {
            '+'
        } else {
            '-'
        };
        push_char(s, c);
        proof {
            assert(rule_line().subrange(0, i + 1) =~= rule_line().subrange(0, i as int).push(c));
        }
        i = i + 1;
    }
    proof {
        assert(rule_line().subrange(0, 38) =~= rule_line());
    }
}

impl Bitboard {
    /// The board drawn as text, an `X` on each square of the set.
    pub fn to_text(&self) -> (s: String)
        ensures
            s@ == board_drawing(*self),
    {
        let mut s = String::new();
        push_rule_line(&mut s);
        let mut k: usize = 0;
        while k < 10
            invariant
                k <= 10,
                s@ == rule_line() + rank_lines(*self, k as nat),
            decreases 10 - k,
        {
            let r = 9 - k;
            let ghost before = s@;
            let mut f: usize = 0;
            while f < 9
                invariant
                    f <= 9,
                    r == 9 - k,
                    k < 10,
                    s@ == before + rank_cells(*self, r as int, f as nat),
                decreases 9 - f,
            {
                let sq = Square::from_raw_unchecked((r * 9 + f) as u8);
                let mark = if self.contains(sq) {
                    'X'
                } else {
                    ' '
                };
                push_char(&mut s, '|');
                push_char(&mut s, ' ');
                push_char(&mut s, mark);
                push_char(&mut s, ' ');
                proof {
                    assert(rank_cells(*self, r as int, (f + 1) as nat) =~= rank_cells(*self, r as int, f as nat) + seq!['|', ' ', mark, ' ']);
                }
                f = f + 1;
            }
            push_char(&mut s, '|');
            push_char(&mut s, ' ');
            push_char(&mut s, ((48 + r) as u8) as char);
            push_char(&mut s, '\n');
            push_rule_line(&mut s);
            proof {
                assert(s@ =~= rule_line() + rank_lines(*self, (k + 1) as nat));
            }
            k = k + 1;
        }
        let mut i: usize = 0;
        let ghost body = s@;
        while i < 36
            invariant
                i <= 36,
                s@ == body + file_line().subrange(0, i as int),
            decreases 36 - i,
        {
            let c = if i == 35 {
                '\n'
            } else if i % 4 == 2 {
                ((97 + i / 4) as u8) as char
            } else {
                ' '
            };
            push_char(&mut s, c);
            proof {
                assert(file_line().subrange(0, i + 1) =~= file_line().subrange(0, i as int).push(c));
            }
            i = i + 1;
        }
        proof {
            assert(file_line().subrange(0, 36) =~= file_line());
        }
        s
    }
}

} // verus!
