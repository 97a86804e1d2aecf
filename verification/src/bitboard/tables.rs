//! Rank, file, palace and half-board masks, board distances and shifts.

use vstd::prelude::*;

use super::bitboard::{
    BOARD_MASK, Bitboard, bit, group_bits, lemma_bit_shl, lemma_board_bits, lemma_board_word,
};
use crate::types::{Color, Direction, Square, file_of, on_board, rank_of, square_at};

verus! {

pub const FILE_NB: u8 = 9;

/// Rank 0 (a0..i0).
pub const RANK_0_BITS: u128 = 0x1ff;

/// File a (a0..a9).
pub const FILE_A_BITS: u128 = 0x201008040201008040201;

/// The two palaces: files d..f on ranks 0..2 and 7..9.
pub const PALACE_BITS: u128 = 0x70381c0000000000e07038;

/// Ranks 0..4, the white half.
pub const WHITE_HALF_BITS: u128 = 0x1fffffffffff;

/// Ranks 5..9, the black half.
pub const BLACK_HALF_BITS: u128 = 0x3ffffffffffe00000000000;

/// Where a white pawn can stand: the black half, and files a, c, e, g, i on
/// ranks 3 and 4.
pub const WHITE_PAWN_BITS: u128 = 0x3fffffffffff55aa8000000;

/// Where a black pawn can stand: the white half, and files a, c, e, g, i on
/// ranks 5 and 6.
pub const BLACK_PAWN_BITS: u128 = 0x556abfffffffffff;

pub open spec fn in_palace(s: int) -> bool {
    on_board(s) && 3 <= file_of(s) <= 5 && (rank_of(s) <= 2 || rank_of(s) >= 7)
}

/// `s` lies in the half of the board where `c` starts.
pub open spec fn in_half(c: Color, s: int) -> bool {
    on_board(s) && if c == Color::White {
        rank_of(s) <= 4
    } else {
        rank_of(s) >= 5
    }
}

/// `s` is a square a pawn of color `c` can ever stand on.
pub open spec fn in_pawn_zone(c: Color, s: int) -> bool {
    on_board(s) && if c == Color::White {
        rank_of(s) >= 5 || ((rank_of(s) == 3 || rank_of(s) == 4) && file_of(s) % 2 == 0)
    } else {
        rank_of(s) <= 4 || ((rank_of(s) == 5 || rank_of(s) == 6) && file_of(s) % 2 == 0)
    }
}

pub open spec fn abs_diff(a: int, b: int) -> int {
    if a >= b {
        a - b
    } else {
        b - a
    }
}

pub open spec fn file_dist(a: int, b: int) -> int {
    abs_diff(file_of(a), file_of(b))
}

pub open spec fn rank_dist(a: int, b: int) -> int {
    abs_diff(rank_of(a), rank_of(b))
}

/// King-move (Chebyshev) distance between two squares.
pub open spec fn sq_dist(a: int, b: int) -> int {
    if file_dist(a, b) > rank_dist(a, b) {
        file_dist(a, b)
    } else {
        rank_dist(a, b)
    }
}

/// The bits of the board constants, at position `j`.
proof fn bv_tables(j: u128)
    by (bit_vector)
    requires
        j < 128,
    ensures
        (((0x1ffu128) >> j) & 1u128 == 1u128) == (j < 9),
        ((((0x201008040201008040201u128) >> j) & 1u128 == 1u128) == (j < 90 && j % 9 == 0)),
        ((((0x70381c0000000000e07038u128) >> j) & 1u128 == 1u128) == (j < 90 && 3 <= j % 9 && j
            % 9 <= 5 && (j / 9 <= 2 || j / 9 >= 7))),
        ((((0x1fffffffffffu128) >> j) & 1u128 == 1u128) == (j < 45)),
        ((((0x3ffffffffffe00000000000u128) >> j) & 1u128 == 1u128) == (45 <= j && j < 90)),
        ((((0x3fffffffffff55aa8000000u128) >> j) & 1u128 == 1u128) == (j < 90 && (j >= 45 || (27
            <= j && j < 45 && (j % 9) % 2 == 0)))),
        ((((0x556abfffffffffffu128) >> j) & 1u128 == 1u128) == (j < 45 || (45 <= j && j < 63 && (j
            % 9) % 2 == 0))),
{
}

proof fn lemma_rank0_bits(i: int)
    ensures
        bit(RANK_0_BITS, i) == (0 <= i < 9),
{
    if 0 <= i < 128 {
        bv_tables(i as u128);
    }
}

proof fn lemma_file_a_bits(i: int)
    ensures
        bit(FILE_A_BITS, i) == (on_board(i) && file_of(i) == 0),
{
    if 0 <= i < 128 {
        bv_tables(i as u128);
    }
}

proof fn lemma_palace_bits(i: int)
    ensures
        bit(PALACE_BITS, i) == in_palace(i),
{
    if 0 <= i < 128 {
        bv_tables(i as u128);
    }
}

proof fn lemma_half_bits(i: int)
    ensures
        bit(WHITE_HALF_BITS, i) == in_half(Color::White, i),
        bit(BLACK_HALF_BITS, i) == in_half(Color::Black, i),
{
    if 0 <= i < 128 {
        bv_tables(i as u128);
    }
}

proof fn lemma_pawn_bits(i: int)
    ensures
        bit(WHITE_PAWN_BITS, i) == in_pawn_zone(Color::White, i),
        bit(BLACK_PAWN_BITS, i) == in_pawn_zone(Color::Black, i),
{
    if 0 <= i < 128 {
        bv_tables(i as u128);
    }
}

/// The nine squares of rank `r`.
pub fn rank_bb(r: u8) -> (b: Bitboard)
    requires
        r < 10,
    ensures
        forall|s: int| #[trigger] b.has(s) == (on_board(s) && rank_of(s) == r),
        b.wf(),
{
    let k = (r as u128) * 9;
    proof {
        assert forall|s: int| #[trigger] bit(RANK_0_BITS << k, s) == (on_board(s) && rank_of(s)
            == r) by {
            lemma_bit_shl(RANK_0_BITS, k, s);
            lemma_rank0_bits(s - k);
        }
        lemma_board_word(RANK_0_BITS << k);
    }
    Bitboard(RANK_0_BITS << k)
}

/// The ten squares of file `f`.
pub fn file_bb(f: u8) -> (b: Bitboard)
    requires
        f < 9,
    ensures
        forall|s: int| #[trigger] b.has(s) == (on_board(s) && file_of(s) == f),
        b.wf(),
{
    let k = f as u128;
    proof {
        assert forall|s: int| #[trigger] bit(FILE_A_BITS << k, s) == (on_board(s) && file_of(s)
            == f) by {
            lemma_bit_shl(FILE_A_BITS, k, s);
            lemma_file_a_bits(s - k);
        }
        lemma_board_word(FILE_A_BITS << k);
    }
    Bitboard(FILE_A_BITS << k)
}

/// The eighteen palace squares.
pub fn palace() -> (b: Bitboard)
    ensures
        forall|s: int| #[trigger] b.has(s) == in_palace(s),
        b.wf(),
{
    proof {
        assert forall|s: int| #[trigger] bit(PALACE_BITS, s) == in_palace(s) by {
            lemma_palace_bits(s);
        }
        lemma_board_word(PALACE_BITS);
    }
    Bitboard(PALACE_BITS)
}

/// The half of the board where `c` starts.
pub fn half_bb(c: Color) -> (b: Bitboard)
    ensures
        forall|s: int| #[trigger] b.has(s) == in_half(c, s),
        b.wf(),
{
    proof {
        assert forall|s: int| #[trigger] bit(WHITE_HALF_BITS, s) == in_half(Color::White, s) by {
            lemma_half_bits(s);
        }
        assert forall|s: int| #[trigger] bit(BLACK_HALF_BITS, s) == in_half(Color::Black, s) by {
            lemma_half_bits(s);
        }
        lemma_board_word(WHITE_HALF_BITS);
        lemma_board_word(BLACK_HALF_BITS);
    }
    match c {
        Color::White => Bitboard(WHITE_HALF_BITS),
        Color::Black => Bitboard(BLACK_HALF_BITS),
    }
}

/// The squares a pawn of color `c` can stand on.
pub fn pawn_bb(c: Color) -> (b: Bitboard)
    ensures
        forall|s: int| #[trigger] b.has(s) == in_pawn_zone(c, s),
        b.wf(),
{
    proof {
        assert forall|s: int| #[trigger] bit(WHITE_PAWN_BITS, s) == in_pawn_zone(Color::White, s)
            by {
            lemma_pawn_bits(s);
        }
        assert forall|s: int| #[trigger] bit(BLACK_PAWN_BITS, s) == in_pawn_zone(Color::Black, s)
            by {
            lemma_pawn_bits(s);
        }
        lemma_board_word(WHITE_PAWN_BITS);
        lemma_board_word(BLACK_PAWN_BITS);
    }
    match c {
        Color::White => Bitboard(WHITE_PAWN_BITS),
        Color::Black => Bitboard(BLACK_PAWN_BITS),
    }
}

/// `{sq}`.
pub fn square_bb(sq: Square) -> (b: Bitboard)
    requires
        sq.valid(),
    ensures
        b@ == set![sq.id()],
        forall|t: int| #[trigger] b.has(t) == (t == sq.id()),
        b.wf(),
{
    Bitboard::from_square(sq)
}

/// The rank through `sq`.
pub fn rank_bb_of(sq: Square) -> (b: Bitboard)
    requires
        sq.valid(),
    ensures
        forall|s: int| #[trigger] b.has(s) == (on_board(s) && rank_of(s) == rank_of(sq.id())),
        b.wf(),
{
    rank_bb(sq.raw() / 9)
}

/// The file through `sq`.
pub fn file_bb_of(sq: Square) -> (b: Bitboard)
    requires
        sq.valid(),
    ensures
        forall|s: int| #[trigger] b.has(s) == (on_board(s) && file_of(s) == file_of(sq.id())),
        b.wf(),
{
    file_bb(sq.raw() % 9)
}

/// Number of files between the squares.
pub fn file_distance(s1: Square, s2: Square) -> (d: u8)
    requires
        s1.valid(),
        s2.valid(),
    ensures
        d == file_dist(s1.id(), s2.id()),
{
    let f1 = s1.raw() % 9;
    let f2 = s2.raw() % 9;
    if f1 >= f2 {
        f1 - f2
    } else {
        f2 - f1
    }
}

/// Number of ranks between the squares.
pub fn rank_distance(s1: Square, s2: Square) -> (d: u8)
    requires
        s1.valid(),
        s2.valid(),
    ensures
        d == rank_dist(s1.id(), s2.id()),
{
    let r1 = s1.raw() / 9;
    let r2 = s2.raw() / 9;
    if r1 >= r2 {
        r1 - r2
    } else {
        r2 - r1
    }
}

/// King-move distance: the larger of file and rank distance.
pub fn square_distance(s1: Square, s2: Square) -> (d: u8)
    requires
        s1.valid(),
        s2.valid(),
    ensures
        d == sq_dist(s1.id(), s2.id()),
{
    let df = file_distance(s1, s2);
    let dr = rank_distance(s1, s2);
    if df > dr {
        df
    } else {
        dr
    }
}

/// The board coordinates of a square-number step that `shift` supports:
/// (file step, rank step).
pub open spec fn shift_delta(d: int) -> Option<(int, int)> {
    if d == 9 {
        Some((0, 1))
    } else if d == -9 {
        Some((0, -1))
    } else if d == 18 {
        Some((0, 2))
    } else if d == -18 {
        Some((0, -2))
    } else if d == 1 {
        Some((1, 0))
    } else if d == -1 {
        Some((-1, 0))
    } else if d == 10 {
        Some((1, 1))
    } else if d == 8 {
        Some((-1, 1))
    } else if d == -8 {
        Some((1, -1))
    } else if d == -10 {
        Some((-1, -1))
    } else {
        None
    }
}

/// `t` is the image of a square of `b` under the board step `(df, dr)`.
pub open spec fn shifted_has(b: Bitboard, df: int, dr: int, t: int) -> bool {
    &&& on_board(t)
    &&& 0 <= file_of(t) - df < 9
    &&& 0 <= rank_of(t) - dr < 10
    &&& b.has(square_at(file_of(t) - df, rank_of(t) - dr))
}

/// Moves every square of `b` one step `d`; squares that would leave the
/// board are dropped. The steps supported are one or two ranks north or
/// south, one file east or west, and the four diagonal steps; any other step
/// gives the empty set. The north-east and north-west steps keep bits that
/// leave the board northwards above bit 89, as the raw word shows.
pub fn shift(d: Direction, b: Bitboard) -> (r: Bitboard)
    requires
        b.wf(),
    ensures
        d.0 == 9 ==> r.0 == (b.0 & !(RANK_0_BITS << 81u128)) << 9u128,
        d.0 == -9 ==> r.0 == b.0 >> 9u128,
        d.0 == 18 ==> r.0 == (b.0 & !(RANK_0_BITS << 81u128) & !(RANK_0_BITS << 72u128)) << 18u128,
        d.0 == -18 ==> r.0 == b.0 >> 18u128,
        d.0 == 1 ==> r.0 == (b.0 & !(FILE_A_BITS << 8u128)) << 1u128,
        d.0 == -1 ==> r.0 == (b.0 & !FILE_A_BITS) >> 1u128,
        d.0 == 10 ==> r.0 == (b.0 & !(FILE_A_BITS << 8u128)) << 10u128,
        d.0 == 8 ==> r.0 == (b.0 & !FILE_A_BITS) << 8u128,
        d.0 == -8 ==> r.0 == (b.0 & !(FILE_A_BITS << 8u128)) >> 8u128,
        d.0 == -10 ==> r.0 == (b.0 & !FILE_A_BITS) >> 10u128,
        shift_delta(d.0 as int) is None ==> r.0 == 0,
        shift_delta(d.0 as int) matches Some((df, dr)) ==> forall|t: int|
            on_board(t) ==> (#[trigger] r.has(t) == shifted_has(b, df, dr, t)),
{
    let x = b.0;
    let rank9 = RANK_0_BITS << 81u128;
    let rank8 = RANK_0_BITS << 72u128;
    let file_i = FILE_A_BITS << 8u128;
    let file_a = FILE_A_BITS;
    let raw = d.raw();
    proof {
        broadcast use group_bits;

        assert forall|i: int| #[trigger] bit(rank9, i) == (on_board(i) && rank_of(i) == 9) by {
            lemma_rank0_bits(i - 81);
        }
        assert forall|i: int| #[trigger] bit(rank8, i) == (on_board(i) && rank_of(i) == 8) by {
            lemma_rank0_bits(i - 72);
        }
        assert forall|i: int| #[trigger] bit(file_i, i) == (on_board(i) && file_of(i) == 8) by {
            lemma_file_a_bits(i - 8);
        }
        assert forall|i: int| #[trigger] bit(file_a, i) == (on_board(i) && file_of(i) == 0) by {
            lemma_file_a_bits(i);
        }
        assert forall|i: int| #[trigger] bit(x, i) implies on_board(i) by {
            lemma_board_bits(x, i);
        }
    }
    if raw == 9 {
        Bitboard((x & !rank9) << 9u128)
    } else if raw == -9 {
        Bitboard(x >> 9u128)
    } else if raw == 18 {
        Bitboard((x & !rank9 & !rank8) << 18u128)
    } else if raw == -18 {
        Bitboard(x >> 18u128)
    } else if raw == 1 {
        Bitboard((x & !file_i) << 1u128)
    } else if raw == -1 {
        Bitboard((x & !file_a) >> 1u128)
    } else if raw == 10 {
        Bitboard((x & !file_i) << 10u128)
    } else if raw == 8 {
        Bitboard((x & !file_a) << 8u128)
    } else if raw == -8 {
        Bitboard((x & !file_i) >> 8u128)
    } else if raw == -10 {
        Bitboard((x & !file_a) >> 10u128)
    } else {
        Bitboard(0)
    }
}

/// `{s + step}` when that square is on the board within two king moves of
/// `s` (so the step does not wrap around an edge), else empty.
pub fn safe_destination(s: Square, step: i8) -> (b: Bitboard)
    requires
        s.valid(),
    ensures
        forall|t: int| #[trigger] b.has(t) == (t == s.id() + step && on_board(t) && sq_dist(
            s.id(),
            t,
        ) <= 2),
        b.wf(),
{
    let to_raw: i16 = s.raw() as i16 + step as i16;
    if to_raw < 0 || to_raw >= 90 {
        return Bitboard::empty();
    }
    let to = Square::from_raw_unchecked(to_raw as u8);
    if square_distance(s, to) <= 2 {
        square_bb(to)
    } else {
        Bitboard::empty()
    }
}

} // verus!
