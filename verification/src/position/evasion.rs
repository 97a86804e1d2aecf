//! Why the evasion generator misses no legal move: the geometry of a check
//! by a single piece, and what a move must do to end it.

use vstd::prelude::*;

use crate::bitboard::attacks::{
    cannon_attack_has, cannon_ray_has, knight_attack_has, knight_leap_has, knight_to_attack_has,
    knight_to_leap_has, lame_path_has, lemma_lame_block_leap, no_pieces, orth_aligned, orth_dir,
    ray_empty, ray_ok, ray_sq, rook_attack_has, rook_ray_has, steps,
};
use crate::bitboard::attacks::{advisor_step, bishop_attack_has, king_step, pawn_attack_has};
use crate::bitboard::bitboard::{Bitboard, group_bits, lemma_board_bits, lemma_sq_set, sq_set};
use crate::bitboard::lines::{between_has, on_line};
use crate::bitboard::tables::{in_half, in_palace};
use super::legality::piece_checks;
use super::movegen::GenType;
use super::position::Position;
use crate::types::{Color, Move, Piece, PieceType, file_of, make_piece, on_board, rank_of, square_at};

verus! {

/// `t` lies strictly between `a` and `b` on the file or rank they share.
pub open spec fn strictly_between(a: int, b: int, t: int) -> bool {
    orth_aligned(a, b) && rook_attack_has(a, sq_set(b), t) && rook_attack_has(b, sq_set(a), t)
}

/// Zero steps along a ray stay on the start.
proof fn lemma_ray_zero(s: int, df: int, dr: int)
    requires
        on_board(s),
    ensures
        ray_ok(s, df, dr, 0),
        ray_sq(s, df, dr, 0) == s,
{
}

/// Squares at different distances along a ray differ.
proof fn lemma_ray_inj(s: int, df: int, dr: int, i: int, j: int)
    requires
        orth_dir(df, dr),
        i != j,
        ray_ok(s, df, dr, i),
        ray_ok(s, df, dr, j),
    ensures
        ray_sq(s, df, dr, i) != ray_sq(s, df, dr, j),
{
}

/// Walking back from the square `k` steps along a ray retraces it.
proof fn lemma_ray_back(s: int, df: int, dr: int, k: int, j: int)
    requires
        on_board(s),
        orth_dir(df, dr),
        0 <= j <= k,
        ray_ok(s, df, dr, k),
    ensures
        on_board(ray_sq(s, df, dr, k)),
        ray_ok(ray_sq(s, df, dr, k), -df, -dr, j),
        ray_sq(ray_sq(s, df, dr, k), -df, -dr, j) == ray_sq(s, df, dr, k - j),
{
}

/// Walking on from the square `a` steps along a ray continues it.
proof fn lemma_ray_on(s: int, df: int, dr: int, a: int, b: int)
    requires
        on_board(s),
        orth_dir(df, dr),
        0 <= a,
        0 <= b,
        ray_ok(s, df, dr, a + b),
    ensures
        ray_ok(s, df, dr, a),
        ray_ok(ray_sq(s, df, dr, a), df, dr, b),
        ray_sq(ray_sq(s, df, dr, a), df, dr, b) == ray_sq(s, df, dr, a + b),
{
}

/// A square before the `k`-th along a ray lies strictly between the start
/// and that square.
proof fn lemma_on_ray_between(s: int, df: int, dr: int, k: int, i: int)
    requires
        on_board(s),
        orth_dir(df, dr),
        1 <= i < k,
        ray_ok(s, df, dr, k),
    ensures
        strictly_between(s, ray_sq(s, df, dr, k), ray_sq(s, df, dr, i)),
{
    let c = ray_sq(s, df, dr, k);
    let t = ray_sq(s, df, dr, i);
    lemma_ray_zero(s, df, dr);
    lemma_ray_inj(s, df, dr, 0, k);
    assert(ray_ok(s, df, dr, i));
    assert forall|j: int| 1 <= j < i implies !#[trigger] sq_set(c).has(ray_sq(s, df, dr, j)) by {
        lemma_sq_set(c, ray_sq(s, df, dr, j));
        lemma_ray_inj(s, df, dr, j, k);
    }
    assert(rook_ray_has(s, sq_set(c), df, dr, t));
    lemma_ray_back(s, df, dr, k, k - i);
    assert forall|j: int| 1 <= j < k - i implies !#[trigger] sq_set(s).has(ray_sq(c, -df, -dr, j)) by {
        lemma_ray_back(s, df, dr, k, j);
        lemma_sq_set(s, ray_sq(c, -df, -dr, j));
        lemma_ray_inj(s, df, dr, k - j, 0);
    }
    assert(rook_ray_has(c, sq_set(s), -df, -dr, t));
}

/// The four rook rays are the orthogonal directions.
proof fn lemma_rook_dirs(s: int, occ: Bitboard, df: int, dr: int, t: int)
    requires
        orth_dir(df, dr),
        rook_ray_has(s, occ, df, dr, t),
    ensures
        rook_attack_has(s, occ, t),
{
}

/// A rook line that a move closes: when the rook on `c` reaches `k` before
/// the move and not after, and the move adds no piece but on `to`, then
/// `to` lies strictly between them.
pub proof fn lemma_rook_line_closed(k: int, c: int, occ: Bitboard, occ2: Bitboard, to: int)
    requires
        on_board(k),
        rook_attack_has(k, occ, c),
        !rook_attack_has(k, occ2, c),
        forall|x: int| #[trigger] occ2.has(x) ==> occ.has(x) || x == to,
    ensures
        strictly_between(k, c, to),
{
    let (df, dr) = if rook_ray_has(k, occ, 0, 1, c) {
        (0int, 1int)
    } else if rook_ray_has(k, occ, 0, -1, c) {
        (0int, -1int)
    } else if rook_ray_has(k, occ, 1, 0, c) {
        (1int, 0int)
    } else {
        (-1int, 0int)
    };
    assert(rook_ray_has(k, occ, df, dr, c));
    let kk = choose|kk: int|
        1 <= kk && ray_ok(k, df, dr, kk) && c == #[trigger] ray_sq(k, df, dr, kk) && ray_empty(
            k,
            df,
            dr,
            1,
            kk,
            occ,
        );
    assert(!rook_ray_has(k, occ2, df, dr, c));
    assert(!ray_empty(k, df, dr, 1, kk, occ2));
    let i = choose|i: int| 1 <= i < kk && #[trigger] occ2.has(ray_sq(k, df, dr, i));
    assert(!occ.has(ray_sq(k, df, dr, i)));
    lemma_on_ray_between(k, df, dr, kk, i);
}

/// The direction of one of the rook rays from `s` that reach `t`.
proof fn rook_dir(s: int, occ: Bitboard, t: int) -> (d: (int, int))
    requires
        rook_attack_has(s, occ, t),
    ensures
        orth_dir(d.0, d.1),
        rook_ray_has(s, occ, d.0, d.1, t),
{
    if rook_ray_has(s, occ, 0, 1, t) {
        (0int, 1int)
    } else if rook_ray_has(s, occ, 0, -1, t) {
        (0int, -1int)
    } else if rook_ray_has(s, occ, 1, 0, t) {
        (1int, 0int)
    } else {
        (-1int, 0int)
    }
}

/// The direction of one of the cannon rays from `s` that reach `t`.
proof fn cannon_dir(s: int, occ: Bitboard, t: int) -> (d: (int, int))
    requires
        cannon_attack_has(s, occ, t),
    ensures
        orth_dir(d.0, d.1),
        cannon_ray_has(s, occ, d.0, d.1, t),
{
    if cannon_ray_has(s, occ, 0, 1, t) {
        (0int, 1int)
    } else if cannon_ray_has(s, occ, 0, -1, t) {
        (0int, -1int)
    } else if cannon_ray_has(s, occ, 1, 0, t) {
        (1int, 0int)
    } else {
        (-1int, 0int)
    }
}

/// The file and rank of the `k`-th square along a ray.
proof fn lemma_ray_coords(s: int, df: int, dr: int, k: int)
    requires
        ray_ok(s, df, dr, k),
    ensures
        on_board(ray_sq(s, df, dr, k)),
        file_of(ray_sq(s, df, dr, k)) == file_of(s) + steps(df, k),
        rank_of(ray_sq(s, df, dr, k)) == rank_of(s) + steps(dr, k),
{
}

/// Leaving `s` along one direction and arriving from `c`, which lies along
/// another, is possible only opposite to `c`, from beyond `s`.
#[verifier::spinoff_prover]
proof fn lemma_other_dir(s: int, df: int, dr: int, k: int, ef: int, er: int, a: int, gf: int, gr: int, b: int)
    requires
        on_board(s),
        orth_dir(df, dr),
        orth_dir(ef, er),
        orth_dir(gf, gr),
        !(ef == df && er == dr),
        1 <= k,
        1 <= a,
        1 <= b,
        ray_ok(s, df, dr, k),
        ray_ok(s, ef, er, a),
        ray_ok(ray_sq(s, df, dr, k), gf, gr, b),
        ray_sq(s, ef, er, a) == ray_sq(ray_sq(s, df, dr, k), gf, gr, b),
    ensures
        ef == -df && er == -dr && gf == -df && gr == -dr && b == a + k,
{
    lemma_ray_coords(s, df, dr, k);
    lemma_ray_coords(s, ef, er, a);
    lemma_ray_coords(ray_sq(s, df, dr, k), gf, gr, b);
}

/// A square strictly between the start of a ray and its `k`-th square is
/// one of the squares before it.
proof fn lemma_between_on_ray(s: int, df: int, dr: int, k: int, x: int) -> (i: int)
    requires
        on_board(s),
        orth_dir(df, dr),
        1 <= k,
        ray_ok(s, df, dr, k),
        strictly_between(s, ray_sq(s, df, dr, k), x),
    ensures
        1 <= i < k,
        x == ray_sq(s, df, dr, i),
{
    let c = ray_sq(s, df, dr, k);
    let d1 = rook_dir(s, sq_set(c), x);
    let a = choose|a: int|
        1 <= a && ray_ok(s, d1.0, d1.1, a) && x == #[trigger] ray_sq(s, d1.0, d1.1, a) && ray_empty(
            s,
            d1.0,
            d1.1,
            1,
            a,
            sq_set(c),
        );
    let d2 = rook_dir(c, sq_set(s), x);
    let b = choose|b: int|
        1 <= b && ray_ok(c, d2.0, d2.1, b) && x == #[trigger] ray_sq(c, d2.0, d2.1, b) && ray_empty(
            c,
            d2.0,
            d2.1,
            1,
            b,
            sq_set(s),
        );
    lemma_ray_back(s, df, dr, k, 0);
    if d1.0 == df && d1.1 == dr {
        if a >= k {
            if a == k {
                lemma_ray_zero(c, d2.0, d2.1);
                lemma_ray_inj(c, d2.0, d2.1, 0, b);
            } else {
                assert(!sq_set(c).has(ray_sq(s, df, dr, k)));
                lemma_sq_set(c, c);
            }
        }
        a
    } else {
        lemma_other_dir(s, df, dr, k, d1.0, d1.1, a, d2.0, d2.1, b);
        lemma_ray_back(s, df, dr, k, k);
        lemma_ray_zero(s, df, dr);
        assert(!sq_set(s).has(ray_sq(c, d2.0, d2.1, k)));
        lemma_sq_set(s, s);
        0
    }
}

/// A cannon line that a move opens: when the cannon on `c` reaches `k`
/// before the move and not after, and the move empties `from` and fills
/// `to` (not `c`), then either `to` lies strictly between them, or `from`
/// was the screen, the one occupied square strictly between them.
pub proof fn lemma_cannon_line_opened(k: int, c: int, occ: Bitboard, occ2: Bitboard, from: int, to: int)
    requires
        on_board(k),
        cannon_attack_has(k, occ, c),
        !cannon_attack_has(k, occ2, c),
        forall|x: int| #[trigger] occ2.has(x) == ((occ.has(x) && x != from) || x == to),
        to != c,
    ensures
        strictly_between(k, c, to) || (strictly_between(k, c, from) && occ.has(from) && forall|x: int|
            strictly_between(k, c, x) && #[trigger] occ.has(x) ==> x == from),
{
    let d = cannon_dir(k, occ, c);
    let (df, dr) = d;
    let (h, kk) = choose|h: int, kk: int|
        #![trigger ray_sq(k, df, dr, h), ray_sq(k, df, dr, kk)]
        1 <= h < kk && ray_ok(k, df, dr, kk) && c == ray_sq(k, df, dr, kk) && occ.has(
            ray_sq(k, df, dr, h),
        ) && ray_empty(k, df, dr, 1, h, occ) && ray_empty(k, df, dr, h + 1, kk, occ);
    if exists|i: int| 1 <= i < kk && to == ray_sq(k, df, dr, i) {
        let i = choose|i: int| 1 <= i < kk && to == ray_sq(k, df, dr, i);
        lemma_on_ray_between(k, df, dr, kk, i);
    } else {
        if from != ray_sq(k, df, dr, h) {
            assert(occ2.has(ray_sq(k, df, dr, h)));
            assert(ray_empty(k, df, dr, 1, h, occ2));
            assert(ray_empty(k, df, dr, h + 1, kk, occ2));
            assert(cannon_ray_has(k, occ2, df, dr, c));
            assert(false);
        }
        lemma_on_ray_between(k, df, dr, kk, h);
        assert forall|x: int| strictly_between(k, c, x) && #[trigger] occ.has(x) implies x == from by {
            let i = lemma_between_on_ray(k, df, dr, kk, x);
            if i < h {
                assert(!occ.has(ray_sq(k, df, dr, i)));
            } else if i > h {
                assert(!occ.has(ray_sq(k, df, dr, i)));
            }
        }
    }
}

/// A knight check that a move ends: the move fills the knight's leg.
pub proof fn lemma_knight_leg_closed(k: int, c: int, occ: Bitboard, occ2: Bitboard, to: int)
    requires
        on_board(k),
        knight_to_attack_has(k, occ, c),
        !knight_to_attack_has(k, occ2, c),
        forall|x: int| #[trigger] occ2.has(x) ==> occ.has(x) || x == to,
    ensures
        between_has(k, c, to),
{
    let (df, dr) = if knight_to_leap_has(k, occ, -1, -2, c) {
        (-1int, -2int)
    } else if knight_to_leap_has(k, occ, 1, -2, c) {
        (1int, -2int)
    } else if knight_to_leap_has(k, occ, -2, -1, c) {
        (-2int, -1int)
    } else if knight_to_leap_has(k, occ, 2, -1, c) {
        (2int, -1int)
    } else if knight_to_leap_has(k, occ, -2, 1, c) {
        (-2int, 1int)
    } else if knight_to_leap_has(k, occ, 2, 1, c) {
        (2int, 1int)
    } else if knight_to_leap_has(k, occ, -1, 2, c) {
        (-1int, 2int)
    } else {
        (1int, 2int)
    };
    assert(knight_to_leap_has(k, occ, df, dr, c));
    assert(!knight_to_leap_has(k, occ2, df, dr, c));
    assert(to == crate::bitboard::attacks::knight_leg(c, -df, -dr));
    lemma_lame_block_leap(k, df, dr);
    lemma_lame_block_leap(c, -df, -dr);
    assert(k - c == (-dr) * 9 + (-df));
    assert(knight_leap_has(k, no_pieces(), df, dr, c)) by {
        crate::bitboard::bitboard::lemma_bit_zero(crate::bitboard::attacks::knight_leg(k, df, dr));
    }
    assert(knight_attack_has(k, no_pieces(), c));
    assert(lame_path_has(c, k - c, to));
}

/// The squares along a ray from the square one step back from `s` are the
/// squares along the ray from `s`, one step later.
proof fn lemma_ray_from_behind(s: int, df: int, dr: int, j: int)
    requires
        on_board(s),
        orth_dir(df, dr),
        1 <= j,
        ray_ok(s, -df, -dr, 1),
        ray_ok(s, df, dr, j - 1),
    ensures
        ray_ok(ray_sq(s, -df, -dr, 1), df, dr, j),
        ray_sq(ray_sq(s, -df, -dr, 1), df, dr, j) == ray_sq(s, df, dr, j - 1),
{
    lemma_ray_coords(s, -df, -dr, 1);
    lemma_ray_coords(s, df, dr, j - 1);
}

/// The king's step along the line of the checking piece on `c`, onto an
/// empty square: the king ends on `to`, which is one step along a ray of `k`.
proof fn lemma_step_on_line(k: int, df: int, dr: int, kk: int, to: int) -> (forward: bool)
    requires
        on_board(k),
        orth_dir(df, dr),
        1 <= kk,
        ray_ok(k, df, dr, kk),
        crate::bitboard::attacks::king_step(k, to),
        crate::bitboard::lines::on_line(ray_sq(k, df, dr, kk), k, to),
    ensures
        forward ==> ray_ok(k, df, dr, 1) && to == ray_sq(k, df, dr, 1),
        !forward ==> ray_ok(k, -df, -dr, 1) && to == ray_sq(k, -df, -dr, 1),
{
    lemma_ray_coords(k, df, dr, kk);
    if ray_ok(k, df, dr, 1) && to == ray_sq(k, df, dr, 1) {
        true
    } else {
        lemma_ray_coords(k, df, dr, 1);
        false
    }
}

/// A king that steps along the line of a checking rook, onto an empty
/// square, is still attacked by it.
#[verifier::spinoff_prover]
pub proof fn lemma_rook_check_follows(k: int, c: int, occ: Bitboard, occ2: Bitboard, to: int)
    requires
        on_board(k),
        rook_attack_has(k, occ, c),
        occ.has(c),
        !occ.has(to),
        crate::bitboard::attacks::king_step(k, to),
        crate::bitboard::lines::on_line(c, k, to),
        forall|x: int| #[trigger] occ2.has(x) == ((occ.has(x) && x != k) || x == to),
    ensures
        rook_attack_has(to, occ2, c),
{
    let (df, dr) = rook_dir(k, occ, c);
    let kk = choose|kk: int|
        1 <= kk && ray_ok(k, df, dr, kk) && c == #[trigger] ray_sq(k, df, dr, kk) && ray_empty(
            k,
            df,
            dr,
            1,
            kk,
            occ,
        );
    lemma_ray_zero(k, df, dr);
    if lemma_step_on_line(k, df, dr, kk, to) {
        if kk == 1 {
            assert(false);
        }
        lemma_ray_on(k, df, dr, 1, kk - 1);
        assert forall|j: int| 1 <= j < kk - 1 implies !#[trigger] occ2.has(ray_sq(to, df, dr, j)) by {
            lemma_ray_on(k, df, dr, 1, j);
            lemma_ray_inj(k, df, dr, 1, 1 + j);
            lemma_ray_inj(k, df, dr, 0, 1 + j);
            assert(!occ.has(ray_sq(k, df, dr, 1 + j)));
        }
        assert(rook_ray_has(to, occ2, df, dr, c));
    } else {
        lemma_ray_from_behind(k, df, dr, kk + 1);
        assert forall|j: int| 1 <= j < kk + 1 implies !#[trigger] occ2.has(ray_sq(to, df, dr, j)) by {
            lemma_ray_from_behind(k, df, dr, j);
            if j >= 2 {
                assert(!occ.has(ray_sq(k, df, dr, j - 1)));
                lemma_ray_coords(k, df, dr, j - 1);
                lemma_ray_coords(k, -df, -dr, 1);
            }
        }
        assert(rook_ray_has(to, occ2, df, dr, c));
    }
    lemma_rook_dirs(to, occ2, df, dr, c);
}

/// A king that steps along the line of a checking cannon, onto an empty
/// square, is still attacked by it.
#[verifier::spinoff_prover]
pub proof fn lemma_cannon_check_follows(k: int, c: int, occ: Bitboard, occ2: Bitboard, to: int)
    requires
        on_board(k),
        cannon_attack_has(k, occ, c),
        !occ.has(to),
        crate::bitboard::attacks::king_step(k, to),
        crate::bitboard::lines::on_line(c, k, to),
        forall|x: int| #[trigger] occ2.has(x) == ((occ.has(x) && x != k) || x == to),
    ensures
        cannon_attack_has(to, occ2, c),
{
    let (df, dr) = cannon_dir(k, occ, c);
    let (h, kk) = choose|h: int, kk: int|
        #![trigger ray_sq(k, df, dr, h), ray_sq(k, df, dr, kk)]
        1 <= h < kk && ray_ok(k, df, dr, kk) && c == ray_sq(k, df, dr, kk) && occ.has(
            ray_sq(k, df, dr, h),
        ) && ray_empty(k, df, dr, 1, h, occ) && ray_empty(k, df, dr, h + 1, kk, occ);
    lemma_ray_zero(k, df, dr);
    if lemma_step_on_line(k, df, dr, kk, to) {
        if h == 1 {
            assert(false);
        }
        lemma_ray_on(k, df, dr, 1, kk - 1);
        lemma_ray_on(k, df, dr, 1, h - 1);
        lemma_ray_inj(k, df, dr, 1, h);
        lemma_ray_inj(k, df, dr, 0, h);
        assert forall|j: int| 1 <= j < kk - 1 && j != h - 1 implies !#[trigger] occ2.has(
            ray_sq(to, df, dr, j),
        ) by {
            lemma_ray_on(k, df, dr, 1, j);
            lemma_ray_inj(k, df, dr, 1, 1 + j);
            lemma_ray_inj(k, df, dr, 0, 1 + j);
            assert(!occ.has(ray_sq(k, df, dr, 1 + j)));
        }
        assert(occ2.has(ray_sq(to, df, dr, h - 1)));
        assert(cannon_ray_has(to, occ2, df, dr, c));
    } else {
        lemma_ray_from_behind(k, df, dr, kk + 1);
        lemma_ray_from_behind(k, df, dr, h + 1);
        lemma_ray_coords(k, df, dr, h);
        lemma_ray_coords(k, -df, -dr, 1);
        assert forall|j: int| 1 <= j < kk + 1 && j != h + 1 implies !#[trigger] occ2.has(
            ray_sq(to, df, dr, j),
        ) by {
            lemma_ray_from_behind(k, df, dr, j);
            if j >= 2 {
                assert(!occ.has(ray_sq(k, df, dr, j - 1)));
                lemma_ray_coords(k, df, dr, j - 1);
            }
        }
        assert(occ2.has(ray_sq(to, df, dr, h + 1)));
        assert(cannon_ray_has(to, occ2, df, dr, c));
    }
}

/// A move from the square `i` steps along the line from `k` to its
/// `kk`-th square `c` (both occupied), sliding `a` steps over empty squares
/// in an orthogonal direction and staying on that line, ends between `k`
/// and `c` or on one of them.
#[verifier::spinoff_prover]
proof fn lemma_slide_on_segment(
    k: int,
    df: int,
    dr: int,
    kk: int,
    i: int,
    occ: Bitboard,
    ef: int,
    er: int,
    a: int,
    to: int,
)
    requires
        on_board(k),
        orth_dir(df, dr),
        1 <= i < kk,
        ray_ok(k, df, dr, kk),
        occ.has(k),
        occ.has(ray_sq(k, df, dr, kk)),
        orth_dir(ef, er),
        1 <= a,
        ray_ok(ray_sq(k, df, dr, i), ef, er, a),
        to == ray_sq(ray_sq(k, df, dr, i), ef, er, a),
        ray_empty(ray_sq(k, df, dr, i), ef, er, 1, a, occ),
        crate::bitboard::lines::on_line(ray_sq(k, df, dr, kk), ray_sq(k, df, dr, i), to),
    ensures
        to == k || to == ray_sq(k, df, dr, kk) || strictly_between(k, ray_sq(k, df, dr, kk), to),
{
    let h = ray_sq(k, df, dr, i);
    let c = ray_sq(k, df, dr, kk);
    lemma_ray_coords(k, df, dr, kk);
    lemma_ray_coords(k, df, dr, i);
    lemma_ray_coords(h, ef, er, a);
    if ef == df && er == dr {
        if i + a > kk {
            lemma_ray_on(k, df, dr, i, kk - i);
            lemma_ray_coords(h, ef, er, kk - i);
            assert(!occ.has(ray_sq(h, ef, er, kk - i)));
            assert(false);
        }
        lemma_ray_on(k, df, dr, i, a);
        if i + a < kk {
            lemma_on_ray_between(k, df, dr, kk, i + a);
        }
    } else if ef == -df && er == -dr {
        if a > i {
            lemma_ray_back(k, df, dr, i, i);
            lemma_ray_zero(k, df, dr);
            assert(!occ.has(ray_sq(h, ef, er, i)));
            assert(false);
        }
        lemma_ray_back(k, df, dr, i, a);
        lemma_ray_zero(k, df, dr);
        if i - a >= 1 {
            lemma_on_ray_between(k, df, dr, kk, i - a);
        }
    } else {
        assert(false);
    }
}

/// A pawn's move is one orthogonal step.
proof fn lemma_pawn_step(c: crate::types::Color, s: int, t: int) -> (e: (int, int))
    requires
        on_board(s),
        crate::bitboard::attacks::pawn_attack_has(c, s, t),
    ensures
        orth_dir(e.0, e.1),
        ray_ok(s, e.0, e.1, 1),
        t == ray_sq(s, e.0, e.1, 1),
{
    if file_of(t) == file_of(s) && rank_of(t) == rank_of(s) + 1 {
        (0int, 1int)
    } else if file_of(t) == file_of(s) && rank_of(t) == rank_of(s) - 1 {
        (0int, -1int)
    } else if file_of(t) == file_of(s) + 1 {
        (1int, 0int)
    } else {
        (-1int, 0int)
    }
}

/// Knights, bishops and advisors change both file and rank.
proof fn lemma_leaper_off_line(s: int, occ: Bitboard, t: int)
    requires
        on_board(s),
        knight_attack_has(s, occ, t) || crate::bitboard::attacks::bishop_attack_has(s, occ, t)
            || crate::bitboard::attacks::advisor_step(s, t),
    ensures
        file_of(t) != file_of(s),
        rank_of(t) != rank_of(s),
{
}

/// `t` holds a piece of `c`.
pub open spec fn holds(pos: &Position, c: Color, t: int) -> bool {
    pos.board[t] != Piece::NONE && pos.board[t].color_of() == c
}

/// Where the screen on `h` of a cannon checking from `c` can go, for its
/// side `us`, leaving the cannon's line: the moves of its type, off the
/// line and not onto a piece of `us`; a cannon also by capturing.
pub open spec fn screen_exit(pos: &Position, us: Color, c: int, h: int, t: int) -> bool {
    let occ = pos.occ();
    let off = !(orth_aligned(c, h) && on_line(c, h, t));
    let own = holds(pos, us, t);
    match pos.board[h].type_of() {
        PieceType::Pawn => pawn_attack_has(us, h, t) && off && !own,
        PieceType::Cannon => (rook_attack_has(h, occ, t) && off && !occ.has(t)) || (cannon_attack_has(
            h,
            occ,
            t,
        ) && holds(pos, us.opp(), t)),
        PieceType::Rook => rook_attack_has(h, occ, t) && off && !own,
        PieceType::Knight => knight_attack_has(h, occ, t) && off && !own,
        PieceType::Bishop => bishop_attack_has(h, occ, t) && in_half(us, t) && off && !own,
        PieceType::Advisor => advisor_step(h, t) && in_palace(t) && off && !own,
        PieceType::King => false,
    }
}

/// Where the king on `k` of `us` can step when checked from `c`: a king
/// step in the palace not onto a piece of `us`, and, against a rook or a
/// cannon, off their line unless capturing.
pub open spec fn king_exit(pos: &Position, us: Color, c: int, k: int, t: int) -> bool {
    let slider = pos.board[c] != Piece::NONE && (pos.board[c].type_of() == PieceType::Rook
        || pos.board[c].type_of() == PieceType::Cannon);
    &&& king_step(k, t)
    &&& in_palace(t)
    &&& !holds(pos, us, t)
    &&& (slider ==> !(orth_aligned(c, k) && on_line(c, k, t)) || holds(pos, us.opp(), t))
}

/// After a move from the occupied `from` to `to`, exactly `from` is
/// emptied and `to` filled.
proof fn lemma_occ_after(pos: &Position, from: int, to: int)
    requires
        pos.wf(),
        0 <= from < 90,
        0 <= to < 90,
        pos.board[from] != Piece::NONE,
    ensures
        forall|x: int| #[trigger] pos.occ_after(from, to).has(x) == ((pos.occ().has(x) && x != from) || x == to),
{
    assert(pos.by_type_bb[0].wf());
    assert(pos.occ().has(from));
    assert forall|x: int| #[trigger] pos.occ_after(from, to).has(x) == ((pos.occ().has(x) && x != from) || x == to) by {
        let o = pos.occ().0;
        crate::bitboard::bitboard::lemma_bit_or(o ^ (1u128 << (from as u128)), 1u128 << (to as u128), x);
        crate::bitboard::bitboard::lemma_bit_xor(o, 1u128 << (from as u128), x);
        crate::bitboard::bitboard::lemma_bit_single(from as u128, x);
        crate::bitboard::bitboard::lemma_bit_single(to as u128, x);
        if 90 <= x < 128 {
            lemma_board_bits(o, x);
        }
    }
}

/// A cannon's target lies on one of its lines, which no knight leap does.
proof fn lemma_cannon_not_knight(k: int, occ: Bitboard, c: int)
    requires
        on_board(k),
        cannon_attack_has(k, occ, c),
    ensures
        !knight_attack_has(k, no_pieces(), c),
{
    let (df, dr) = cannon_dir(k, occ, c);
    let (h, kk) = choose|h: int, kk: int|
        #![trigger ray_sq(k, df, dr, h), ray_sq(k, df, dr, kk)]
        1 <= h < kk && ray_ok(k, df, dr, kk) && c == ray_sq(k, df, dr, kk) && occ.has(
            ray_sq(k, df, dr, h),
        ) && ray_empty(k, df, dr, 1, h, occ) && ray_empty(k, df, dr, h + 1, kk, occ);
    lemma_ray_coords(k, df, dr, kk);
    if knight_attack_has(k, no_pieces(), c) {
        lemma_leaper_off_line(k, no_pieces(), c);
    }
}

/// The king of `c` stands on `king_sq(c)`.
proof fn lemma_own_king(pos: &Position, c: Color)
    requires
        pos.valid(),
    ensures
        0 <= pos.king_sq(c) < 90,
        pos.board[pos.king_sq(c)] == make_piece(c, PieceType::King),
        forall|s: int| 0 <= s < 90 && #[trigger] pos.board[s] == make_piece(c, PieceType::King) ==> s == pos.king_sq(c),
{
    if c == Color::White {
        let w = choose|s: int| 0 <= s < 90 && #[trigger] pos.board[s] == Piece::W_KING;
        assert(pos.board[w] == make_piece(c, PieceType::King));
    } else {
        let b = choose|s: int| 0 <= s < 90 && #[trigger] pos.board[s] == Piece::B_KING;
        assert(pos.board[b] == make_piece(c, PieceType::King));
    }
}

/// In check, a full legality test is made.
proof fn lemma_full_check(pos: &Position, c: int)
    requires
        pos.check_info_ok(),
        pos.state.checkers_bb.has(c),
    ensures
        pos.state.need_full_check,
{
    crate::bitboard::bitboard::lemma_bit_zero(c);
}

/// A legal king move out of check by the piece on `c` goes where
/// `king_exit` allows.
#[verifier::spinoff_prover]
pub proof fn lemma_king_evasion(pos: &Position, m: Move, c: int)
    requires
        pos.valid(),
        pos.check_info_ok(),
        pos.checkers_from_board(),
        0 <= c < 90,
        pos.state.checkers_bb.has(c),
        pos.generated(GenType::Legal, m),
        pos.board[m.from_id()].type_of() == PieceType::King,
    ensures
        m.from_id() == pos.king_sq(pos.side_to_move),
        king_exit(pos, pos.side_to_move, c, pos.king_sq(pos.side_to_move), m.to_id()),
{
    let us = pos.side_to_move;
    let them = us.opp();
    let k = pos.king_sq(us);
    let from = m.from_id();
    let to = m.to_id();
    let occ = pos.occ();
    let occ2 = pos.occ_after(from, to);
    lemma_own_king(pos, us);
    assert(pos.board[from] == make_piece(us, PieceType::King));
    assert(from == k);
    assert(piece_checks(pos.board[c], them, c, k, occ));
    let slider = pos.board[c] != Piece::NONE && (pos.board[c].type_of() == PieceType::Rook
        || pos.board[c].type_of() == PieceType::Cannon);
    if slider && orth_aligned(c, k) && on_line(c, k, to) && !holds(pos, them, to) {
        lemma_occ_after(pos, from, to);
        assert(pos.board[to] == Piece::NONE);
        assert(!occ.has(to));
        assert(occ.has(c));
        assert(pos.no_check_after(them, to, occ2, -1));
        if pos.board[c].type_of() == PieceType::Rook {
            lemma_rook_check_follows(k, c, occ, occ2, to);
        } else {
            lemma_cannon_check_follows(k, c, occ, occ2, to);
        }
        assert(piece_checks(pos.board[c], them, c, to, occ2));
        assert(false);
    }
}

/// Where the screen on `from` of a cannon check from `c` (the `kk`-th
/// square along a ray from the king on `k`) goes: off the line, or, by
/// capturing, anywhere a cannon reaches.
#[verifier::spinoff_prover]
proof fn lemma_screen_move(pos: &Position, m: Move, c: int, df: int, dr: int, kk: int)
    requires
        pos.valid(),
        pos.generated(GenType::Legal, m),
        pos.board[m.from_id()].type_of() != PieceType::King,
        on_board(pos.king_sq(pos.side_to_move)),
        pos.board[pos.king_sq(pos.side_to_move)] == make_piece(pos.side_to_move, PieceType::King),
        orth_dir(df, dr),
        1 <= kk,
        ray_ok(pos.king_sq(pos.side_to_move), df, dr, kk),
        c == ray_sq(pos.king_sq(pos.side_to_move), df, dr, kk),
        pos.occ().has(c),
        c != m.to_id(),
        strictly_between(pos.king_sq(pos.side_to_move), c, m.from_id()),
        !strictly_between(pos.king_sq(pos.side_to_move), c, m.to_id()),
    ensures
        screen_exit(pos, pos.side_to_move, c, m.from_id(), m.to_id()),
{
    let us = pos.side_to_move;
    let k = pos.king_sq(us);
    let from = m.from_id();
    let to = m.to_id();
    let occ = pos.occ();
    let i = lemma_between_on_ray(k, df, dr, kk, from);
    lemma_ray_coords(k, df, dr, kk);
    lemma_ray_coords(k, df, dr, i);
    assert(occ.has(k));
    let pt = pos.board[from].type_of();
    let capture = pos.board[to] != Piece::NONE;
    if !(pt == PieceType::Cannon && capture) && orth_aligned(c, from) && on_line(c, from, to) {
        if pt == PieceType::Rook || pt == PieceType::Cannon {
            assert(rook_attack_has(from, occ, to));
            let (ef, er) = rook_dir(from, occ, to);
            let a = choose|a: int|
                1 <= a && ray_ok(from, ef, er, a) && to == #[trigger] ray_sq(from, ef, er, a)
                    && ray_empty(from, ef, er, 1, a, occ);
            lemma_slide_on_segment(k, df, dr, kk, i, occ, ef, er, a, to);
        } else if pt == PieceType::Pawn {
            let (ef, er) = lemma_pawn_step(us, from, to);
            lemma_slide_on_segment(k, df, dr, kk, i, occ, ef, er, 1, to);
        } else {
            lemma_leaper_off_line(from, occ, to);
        }
        assert(false);
    }
    if pt == PieceType::Cannon && capture {
        assert(holds(pos, us.opp(), to));
    }
}

/// A legal move of a piece other than the king out of check by the piece
/// on `c` lands between the king and the checker (or on the checker), or
/// is the screen of a checking cannon leaving its line.
#[verifier::spinoff_prover]
#[verifier::rlimit(40)]
pub proof fn lemma_piece_evasion(pos: &Position, m: Move, c: int)
    requires
        pos.valid(),
        pos.check_info_ok(),
        pos.checkers_from_board(),
        0 <= c < 90,
        pos.state.checkers_bb.has(c),
        pos.generated(GenType::Legal, m),
        pos.board[m.from_id()].type_of() != PieceType::King,
    ensures
        ({
            let us = pos.side_to_move;
            let k = pos.king_sq(us);
            let from = m.from_id();
            let to = m.to_id();
            ||| between_has(k, c, to)
            ||| {
                &&& pos.board[c] != Piece::NONE
                &&& pos.board[c].type_of() == PieceType::Cannon
                &&& strictly_between(k, c, from)
                &&& (forall|x: int| 0 <= x < 90 && between_has(k, c, x) && #[trigger] holds(pos, us, x) ==> x == from)
                &&& screen_exit(pos, us, c, from, to)
            }
        }),
{
    let us = pos.side_to_move;
    let them = us.opp();
    let k = pos.king_sq(us);
    let from = m.from_id();
    let to = m.to_id();
    let occ = pos.occ();
    let occ2 = pos.occ_after(from, to);
    lemma_own_king(pos, us);
    lemma_full_check(pos, c);
    assert(piece_checks(pos.board[c], them, c, k, occ));
    if c != to {
        assert(pos.no_check_after(them, k, occ2, to));
        assert(!piece_checks(pos.board[c], them, c, k, occ2));
        lemma_occ_after(pos, from, to);
        let ct = pos.board[c].type_of();
        if ct == PieceType::Knight {
            lemma_knight_leg_closed(k, c, occ, occ2, to);
        } else if ct == PieceType::Rook || ct == PieceType::King {
            lemma_rook_line_closed(k, c, occ, occ2, to);
        } else if ct == PieceType::Cannon {
            lemma_cannon_line_opened(k, c, occ, occ2, from, to);
            if !strictly_between(k, c, to) {
                lemma_cannon_not_knight(k, occ, c);
                assert forall|x: int| 0 <= x < 90 && between_has(k, c, x) && #[trigger] holds(pos, us, x) implies x == from by {
                    if x != c {
                        assert(occ.has(x));
                    }
                }
                let (df, dr) = cannon_dir(k, occ, c);
                let (h, kk) = choose|h: int, kk: int|
                    #![trigger ray_sq(k, df, dr, h), ray_sq(k, df, dr, kk)]
                    1 <= h < kk && ray_ok(k, df, dr, kk) && c == ray_sq(k, df, dr, kk) && occ.has(
                        ray_sq(k, df, dr, h),
                    ) && ray_empty(k, df, dr, 1, h, occ) && ray_empty(k, df, dr, h + 1, kk, occ);
                lemma_screen_move(pos, m, c, df, dr, kk);
            }
        } else {
            assert(false);
        }
    }
}

} // verus!
