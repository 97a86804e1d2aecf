//! Lines, segments and passes between two squares.

use vstd::prelude::*;

use super::attacks::{
    PseudoAttacksTable, advisor_step, advisor_steps, bishop_attack_has, cannon_attack_has,
    king_step, knight_attack_has, lame_leaper_path_dir_knight_to, lame_path_has,
    lemma_rook_empty, lemma_rook_ray_one_blocker, no_pieces, orth_aligned, rook_attack_has,
};
use super::bitboard::{Bitboard, group_bits, lemma_sq_set, sq_set};
use super::magic::{
    attacks_bb_bishop, attacks_bb_cannon, attacks_bb_knight, attacks_bb_rook,
};
use crate::types::{Direction, Square, file_of, on_board, rank_of};

verus! {

/// The unobstructed-attack table.
pub fn pseudo_attacks() -> (t: PseudoAttacksTable)
    ensures
        t.wf(),
{
    PseudoAttacksTable::new()
}

/// `t` lies on the file or rank that the aligned squares `a` and `b` share.
pub open spec fn on_line(a: int, b: int, t: int) -> bool {
    on_board(t) && if file_of(a) == file_of(b) {
        file_of(t) == file_of(a)
    } else {
        rank_of(t) == rank_of(a)
    }
}

/// The whole file or rank through `s1` and `s2`, or empty when they share
/// neither (or coincide).
pub fn line_bb(s1: Square, s2: Square) -> (b: Bitboard)
    requires
        s1.valid(),
        s2.valid(),
    ensures
        forall|t: int| #[trigger] b.has(t) == (orth_aligned(s1.id(), s2.id()) && on_line(
            s1.id(),
            s2.id(),
            t,
        )),
        b.wf(),
{
    let e = Bitboard::empty();
    let r1 = attacks_bb_rook(s1, e);
    let r2 = attacks_bb_rook(s2, e);
    proof {
        assert(e == no_pieces());
        assert forall|t: int|
            #![trigger r1.has(t)]
            #![trigger r2.has(t)]
            r1.has(t) == orth_aligned(s1.id(), t) && r2.has(t) == orth_aligned(s2.id(), t) by {
            lemma_rook_empty(s1.id(), t);
            lemma_rook_empty(s2.id(), t);
        }
    }
    if r1.contains(s2) {
        r1.and(r2).or(Bitboard::from_square(s1)).or(Bitboard::from_square(s2))
    } else {
        e
    }
}

/// `s3` lies on the file or rank through the distinct aligned `s1` and `s2`.
pub fn aligned(s1: Square, s2: Square, s3: Square) -> (r: bool)
    requires
        s1.valid(),
        s2.valid(),
        s3.valid(),
    ensures
        r == (orth_aligned(s1.id(), s2.id()) && on_line(s1.id(), s2.id(), s3.id())),
{
    line_bb(s1, s2).contains(s3)
}

/// The squares `between_bb` returns for `s1` and `s2`: `s2` itself; when the
/// two share a file or rank, the squares a rook on either one attacks when
/// only the other is occupied; and when a knight on `s1` could leap to
/// `s2`, the leg of a knight on `s2` leaping back to `s1`.
pub open spec fn between_has(s1: int, s2: int, t: int) -> bool {
    ||| t == s2
    ||| (orth_aligned(s1, s2) && rook_attack_has(s1, sq_set(s2), t) && rook_attack_has(
        s2,
        sq_set(s1),
        t,
    ))
    ||| (knight_attack_has(s1, no_pieces(), s2) && lame_path_has(s2, s1 - s2, t))
}

/// `t` lies strictly between the squares `a` and `b` of one file or rank.
pub open spec fn strictly_between(a: int, b: int, t: int) -> bool {
    &&& on_board(t)
    &&& {
        ||| file_of(a) == file_of(b) && file_of(t) == file_of(a) && (rank_of(a) < rank_of(t) < rank_of(b)
            || rank_of(b) < rank_of(t) < rank_of(a))
        ||| rank_of(a) == rank_of(b) && rank_of(t) == rank_of(a) && (file_of(a) < file_of(t) < file_of(b)
            || file_of(b) < file_of(t) < file_of(a))
    }
}

/// A rook on either of two squares of one line, the other square being the
/// only occupied one, attacks together exactly the squares between them.
proof fn lemma_rook_pair(a: int, b: int, t: int)
    requires
        orth_aligned(a, b),
    ensures
        (rook_attack_has(a, sq_set(b), t) && rook_attack_has(b, sq_set(a), t)) <==> strictly_between(a, b, t),
{
    lemma_rook_ray_one_blocker(a, b, 0, 1, t);
    lemma_rook_ray_one_blocker(a, b, 0, -1, t);
    lemma_rook_ray_one_blocker(a, b, 1, 0, t);
    lemma_rook_ray_one_blocker(a, b, -1, 0, t);
    lemma_rook_ray_one_blocker(b, a, 0, 1, t);
    lemma_rook_ray_one_blocker(b, a, 0, -1, t);
    lemma_rook_ray_one_blocker(b, a, 1, 0, t);
    lemma_rook_ray_one_blocker(b, a, -1, 0, t);
}

/// What `between_bb(s1, s2)` holds, for two different squares: on one file
/// or rank, the squares strictly between them; when a knight on `s1` could
/// leap to `s2`, the leg a knight on `s2` needs to leap back to `s1`;
/// otherwise nothing; and in every case `s2` but never `s1`.
pub proof fn lemma_between_cases(s1: int, s2: int, t: int)
    requires
        on_board(s1),
        on_board(s2),
        s1 != s2,
    ensures
        orth_aligned(s1, s2) ==> (between_has(s1, s2, t) <==> (t == s2 || strictly_between(s1, s2, t))),
        !orth_aligned(s1, s2) && knight_attack_has(s1, no_pieces(), s2) ==> (between_has(s1, s2, t) <==> (t == s2
            || lame_path_has(s2, s1 - s2, t))),
        !orth_aligned(s1, s2) && !knight_attack_has(s1, no_pieces(), s2) ==> (between_has(s1, s2, t) <==> t == s2),
        between_has(s1, s2, s2),
        !between_has(s1, s2, s1),
{
    assert(s1 == rank_of(s1) * 9 + file_of(s1));
    assert(s2 == rank_of(s2) * 9 + file_of(s2));
    if orth_aligned(s1, s2) {
        lemma_rook_pair(s1, s2, t);
        lemma_rook_pair(s1, s2, s1);
        assert(!knight_attack_has(s1, no_pieces(), s2));
    } else if knight_attack_has(s1, no_pieces(), s2) {
        assert(!lame_path_has(s2, s1 - s2, s1));
    }
}

/// The squares that block the line or leap from `s1` to `s2`, plus `s2`.
#[verifier::spinoff_prover]
#[verifier::rlimit(40)]
pub fn between_bb(s1: Square, s2: Square) -> (b: Bitboard)
    requires
        s1.valid(),
        s2.valid(),
    ensures
        forall|t: int| #[trigger] b.has(t) == between_has(s1.id(), s2.id(), t),
        b.wf(),
{
    let e = Bitboard::empty();
    let pseudo_rook = attacks_bb_rook(s1, e);
    proof {
        assert(e == no_pieces());
        lemma_rook_empty(s1.id(), s2.id());
    }
    let mut result = if pseudo_rook.contains(s2) {
        attacks_bb_rook(s1, Bitboard::from_square(s2)).and(
            attacks_bb_rook(s2, Bitboard::from_square(s1)),
        )
    } else {
        e
    };
    let pseudo_knight = attacks_bb_knight(s1, e);
    if pseudo_knight.contains(s2) {
        let d: i16 = s2.raw() as i16 - s1.raw() as i16;
        result = result.or(lame_leaper_path_dir_knight_to(Direction(d as i8), s1));
    }
    result.or(Bitboard::from_square(s2))
}

/// The squares a cannon on `s1` attacks when `s2`, on its file or rank, is
/// the only occupied square: those beyond `s2`. Empty when not aligned.
pub fn ray_pass_bb(s1: Square, s2: Square) -> (b: Bitboard)
    requires
        s1.valid(),
        s2.valid(),
    ensures
        forall|t: int| #[trigger] b.has(t) == (orth_aligned(s1.id(), s2.id()) && cannon_attack_has(
            s1.id(),
            sq_set(s2.id()),
            t,
        )),
        b.wf(),
{
    let e = Bitboard::empty();
    let pseudo_rook = attacks_bb_rook(s1, e);
    proof {
        assert(e == no_pieces());
        lemma_rook_empty(s1.id(), s2.id());
    }
    if pseudo_rook.contains(s2) {
        attacks_bb_cannon(s1, Bitboard::from_square(s2))
    } else {
        e
    }
}

/// The squares `leaper_pass_bb` returns for `s1` and `s2`.
pub open spec fn leaper_pass_has(s1: int, s2: int, t: int) -> bool {
    ||| (king_step(s1, s2) && knight_attack_has(s1, no_pieces(), t) && advisor_step(s2, t))
    ||| (advisor_step(s1, s2) && bishop_attack_has(s1, no_pieces(), t) && advisor_step(s2, t))
}

/// Landing squares of a knight or bishop on `s1` whose leg or eye is `s2`:
/// when `s2` is orthogonally next to `s1`, the knight leaps from `s1` that
/// end diagonally next to `s2`; when `s2` is diagonally next to `s1`, the
/// bishop leaps from `s1` that end diagonally next to `s2`.
pub fn leaper_pass_bb(s1: Square, s2: Square) -> (b: Bitboard)
    requires
        s1.valid(),
        s2.valid(),
    ensures
        forall|t: int| #[trigger] b.has(t) == leaper_pass_has(s1.id(), s2.id(), t),
        b.wf(),
{
    let e = Bitboard::empty();
    let mut cell = e;
    proof {
        assert(e == no_pieces());
    }
    if super::attacks::king_steps(s1).contains(s2) {
        cell = cell.or(attacks_bb_knight(s1, e).and(advisor_steps(s2)));
    }
    if advisor_steps(s1).contains(s2) {
        cell = cell.or(attacks_bb_bishop(s1, e).and(advisor_steps(s2)));
    }
    cell
}

} // verus!
