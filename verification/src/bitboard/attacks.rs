//! Attack sets computed square by square: rook and cannon rays, the lame
//! leapers (knight and bishop, blocked at the leg or the eye), pawns, and the
//! table of unobstructed attacks.

use vstd::prelude::*;

use super::bitboard::{Bitboard, bit, group_bits, lemma_board_bits, lemma_sq_set, sq_set};
use super::tables::{
    abs_diff, file_dist, file_distance, half_bb, in_half, in_palace, palace, rank_dist,
    rank_distance,
    safe_destination, sq_dist, square_distance,
};
use crate::types::{Color, Direction, PieceType, Square, file_of, on_board, rank_of, square_at};

verus! {

/// `k` steps of size `d` (one of -1, 0, 1).
pub open spec fn steps(d: int, k: int) -> int {
    if d > 0 {
        k
    } else if d < 0 {
        -k
    } else {
        0
    }
}

/// The square `k` steps from `s` in the board direction `(df, dr)` exists.
pub open spec fn ray_ok(s: int, df: int, dr: int, k: int) -> bool {
    &&& 0 <= file_of(s) + steps(df, k) < 9
    &&& 0 <= rank_of(s) + steps(dr, k) < 10
}

/// The square `k` steps from `s` in the board direction `(df, dr)`.
pub open spec fn ray_sq(s: int, df: int, dr: int, k: int) -> int {
    square_at(file_of(s) + steps(df, k), rank_of(s) + steps(dr, k))
}

/// No square `lo..hi` steps along the ray is occupied.
pub open spec fn ray_empty(s: int, df: int, dr: int, lo: int, hi: int, occ: Bitboard) -> bool {
    forall|i: int| lo <= i < hi ==> !#[trigger] occ.has(ray_sq(s, df, dr, i))
}

/// The direction is one of the four orthogonal ones.
pub open spec fn orth_dir(df: int, dr: int) -> bool {
    (df == 0 && (dr == 1 || dr == -1)) || (dr == 0 && (df == 1 || df == -1))
}

/// A rook on `s` reaches `t` along `(df, dr)`: `t` is on the ray and every
/// square before it is empty (`t` itself may be occupied).
pub open spec fn rook_ray_has(s: int, occ: Bitboard, df: int, dr: int, t: int) -> bool {
    exists|k: int|
        1 <= k && ray_ok(s, df, dr, k) && t == #[trigger] ray_sq(s, df, dr, k) && ray_empty(
            s,
            df,
            dr,
            1,
            k,
            occ,
        )
}

/// A cannon on `s` reaches `t` along `(df, dr)`: exactly one occupied square
/// (the screen, at step `h`) lies strictly between them.
pub open spec fn cannon_ray_has(s: int, occ: Bitboard, df: int, dr: int, t: int) -> bool {
    exists|h: int, k: int|
        #![trigger ray_sq(s, df, dr, h), ray_sq(s, df, dr, k)]
        1 <= h < k && ray_ok(s, df, dr, k) && t == ray_sq(s, df, dr, k) && occ.has(
            ray_sq(s, df, dr, h),
        ) && ray_empty(s, df, dr, 1, h, occ) && ray_empty(s, df, dr, h + 1, k, occ)
}

/// Squares a rook on `s` attacks: along each orthogonal ray, up to and
/// including the first occupied square.
pub open spec fn rook_attack_has(s: int, occ: Bitboard, t: int) -> bool {
    rook_ray_has(s, occ, 0, 1, t) || rook_ray_has(s, occ, 0, -1, t) || rook_ray_has(
        s,
        occ,
        1,
        0,
        t,
    ) || rook_ray_has(s, occ, -1, 0, t)
}

/// Squares a cannon on `s` attacks: along each orthogonal ray, the squares
/// beyond the first occupied one, up to and including the second.
pub open spec fn cannon_attack_has(s: int, occ: Bitboard, t: int) -> bool {
    cannon_ray_has(s, occ, 0, 1, t) || cannon_ray_has(s, occ, 0, -1, t) || cannon_ray_has(
        s,
        occ,
        1,
        0,
        t,
    ) || cannon_ray_has(s, occ, -1, 0, t)
}

proof fn lemma_ray_ok_between(s: int, df: int, dr: int, j: int, k: int)
    requires
        0 <= s < 90,
        orth_dir(df, dr),
        0 <= j <= k,
        ray_ok(s, df, dr, k),
    ensures
        ray_ok(s, df, dr, j),
{
}

proof fn lemma_ray_sq_on_board(s: int, df: int, dr: int, k: int)
    requires
        ray_ok(s, df, dr, k),
    ensures
        on_board(ray_sq(s, df, dr, k)),
        file_of(ray_sq(s, df, dr, k)) == file_of(s) + steps(df, k),
        rank_of(ray_sq(s, df, dr, k)) == rank_of(s) + steps(dr, k),
{
}

/// Walks from `sq` in direction `(df, dr)` and collects what a rook sees.
fn rook_ray(sq: Square, occ: Bitboard, df: i8, dr: i8) -> (b: Bitboard)
    requires
        sq.valid(),
        orth_dir(df as int, dr as int),
    ensures
        forall|t: int| #[trigger] b.has(t) == rook_ray_has(sq.id(), occ, df as int, dr as int, t),
        b.wf(),
{
    let ghost s = sq.id();
    let mut f: i8 = (sq.raw() % 9) as i8;
    let mut r: i8 = (sq.raw() / 9) as i8;
    let mut attack = Bitboard::empty();
    let ghost mut k: int = 0;
    loop
        invariant_except_break
            f == file_of(s) + steps(df as int, k),
            r == rank_of(s) + steps(dr as int, k),
            forall|t: int| #[trigger]
                attack.has(t) == (exists|j: int|
                    1 <= j <= k && t == #[trigger] ray_sq(s, df as int, dr as int, j)),
        invariant
            orth_dir(df as int, dr as int),
            s == sq.id(),
            0 <= s < 90,
            0 <= k <= 10,
            ray_ok(s, df as int, dr as int, k),
            ray_empty(s, df as int, dr as int, 1, k + 1, occ),
            attack.wf(),
        ensures
            forall|t: int| #[trigger]
                attack.has(t) == rook_ray_has(s, occ, df as int, dr as int, t),
            attack.wf(),
        decreases 10 - k,
    {
        f = f + df;
        r = r + dr;
        if f < 0 || f > 8 || r < 0 || r > 9 {
            proof {
                assert forall|t: int| #[trigger]
                    attack.has(t) == rook_ray_has(s, occ, df as int, dr as int, t) by {
                    if attack.has(t) {
                        let j = choose|j: int|
                            1 <= j <= k && t == #[trigger] ray_sq(s, df as int, dr as int, j);
                        lemma_ray_ok_between(s, df as int, dr as int, j, k);
                        assert(ray_empty(s, df as int, dr as int, 1, j, occ));
                    }
                    if rook_ray_has(s, occ, df as int, dr as int, t) {
                        let j = choose|j: int|
                            1 <= j && ray_ok(s, df as int, dr as int, j) && t == #[trigger] ray_sq(
                                s,
                                df as int,
                                dr as int,
                                j,
                            ) && ray_empty(s, df as int, dr as int, 1, j, occ);
                        if j > k {
                            lemma_ray_ok_between(s, df as int, dr as int, k + 1, j);
                        }
                    }
                }
            }
            break;
        }
        let next = Square::from_raw_unchecked((r as u8) * 9 + f as u8);
        proof {
            assert(next.id() == ray_sq(s, df as int, dr as int, k + 1));
        }
        let ghost old_attack = attack;
        attack = attack.or(Bitboard::from_square(next));
        proof {
            broadcast use group_bits;

            assert forall|t: int| #[trigger]
                attack.has(t) == (exists|j: int|
                    1 <= j <= k + 1 && t == #[trigger] ray_sq(s, df as int, dr as int, j)) by {
                if attack.has(t) && t != next.id() {
                    assert(old_attack.has(t));
                }
                if exists|j: int| 1 <= j <= k + 1 && t == #[trigger] ray_sq(s, df as int, dr as int, j) {
                    let j = choose|j: int|
                        1 <= j <= k + 1 && t == #[trigger] ray_sq(s, df as int, dr as int, j);
                    if j <= k {
                        assert(old_attack.has(t));
                    }
                }
            }
        }
        if occ.contains(next) {
            proof {
                assert forall|t: int| #[trigger]
                    attack.has(t) == rook_ray_has(s, occ, df as int, dr as int, t) by {
                    if attack.has(t) {
                        let j = choose|j: int|
                            1 <= j <= k + 1 && t == #[trigger] ray_sq(s, df as int, dr as int, j);
                        lemma_ray_ok_between(s, df as int, dr as int, j, k + 1);
                        assert(ray_empty(s, df as int, dr as int, 1, j, occ));
                    }
                    if rook_ray_has(s, occ, df as int, dr as int, t) {
                        let j = choose|j: int|
                            1 <= j && ray_ok(s, df as int, dr as int, j) && t == #[trigger] ray_sq(
                                s,
                                df as int,
                                dr as int,
                                j,
                            ) && ray_empty(s, df as int, dr as int, 1, j, occ);
                        if j > k + 1 {
                            assert(!occ.has(ray_sq(s, df as int, dr as int, k + 1)));
                        }
                    }
                }
            }
            break;
        }
        proof {
            k = k + 1;
        }
    }
    attack
}

/// The screen of a cannon ray is the first occupied square along it.
proof fn lemma_screen_unique(s: int, occ: Bitboard, df: int, dr: int, h: int, h2: int)
    requires
        1 <= h,
        1 <= h2,
        occ.has(ray_sq(s, df, dr, h)),
        ray_empty(s, df, dr, 1, h, occ),
        occ.has(ray_sq(s, df, dr, h2)),
        ray_empty(s, df, dr, 1, h2, occ),
    ensures
        h == h2,
{
    if h2 < h {
        assert(!occ.has(ray_sq(s, df, dr, h2)));
    }
    if h2 > h {
        assert(!occ.has(ray_sq(s, df, dr, h)));
    }
}

/// Once a cannon ray has been walked to its end (step `last`), its squares are
/// exactly those collected beyond the screen.
proof fn lemma_cannon_ray_done(
    s: int,
    occ: Bitboard,
    df: int,
    dr: int,
    hurdle: bool,
    h: int,
    last: int,
    attack: Bitboard,
)
    requires
        0 <= s < 90,
        orth_dir(df, dr),
        0 <= last,
        ray_ok(s, df, dr, last),
        !ray_ok(s, df, dr, last + 1) || (hurdle && last > h && occ.has(ray_sq(s, df, dr, last))),
        !hurdle ==> ray_empty(s, df, dr, 1, last + 1, occ),
        !hurdle ==> forall|t: int| !#[trigger] attack.has(t),
        hurdle ==> 1 <= h <= last && occ.has(ray_sq(s, df, dr, h)) && ray_empty(
            s,
            df,
            dr,
            1,
            h,
            occ,
        ),
        hurdle ==> ray_empty(s, df, dr, h + 1, last, occ),
        hurdle && !occ.has(ray_sq(s, df, dr, last)) ==> ray_empty(s, df, dr, h + 1, last + 1, occ),
        hurdle ==> forall|t: int| #[trigger]
            attack.has(t) == (exists|j: int| h < j <= last && t == #[trigger] ray_sq(s, df, dr, j)),
    ensures
        forall|t: int| #[trigger] attack.has(t) == cannon_ray_has(s, occ, df, dr, t),
{
    assert forall|t: int| #[trigger] attack.has(t) == cannon_ray_has(s, occ, df, dr, t) by {
        if attack.has(t) {
            let j = choose|j: int| h < j <= last && t == #[trigger] ray_sq(s, df, dr, j);
            lemma_ray_ok_between(s, df, dr, j, last);
            assert(ray_sq(s, df, dr, h) == ray_sq(s, df, dr, h));
            assert(ray_empty(s, df, dr, h + 1, j, occ));
        }
        if cannon_ray_has(s, occ, df, dr, t) {
            let (h2, j) = choose|h2: int, j: int|
                #![trigger ray_sq(s, df, dr, h2), ray_sq(s, df, dr, j)]
                1 <= h2 < j && ray_ok(s, df, dr, j) && t == ray_sq(s, df, dr, j) && occ.has(
                    ray_sq(s, df, dr, h2),
                ) && ray_empty(s, df, dr, 1, h2, occ) && ray_empty(s, df, dr, h2 + 1, j, occ);
            if !ray_ok(s, df, dr, last + 1) && j > last {
                lemma_ray_ok_between(s, df, dr, last + 1, j);
            }
            if hurdle {
                lemma_screen_unique(s, occ, df, dr, h, h2);
                if j > last {
                    assert(!occ.has(ray_sq(s, df, dr, last)));
                }
                assert(h < j <= last && t == ray_sq(s, df, dr, j));
            } else {
                assert(!occ.has(ray_sq(s, df, dr, h2)));
            }
        }
    }
}

/// Walks from `sq` in direction `(df, dr)` and collects what a cannon sees.
fn cannon_ray(sq: Square, occ: Bitboard, df: i8, dr: i8) -> (b: Bitboard)
    requires
        sq.valid(),
        orth_dir(df as int, dr as int),
    ensures
        forall|t: int| #[trigger] b.has(t) == cannon_ray_has(sq.id(), occ, df as int, dr as int, t),
        b.wf(),
{
    let ghost s = sq.id();
    let mut f: i8 = (sq.raw() % 9) as i8;
    let mut r: i8 = (sq.raw() / 9) as i8;
    let mut attack = Bitboard::empty();
    let mut hurdle = false;
    let ghost mut k: int = 0;
    let ghost mut h: int = 0;
    loop
        invariant_except_break
            f == file_of(s) + steps(df as int, k),
            r == rank_of(s) + steps(dr as int, k),
            !hurdle ==> forall|t: int| !#[trigger] attack.has(t),
            hurdle ==> forall|t: int| #[trigger]
                attack.has(t) == (exists|j: int|
                    h < j <= k && t == #[trigger] ray_sq(s, df as int, dr as int, j)),
            !hurdle ==> ray_empty(s, df as int, dr as int, 1, k + 1, occ),
            hurdle ==> ray_empty(s, df as int, dr as int, h + 1, k + 1, occ),
        invariant
            orth_dir(df as int, dr as int),
            s == sq.id(),
            0 <= s < 90,
            0 <= k <= 10,
            ray_ok(s, df as int, dr as int, k),
            hurdle ==> 1 <= h <= k && occ.has(ray_sq(s, df as int, dr as int, h)) && ray_empty(
                s,
                df as int,
                dr as int,
                1,
                h,
                occ,
            ),
            attack.wf(),
        ensures
            forall|t: int| #[trigger]
                attack.has(t) == cannon_ray_has(s, occ, df as int, dr as int, t),
            attack.wf(),
        decreases 10 - k,
    {
        f = f + df;
        r = r + dr;
        if f < 0 || f > 8 || r < 0 || r > 9 {
            proof {
                lemma_cannon_ray_done(s, occ, df as int, dr as int, hurdle, h, k, attack);
            }
            break;
        }
        let next = Square::from_raw_unchecked((r as u8) * 9 + f as u8);
        proof {
            assert(next.id() == ray_sq(s, df as int, dr as int, k + 1));
            assert(ray_ok(s, df as int, dr as int, k + 1));
        }
        let ghost old_attack = attack;
        if hurdle {
            attack = attack.or(Bitboard::from_square(next));
            proof {
                assert forall|t: int| #[trigger]
                    attack.has(t) == (exists|j: int|
                        h < j <= k + 1 && t == #[trigger] ray_sq(s, df as int, dr as int, j)) by {
                    if attack.has(t) && t != next.id() {
                        assert(old_attack.has(t));
                    }
                    if exists|j: int| h < j <= k + 1 && t == #[trigger] ray_sq(s, df as int, dr as int, j) {
                        let j = choose|j: int|
                            h < j <= k + 1 && t == #[trigger] ray_sq(s, df as int, dr as int, j);
                        if j <= k {
                            assert(old_attack.has(t));
                        }
                    }
                }
            }
        }
        if occ.contains(next) {
            if hurdle {
                proof {
                    lemma_cannon_ray_done(s, occ, df as int, dr as int, hurdle, h, k + 1, attack);
                }
                break;
            }
            hurdle = true;
            proof {
                h = k + 1;
                assert forall|t: int| #[trigger]
                    attack.has(t) == (exists|j: int|
                        h < j <= k + 1 && t == #[trigger] ray_sq(s, df as int, dr as int, j)) by {}
            }
        }
        proof {
            k = k + 1;
        }
    }
    attack
}

/// Squares a rook on `sq` attacks given the occupied squares `occupied`.
pub fn sliding_attack_rook(sq: Square, occupied: Bitboard) -> (b: Bitboard)
    requires
        sq.valid(),
    ensures
        forall|t: int| #[trigger] b.has(t) == rook_attack_has(sq.id(), occupied, t),
        b.wf(),
{
    let n = rook_ray(sq, occupied, 0, 1);
    let so = rook_ray(sq, occupied, 0, -1);
    let e = rook_ray(sq, occupied, 1, 0);
    let w = rook_ray(sq, occupied, -1, 0);
    n.or(so).or(e).or(w)
}

/// Squares a cannon on `sq` attacks (captures) given `occupied`.
pub fn sliding_attack_cannon(sq: Square, occupied: Bitboard) -> (b: Bitboard)
    requires
        sq.valid(),
    ensures
        forall|t: int| #[trigger] b.has(t) == cannon_attack_has(sq.id(), occupied, t),
        b.wf(),
{
    let n = cannon_ray(sq, occupied, 0, 1);
    let so = cannon_ray(sq, occupied, 0, -1);
    let e = cannon_ray(sq, occupied, 1, 0);
    let w = cannon_ray(sq, occupied, -1, 0);
    n.or(so).or(e).or(w)
}

/// The leap by `(df, dr)` from `s` lands on the board.
pub open spec fn leap_ok(s: int, df: int, dr: int) -> bool {
    0 <= file_of(s) + df < 9 && 0 <= rank_of(s) + dr < 10
}

/// The square a leap by `(df, dr)` from `s` lands on.
pub open spec fn leap_sq(s: int, df: int, dr: int) -> int {
    square_at(file_of(s) + df, rank_of(s) + dr)
}

/// The leg of a knight leaping by `(df, dr)`: the orthogonal neighbour of
/// `s` along the long side of the leap.
pub open spec fn knight_leg(s: int, df: int, dr: int) -> int {
    if df == 2 || df == -2 {
        square_at(file_of(s) + df / 2, rank_of(s))
    } else {
        square_at(file_of(s), rank_of(s) + dr / 2)
    }
}

/// The eye of a bishop leaping by `(df, dr)`: the diagonal neighbour of `s`.
pub open spec fn bishop_eye(s: int, df: int, dr: int) -> int {
    square_at(file_of(s) + df / 2, rank_of(s) + dr / 2)
}

/// `(df, dr)` is one of the eight knight leaps.
pub open spec fn knight_offset(df: int, dr: int) -> bool {
    ((df == 1 || df == -1) && (dr == 2 || dr == -2)) || ((df == 2 || df == -2) && (dr == 1 || dr
        == -1))
}

/// `(df, dr)` is one of the four bishop leaps.
pub open spec fn bishop_offset(df: int, dr: int) -> bool {
    (df == 2 || df == -2) && (dr == 2 || dr == -2)
}

/// A knight on `s` reaches `t` by the leap `(df, dr)`: `t` is on the board
/// and the leg is empty.
pub open spec fn knight_leap_has(s: int, occ: Bitboard, df: int, dr: int, t: int) -> bool {
    leap_ok(s, df, dr) && t == leap_sq(s, df, dr) && !occ.has(knight_leg(s, df, dr))
}

/// A knight on `t = s + (df, dr)` reaches `s`: the leg next to `t` is empty.
pub open spec fn knight_to_leap_has(s: int, occ: Bitboard, df: int, dr: int, t: int) -> bool {
    leap_ok(s, df, dr) && t == leap_sq(s, df, dr) && !occ.has(knight_leg(t, -df, -dr))
}

/// A bishop on `s` reaches `t` by the leap `(df, dr)`: the eye is empty.
pub open spec fn bishop_leap_has(s: int, occ: Bitboard, df: int, dr: int, t: int) -> bool {
    leap_ok(s, df, dr) && t == leap_sq(s, df, dr) && !occ.has(bishop_eye(s, df, dr))
}

/// Squares a knight on `s` attacks.
pub open spec fn knight_attack_has(s: int, occ: Bitboard, t: int) -> bool {
    ||| knight_leap_has(s, occ, -1, -2, t)
    ||| knight_leap_has(s, occ, 1, -2, t)
    ||| knight_leap_has(s, occ, -2, -1, t)
    ||| knight_leap_has(s, occ, 2, -1, t)
    ||| knight_leap_has(s, occ, -2, 1, t)
    ||| knight_leap_has(s, occ, 2, 1, t)
    ||| knight_leap_has(s, occ, -1, 2, t)
    ||| knight_leap_has(s, occ, 1, 2, t)
}

/// Squares holding a knight that would attack `s`.
pub open spec fn knight_to_attack_has(s: int, occ: Bitboard, t: int) -> bool {
    ||| knight_to_leap_has(s, occ, -1, -2, t)
    ||| knight_to_leap_has(s, occ, 1, -2, t)
    ||| knight_to_leap_has(s, occ, -2, -1, t)
    ||| knight_to_leap_has(s, occ, 2, -1, t)
    ||| knight_to_leap_has(s, occ, -2, 1, t)
    ||| knight_to_leap_has(s, occ, 2, 1, t)
    ||| knight_to_leap_has(s, occ, -1, 2, t)
    ||| knight_to_leap_has(s, occ, 1, 2, t)
}

/// Squares a bishop on `s` attacks: the four elephant leaps with an empty
/// eye, kept on the half of the board `s` lies in.
pub open spec fn bishop_attack_has(s: int, occ: Bitboard, t: int) -> bool {
    &&& in_half(if rank_of(s) > 4 { Color::Black } else { Color::White }, t)
    &&& {
        ||| bishop_leap_has(s, occ, 2, 2, t)
        ||| bishop_leap_has(s, occ, 2, -2, t)
        ||| bishop_leap_has(s, occ, -2, -2, t)
        ||| bishop_leap_has(s, occ, -2, 2, t)
    }
}

/// One leap: `{leap_sq}` when it is on the board and `block` is not occupied.
fn leap(s: Square, occ: Bitboard, df: i8, dr: i8, bf: i8, br: i8) -> (b: Bitboard)
    requires
        s.valid(),
        -2 <= df <= 2,
        -2 <= dr <= 2,
        -2 <= bf <= 2,
        -2 <= br <= 2,
        bf == 0 || bf == df || bf * 2 == df,
        br == 0 || br == dr || br * 2 == dr,
    ensures
        forall|t: int| #[trigger]
            b.has(t) == (leap_ok(s.id(), df as int, dr as int) && t == leap_sq(
                s.id(),
                df as int,
                dr as int,
            ) && !occ.has(square_at(file_of(s.id()) + bf, rank_of(s.id()) + br))),
        b.wf(),
{
    let f: i8 = (s.raw() % 9) as i8;
    let r: i8 = (s.raw() / 9) as i8;
    let tf = f + df;
    let tr = r + dr;
    if tf < 0 || tf > 8 || tr < 0 || tr > 9 {
        return Bitboard::empty();
    }
    let lf = f + bf;
    let lr = r + br;
    let block = Square::from_raw_unchecked((lr as u8) * 9 + lf as u8);
    if occ.contains(block) {
        return Bitboard::empty();
    }
    Bitboard::from_square(Square::from_raw_unchecked((tr as u8) * 9 + tf as u8))
}

/// Squares a knight on `s` attacks given `occupied` (blocked at the leg).
pub fn lame_leaper_attack_knight(s: Square, occupied: Bitboard) -> (b: Bitboard)
    requires
        s.valid(),
    ensures
        forall|t: int| #[trigger] b.has(t) == knight_attack_has(s.id(), occupied, t),
        b.wf(),
{
    let b0 = leap(s, occupied, -1, -2, 0, -1);
    let b1 = leap(s, occupied, 1, -2, 0, -1);
    let b2 = leap(s, occupied, -2, -1, -1, 0);
    let b3 = leap(s, occupied, 2, -1, 1, 0);
    let b4 = leap(s, occupied, -2, 1, -1, 0);
    let b5 = leap(s, occupied, 2, 1, 1, 0);
    let b6 = leap(s, occupied, -1, 2, 0, 1);
    let b7 = leap(s, occupied, 1, 2, 0, 1);
    b0.or(b1).or(b2).or(b3).or(b4).or(b5).or(b6).or(b7)
}

/// The leg of the knight on the landing square, stepping back, seen from `s`.
proof fn lemma_knight_to_leg(s: int, df: int, dr: int)
    requires
        on_board(s),
        knight_offset(df, dr),
    ensures
        leap_ok(s, df, dr) ==> knight_leg(leap_sq(s, df, dr), -df, -dr) == if df == 2 || df
            == -2 {
            square_at(file_of(s) + df / 2, rank_of(s) + dr)
        } else {
            square_at(file_of(s) + df, rank_of(s) + dr / 2)
        },
{
}

/// Squares from which a knight would attack `s` given `occupied` (the leg
/// lies next to the knight, not next to `s`).
pub fn lame_leaper_attack_knight_to(s: Square, occupied: Bitboard) -> (b: Bitboard)
    requires
        s.valid(),
    ensures
        forall|t: int| #[trigger] b.has(t) == knight_to_attack_has(s.id(), occupied, t),
        b.wf(),
{
    proof {
        lemma_knight_to_leg(s.id(), -1, -2);
        lemma_knight_to_leg(s.id(), 1, -2);
        lemma_knight_to_leg(s.id(), -2, -1);
        lemma_knight_to_leg(s.id(), 2, -1);
        lemma_knight_to_leg(s.id(), -2, 1);
        lemma_knight_to_leg(s.id(), 2, 1);
        lemma_knight_to_leg(s.id(), -1, 2);
        lemma_knight_to_leg(s.id(), 1, 2);
    }
    let b0 = leap(s, occupied, -1, -2, -1, -1);
    let b1 = leap(s, occupied, 1, -2, 1, -1);
    let b2 = leap(s, occupied, -2, -1, -1, -1);
    let b3 = leap(s, occupied, 2, -1, 1, -1);
    let b4 = leap(s, occupied, -2, 1, -1, 1);
    let b5 = leap(s, occupied, 2, 1, 1, 1);
    let b6 = leap(s, occupied, -1, 2, -1, 1);
    let b7 = leap(s, occupied, 1, 2, 1, 1);
    b0.or(b1).or(b2).or(b3).or(b4).or(b5).or(b6).or(b7)
}

/// Squares a bishop on `s` attacks given `occupied` (blocked at the eye,
/// never crossing the river).
pub fn lame_leaper_attack_bishop(s: Square, occupied: Bitboard) -> (b: Bitboard)
    requires
        s.valid(),
    ensures
        forall|t: int| #[trigger] b.has(t) == bishop_attack_has(s.id(), occupied, t),
        b.wf(),
{
    let b0 = leap(s, occupied, 2, 2, 1, 1);
    let b1 = leap(s, occupied, 2, -2, 1, -1);
    let b2 = leap(s, occupied, -2, -2, -1, -1);
    let b3 = leap(s, occupied, -2, 2, -1, 1);
    let side = if s.raw() / 9 > 4 {
        Color::Black
    } else {
        Color::White
    };
    b0.or(b1).or(b2).or(b3).and(half_bb(side))
}

/// Rust's truncating remainder of `d` by 9.
pub open spec fn trunc_rem9(d: int) -> int {
    if d >= 0 {
        d % 9
    } else {
        -((-d) % 9)
    }
}

/// The square that blocks a lame leaper stepping `d` from `s`: one step
/// along the longer side of the leap, or one diagonal step when both sides
/// are equal (the knight's leg, the bishop's eye).
pub open spec fn lame_block(s: int, d: int) -> int {
    let to = s + d;
    let dr = if d > 0 {
        9int
    } else {
        -9int
    };
    let m = trunc_rem9(d);
    let ma = if -4 < m < 4 {
        m
    } else {
        -m
    };
    let df = if ma < 0 {
        -1int
    } else {
        1int
    };
    if file_dist(s, to) > rank_dist(s, to) {
        s + df
    } else if file_dist(s, to) < rank_dist(s, to) {
        s + dr
    } else {
        s + df + dr
    }
}

/// `t` blocks the lame leap `d` from `s`, the leap landing on the board
/// within three king moves.
pub open spec fn lame_path_has(s: int, d: int, t: int) -> bool {
    on_board(s + d) && sq_dist(s, s + d) <= 3 && on_board(lame_block(s, d)) && t == lame_block(
        s,
        d,
    )
}

/// For a knight or bishop leap, the square-number step gives the board
/// leap, and its blocking square is the leg or the eye.
pub proof fn lemma_lame_block_leap(s: int, df: int, dr: int)
    requires
        on_board(s),
        knight_offset(df, dr) || bishop_offset(df, dr),
    ensures
        (on_board(s + dr * 9 + df) && sq_dist(s, s + dr * 9 + df) <= 3) == leap_ok(s, df, dr),
        leap_ok(s, df, dr) ==> leap_sq(s, df, dr) == s + dr * 9 + df,
        leap_ok(s, df, dr) && knight_offset(df, dr) ==> lame_block(s, dr * 9 + df) == knight_leg(
            s,
            df,
            dr,
        ),
        leap_ok(s, df, dr) && bishop_offset(df, dr) ==> lame_block(s, dr * 9 + df) == bishop_eye(
            s,
            df,
            dr,
        ),
        leap_ok(s, df, dr) ==> on_board(knight_leg(s, df, dr)) && on_board(bishop_eye(s, df, dr)),
{
}

/// The blocking square of the step `d` from `s`, as a set.
fn lame_block_bb(s: Square, d: i16) -> (b: Bitboard)
    requires
        s.valid(),
        -200 < d < 200,
    ensures
        forall|t: int| #[trigger] b.has(t) == lame_path_has(s.id(), d as int, t),
        b.wf(),
{
    let to_raw: i16 = s.raw() as i16 + d;
    if to_raw < 0 || to_raw >= 90 {
        return Bitboard::empty();
    }
    let to = Square::from_raw_unchecked(to_raw as u8);
    if square_distance(s, to) > 3 {
        return Bitboard::empty();
    }
    let dr: i16 = if d > 0 {
        9
    } else {
        -9
    };
    let m: i16 = if d >= 0 {
        d % 9
    } else {
        -((-d) % 9)
    };
    let ma: i16 = if -4 < m && m < 4 {
        m
    } else {
        -m
    };
    let df: i16 = if ma < 0 {
        -1
    } else {
        1
    };
    let fd = file_distance(s, to);
    let rd = rank_distance(s, to);
    let block: i16 = if fd > rd {
        s.raw() as i16 + df
    } else if fd < rd {
        s.raw() as i16 + dr
    } else {
        s.raw() as i16 + df + dr
    };
    if block < 0 || block >= 90 {
        return Bitboard::empty();
    }
    Bitboard::from_square(Square::from_raw_unchecked(block as u8))
}

/// The square blocking the knight step `d` from `s` (its leg), when the step
/// lands on the board within three king moves.
pub fn lame_leaper_path_dir_knight(d: Direction, s: Square) -> (b: Bitboard)
    requires
        s.valid(),
    ensures
        forall|t: int| #[trigger] b.has(t) == lame_path_has(s.id(), d.0 as int, t),
        b.wf(),
{
    lame_block_bb(s, d.raw() as i16)
}

/// The square blocking the bishop step `d` from `s` (its eye), when the step
/// lands on the board within three king moves.
pub fn lame_leaper_path_dir_bishop(d: Direction, s: Square) -> (b: Bitboard)
    requires
        s.valid(),
    ensures
        forall|t: int| #[trigger] b.has(t) == lame_path_has(s.id(), d.0 as int, t),
        b.wf(),
{
    lame_block_bb(s, d.raw() as i16)
}

/// The leg of a knight standing on `s + d` and stepping back to `s`, when
/// that square is on the board within three king moves of `s`.
pub fn lame_leaper_path_dir_knight_to(d: Direction, s: Square) -> (b: Bitboard)
    requires
        s.valid(),
    ensures
        forall|t: int| #[trigger] b.has(t) == (on_board(s.id() + d.0) && lame_path_has(
            s.id() + d.0,
            -d.0,
            t,
        )),
        b.wf(),
{
    let to_raw: i16 = s.raw() as i16 + d.raw() as i16;
    if to_raw < 0 || to_raw >= 90 {
        return Bitboard::empty();
    }
    let to = Square::from_raw_unchecked(to_raw as u8);
    lame_block_bb(to, -(d.raw() as i16))
}

/// The legs of the eight knight leaps from `s` that land on the board.
pub open spec fn knight_path_has(s: int, t: int) -> bool {
    lame_path_has(s, -19, t) || lame_path_has(s, -17, t) || lame_path_has(s, -11, t) || lame_path_has(s, -7, t) || lame_path_has(s, 7, t) || lame_path_has(s, 11, t) || lame_path_has(s, 17, t) || lame_path_has(s, 19, t)
}

/// The legs of knights that could leap to `s`.
pub open spec fn knight_to_path_has(s: int, t: int) -> bool {
    (on_board(s + -19) && lame_path_has(s + -19, 19, t)) || (on_board(s + -17) && lame_path_has(s + -17, 17, t)) || (on_board(s + -11) && lame_path_has(s + -11, 11, t)) || (on_board(s + -7) && lame_path_has(s + -7, 7, t)) || (on_board(s + 7) && lame_path_has(s + 7, -7, t)) || (on_board(s + 11) && lame_path_has(s + 11, -11, t)) || (on_board(s + 17) && lame_path_has(s + 17, -17, t)) || (on_board(s + 19) && lame_path_has(s + 19, -19, t))
}

/// The eyes of the bishop leaps from `s`, kept on the half `s` lies in.
pub open spec fn bishop_path_has(s: int, t: int) -> bool {
    (lame_path_has(s, 20, t) || lame_path_has(s, -16, t) || lame_path_has(s, -20, t) || lame_path_has(s, 16, t)) && in_half(if rank_of(s) > 4 { Color::Black } else { Color::White }, t)
}

/// Every square that can block a knight on `s`.
pub fn lame_leaper_path_knight(s: Square) -> (b: Bitboard)
    requires
        s.valid(),
    ensures
        forall|t: int| #[trigger] b.has(t) == knight_path_has(s.id(), t),
        b.wf(),
{
    let b0 = lame_leaper_path_dir_knight(Direction(-19), s);
    let b1 = lame_leaper_path_dir_knight(Direction(-17), s);
    let b2 = lame_leaper_path_dir_knight(Direction(-11), s);
    let b3 = lame_leaper_path_dir_knight(Direction(-7), s);
    let b4 = lame_leaper_path_dir_knight(Direction(7), s);
    let b5 = lame_leaper_path_dir_knight(Direction(11), s);
    let b6 = lame_leaper_path_dir_knight(Direction(17), s);
    let b7 = lame_leaper_path_dir_knight(Direction(19), s);
    b0.or(b1).or(b2).or(b3).or(b4).or(b5).or(b6).or(b7)
}

/// Every square that can block a knight leaping to `s`.
pub fn lame_leaper_path_knight_to(s: Square) -> (b: Bitboard)
    requires
        s.valid(),
    ensures
        forall|t: int| #[trigger] b.has(t) == knight_to_path_has(s.id(), t),
        b.wf(),
{
    let b0 = lame_leaper_path_dir_knight_to(Direction(-19), s);
    let b1 = lame_leaper_path_dir_knight_to(Direction(-17), s);
    let b2 = lame_leaper_path_dir_knight_to(Direction(-11), s);
    let b3 = lame_leaper_path_dir_knight_to(Direction(-7), s);
    let b4 = lame_leaper_path_dir_knight_to(Direction(7), s);
    let b5 = lame_leaper_path_dir_knight_to(Direction(11), s);
    let b6 = lame_leaper_path_dir_knight_to(Direction(17), s);
    let b7 = lame_leaper_path_dir_knight_to(Direction(19), s);
    b0.or(b1).or(b2).or(b3).or(b4).or(b5).or(b6).or(b7)
}

/// Every square that can block a bishop on `s`.
pub fn lame_leaper_path_bishop(s: Square) -> (b: Bitboard)
    requires
        s.valid(),
    ensures
        forall|t: int| #[trigger] b.has(t) == bishop_path_has(s.id(), t),
        b.wf(),
{
    let b0 = lame_leaper_path_dir_bishop(Direction(20), s);
    let b1 = lame_leaper_path_dir_bishop(Direction(-16), s);
    let b2 = lame_leaper_path_dir_bishop(Direction(-20), s);
    let b3 = lame_leaper_path_dir_bishop(Direction(16), s);
    let side = if s.raw() / 9 > 4 {
        Color::Black
    } else {
        Color::White
    };
    b0.or(b1).or(b2).or(b3).and(half_bb(side))
}

/// A pawn of color `c` on `s` has crossed the river.
pub open spec fn crossed_river(c: Color, s: int) -> bool {
    if c == Color::White {
        rank_of(s) > 4
    } else {
        rank_of(s) < 5
    }
}

/// A pawn of color `c` on `s` attacks `t`: one step forward, or one step
/// sideways once across the river.
pub open spec fn pawn_attack_has(c: Color, s: int, t: int) -> bool {
    &&& on_board(t)
    &&& {
        ||| (file_of(t) == file_of(s) && rank_of(t) == rank_of(s) + if c == Color::White {
            1int
        } else {
            -1int
        })
        ||| (crossed_river(c, s) && rank_of(t) == rank_of(s) && (file_of(t) == file_of(s) + 1
            || file_of(t) == file_of(s) - 1))
    }
}

/// The empty occupancy.
pub open spec fn no_pieces() -> Bitboard {
    Bitboard(0)
}

/// Squares a pawn of color `c` on `sq` attacks.
pub fn pawn_attacks_bb(c: Color, sq: Square) -> (b: Bitboard)
    requires
        sq.valid(),
    ensures
        forall|t: int| #[trigger] b.has(t) == pawn_attack_has(c, sq.id(), t),
        b.wf(),
{
    let e = Bitboard::empty();
    let rank = sq.raw() / 9;
    match c {
        Color::White => {
            let fwd = leap(sq, e, 0, 1, 0, 0);
            if rank > 4 {
                fwd.or(leap(sq, e, -1, 0, 0, 0)).or(leap(sq, e, 1, 0, 0, 0))
            } else {
                fwd
            }
        },
        Color::Black => {
            let fwd = leap(sq, e, 0, -1, 0, 0);
            if rank < 5 {
                fwd.or(leap(sq, e, -1, 0, 0, 0)).or(leap(sq, e, 1, 0, 0, 0))
            } else {
                fwd
            }
        },
    }
}

/// Squares from which a pawn of color `c` attacks `sq`.
pub fn pawn_attacks_to_bb(c: Color, sq: Square) -> (b: Bitboard)
    requires
        sq.valid(),
    ensures
        forall|t: int| #[trigger] b.has(t) == (on_board(t) && pawn_attack_has(c, t, sq.id())),
        b.wf(),
{
    let e = Bitboard::empty();
    let rank = sq.raw() / 9;
    match c {
        Color::White => {
            let back = leap(sq, e, 0, -1, 0, 0);
            if rank > 4 {
                back.or(leap(sq, e, -1, 0, 0, 0)).or(leap(sq, e, 1, 0, 0, 0))
            } else {
                back
            }
        },
        Color::Black => {
            let back = leap(sq, e, 0, 1, 0, 0);
            if rank < 5 {
                back.or(leap(sq, e, -1, 0, 0, 0)).or(leap(sq, e, 1, 0, 0, 0))
            } else {
                back
            }
        },
    }
}

/// One orthogonal step.
pub open spec fn king_step(s: int, t: int) -> bool {
    on_board(t) && ((file_of(t) == file_of(s) && abs_diff(rank_of(t), rank_of(s)) == 1) || (
    rank_of(t) == rank_of(s) && abs_diff(file_of(t), file_of(s)) == 1))
}

/// One diagonal step.
pub open spec fn advisor_step(s: int, t: int) -> bool {
    on_board(t) && abs_diff(file_of(t), file_of(s)) == 1 && abs_diff(rank_of(t), rank_of(s)) == 1
}

/// The orthogonal neighbours of `sq`, palace or not.
pub fn king_steps(sq: Square) -> (b: Bitboard)
    requires
        sq.valid(),
    ensures
        forall|t: int| #[trigger] b.has(t) == king_step(sq.id(), t),
        b.wf(),
{
    let e = Bitboard::empty();
    leap(sq, e, 0, 1, 0, 0).or(leap(sq, e, 0, -1, 0, 0)).or(leap(sq, e, 1, 0, 0, 0)).or(
        leap(sq, e, -1, 0, 0, 0),
    )
}

/// The diagonal neighbours of `sq`, palace or not.
#[verifier::rlimit(40)]
pub fn advisor_steps(sq: Square) -> (b: Bitboard)
    requires
        sq.valid(),
    ensures
        forall|t: int| #[trigger] b.has(t) == advisor_step(sq.id(), t),
        b.wf(),
{
    let e = Bitboard::empty();
    leap(sq, e, 1, 1, 0, 0).or(leap(sq, e, 1, -1, 0, 0)).or(leap(sq, e, -1, 1, 0, 0)).or(
        leap(sq, e, -1, -1, 0, 0),
    )
}

/// Number of rows of the unobstructed-attack table.
pub const PSEUDO_ATTACKS_SIZE: usize = 11;

/// Row `slot` of the unobstructed-attack table, for the square `s`. Rows are
/// indexed by piece-type slot; the spare slots hold the white pawn (0), the
/// unconstrained advisor (3, the cannon slot), the pawn-attackers (8 white,
/// 9 black) and the unconstrained king (10). The pawn slot (4) holds the
/// black pawn.
pub open spec fn pseudo_attack_has(slot: int, s: int, t: int) -> bool {
    if slot == 0 {
        pawn_attack_has(Color::White, s, t)
    } else if slot == 1 {
        rook_attack_has(s, no_pieces(), t)
    } else if slot == 2 {
        in_palace(s) && in_palace(t) && advisor_step(s, t)
    } else if slot == 3 {
        advisor_step(s, t)
    } else if slot == 4 {
        pawn_attack_has(Color::Black, s, t)
    } else if slot == 5 {
        knight_attack_has(s, no_pieces(), t)
    } else if slot == 6 {
        bishop_attack_has(s, no_pieces(), t)
    } else if slot == 7 {
        in_palace(s) && in_palace(t) && king_step(s, t)
    } else if slot == 8 {
        on_board(t) && pawn_attack_has(Color::White, t, s)
    } else if slot == 9 {
        on_board(t) && pawn_attack_has(Color::Black, t, s)
    } else {
        king_step(s, t)
    }
}

/// One entry of the unobstructed-attack table.
fn pseudo_entry(slot: usize, s: Square) -> (b: Bitboard)
    requires
        slot < PSEUDO_ATTACKS_SIZE,
        s.valid(),
    ensures
        forall|t: int| #[trigger] b.has(t) == pseudo_attack_has(slot as int, s.id(), t),
        b.wf(),
{
    let e = Bitboard::empty();
    let in_pal = palace().contains(s);
    if slot == 0 {
        pawn_attacks_bb(Color::White, s)
    } else if slot == 1 {
        sliding_attack_rook(s, e)
    } else if slot == 2 {
        if in_pal {
            advisor_steps(s).and(palace())
        } else {
            e
        }
    } else if slot == 3 {
        advisor_steps(s)
    } else if slot == 4 {
        pawn_attacks_bb(Color::Black, s)
    } else if slot == 5 {
        lame_leaper_attack_knight(s, e)
    } else if slot == 6 {
        lame_leaper_attack_bishop(s, e)
    } else if slot == 7 {
        if in_pal {
            king_steps(s).and(palace())
        } else {
            e
        }
    } else if slot == 8 {
        pawn_attacks_to_bb(Color::White, s)
    } else if slot == 9 {
        pawn_attacks_to_bb(Color::Black, s)
    } else {
        king_steps(s)
    }
}

/// Attacks on an empty board, by piece-type slot and square; see
/// `pseudo_attack_has` for the meaning of each row. Row `slot` of square `s`
/// is entry `slot * 90 + s`.
pub struct PseudoAttacksTable {
    pub table: Vec<Bitboard>,
}

impl PseudoAttacksTable {
    pub open spec fn wf(&self) -> bool {
        &&& self.table.len() == PSEUDO_ATTACKS_SIZE * 90
        &&& forall|slot: int, s: int, t: int|
            0 <= slot < 11 && 0 <= s < 90 ==> (#[trigger] self.table@[slot * 90 + s].has(t)
                == pseudo_attack_has(slot, s, t))
        &&& forall|i: int| 0 <= i < self.table.len() ==> #[trigger] self.table@[i].wf()
    }

    pub fn new() -> (r: Self)
        ensures
            r.wf(),
    {
        let mut table: Vec<Bitboard> = Vec::new();
        let mut slot: usize = 0;
        while slot < PSEUDO_ATTACKS_SIZE
            invariant
                slot <= PSEUDO_ATTACKS_SIZE,
                table.len() == slot * 90,
                forall|sl: int, s: int, t: int|
                    0 <= sl < slot && 0 <= s < 90 ==> (#[trigger] table@[sl * 90 + s].has(t)
                        == pseudo_attack_has(sl, s, t)),
                forall|i: int| 0 <= i < table.len() ==> #[trigger] table@[i].wf(),
            decreases PSEUDO_ATTACKS_SIZE - slot,
        {
            let mut i: u8 = 0;
            while i < 90
                invariant
                    slot < PSEUDO_ATTACKS_SIZE,
                    i <= 90,
                    table.len() == slot * 90 + i,
                    forall|sl: int, s: int, t: int|
                        0 <= sl < slot && 0 <= s < 90 ==> (#[trigger] table@[sl * 90 + s].has(t)
                            == pseudo_attack_has(sl, s, t)),
                    forall|s: int, t: int|
                        0 <= s < i ==> (#[trigger] table@[slot * 90 + s].has(t)
                            == pseudo_attack_has(slot as int, s, t)),
                    forall|j: int| 0 <= j < table.len() ==> #[trigger] table@[j].wf(),
                decreases 90 - i,
            {
                let sq = Square::from_raw_unchecked(i);
                let entry = pseudo_entry(slot, sq);
                let ghost old_table = table@;
                table.push(entry);
                proof {
                    assert forall|sl: int, s: int, t: int|
                        0 <= sl < slot && 0 <= s < 90 implies (#[trigger] table@[sl * 90 + s].has(
                            t,
                        ) == pseudo_attack_has(sl, s, t)) by {
                        assert(sl * 90 + s < slot * 90) by (nonlinear_arith)
                            requires
                                0 <= sl < slot,
                                0 <= s < 90,
                        ;
                        assert(table@[sl * 90 + s] == old_table[sl * 90 + s]);
                    }
                    assert forall|s: int, t: int|
                        0 <= s < i + 1 implies (#[trigger] table@[slot * 90 + s].has(t)
                            == pseudo_attack_has(slot as int, s, t)) by {
                        if s < i {
                            assert(table@[slot * 90 + s] == old_table[slot * 90 + s]);
                        }
                    }
                }
                i = i + 1;
            }
            proof {
                assert forall|sl: int, s: int, t: int|
                    0 <= sl < slot + 1 && 0 <= s < 90 implies (#[trigger] table@[sl * 90 + s].has(
                        t,
                    ) == pseudo_attack_has(sl, s, t)) by {
                    if sl == slot {
                        assert(table@[slot * 90 + s].has(t) == pseudo_attack_has(
                            slot as int,
                            s,
                            t,
                        ));
                    }
                }
            }
            slot = slot + 1;
        }
        PseudoAttacksTable { table }
    }

    /// Row `pt.index()` for `sq`: unobstructed attacks of that piece type
    /// (the pawn row holds black's pawn, the cannon row the unconstrained
    /// advisor).
    pub fn get(&self, pt: PieceType, sq: Square) -> (b: Bitboard)
        requires
            self.wf(),
            sq.valid(),
        ensures
            forall|t: int| #[trigger] b.has(t) == pseudo_attack_has(pt.id(), sq.id(), t),
            b.wf(),
    {
        self.table[pt.index() * 90 + sq.index()]
    }

    /// Squares a pawn of color `c` on `sq` attacks.
    pub fn pawn_attacks(&self, c: Color, sq: Square) -> (b: Bitboard)
        requires
            self.wf(),
            sq.valid(),
        ensures
            forall|t: int| #[trigger] b.has(t) == pawn_attack_has(c, sq.id(), t),
            b.wf(),
    {
        proof {
            assert(self.table@[0 * 90 + sq.id()] == self.table@[sq.id()]);
        }
        match c {
            Color::White => self.table[sq.index()],
            Color::Black => self.table[4 * 90 + sq.index()],
        }
    }

    /// Squares from which a pawn of color `c` attacks `sq`.
    pub fn pawn_attacks_to(&self, c: Color, sq: Square) -> (b: Bitboard)
        requires
            self.wf(),
            sq.valid(),
        ensures
            forall|t: int| #[trigger] b.has(t) == (on_board(t) && pawn_attack_has(c, t, sq.id())),
            b.wf(),
    {
        match c {
            Color::White => self.table[8 * 90 + sq.index()],
            Color::Black => self.table[9 * 90 + sq.index()],
        }
    }

    /// Orthogonal neighbours of `sq`, ignoring the palace.
    pub fn unconstrained_king(&self, sq: Square) -> (b: Bitboard)
        requires
            self.wf(),
            sq.valid(),
        ensures
            forall|t: int| #[trigger] b.has(t) == king_step(sq.id(), t),
            b.wf(),
    {
        self.table[10 * 90 + sq.index()]
    }

    /// Diagonal neighbours of `sq`, ignoring the palace.
    pub fn unconstrained_advisor(&self, sq: Square) -> (b: Bitboard)
        requires
            self.wf(),
            sq.valid(),
        ensures
            forall|t: int| #[trigger] b.has(t) == advisor_step(sq.id(), t),
            b.wf(),
    {
        self.table[3 * 90 + sq.index()]
    }
}

/// `a` and `b` are distinct board squares sharing a file or a rank.
pub open spec fn orth_aligned(a: int, b: int) -> bool {
    on_board(a) && on_board(b) && a != b && (file_of(a) == file_of(b) || rank_of(a) == rank_of(b))
}

/// How many steps along the orthogonal direction `(df, dr)` square `x`
/// lies from `s`.
pub open spec fn along(s: int, df: int, dr: int, x: int) -> int {
    if df > 0 {
        file_of(x) - file_of(s)
    } else if df < 0 {
        file_of(s) - file_of(x)
    } else if dr > 0 {
        rank_of(x) - rank_of(s)
    } else {
        rank_of(s) - rank_of(x)
    }
}

/// `x` lies on the ray from `s` in the orthogonal direction `(df, dr)`.
pub open spec fn on_ray(s: int, df: int, dr: int, x: int) -> bool {
    &&& on_board(x)
    &&& df == 0 ==> file_of(x) == file_of(s)
    &&& dr == 0 ==> rank_of(x) == rank_of(s)
    &&& along(s, df, dr, x) > 0
}

/// With one occupied square `b`, a rook on `s` reaches along a ray every
/// square of the ray up to `b` (included), and all of it when `b` is not
/// on it.
pub proof fn lemma_rook_ray_one_blocker(s: int, b: int, df: int, dr: int, t: int)
    requires
        on_board(s),
        on_board(b),
        orth_dir(df, dr),
    ensures
        rook_ray_has(s, sq_set(b), df, dr, t) <==> (on_ray(s, df, dr, t) && !(on_ray(s, df, dr, b) && along(
            s,
            df,
            dr,
            b,
        ) < along(s, df, dr, t))),
{
    let occ = sq_set(b);
    assert(b == rank_of(b) * 9 + file_of(b));
    if rook_ray_has(s, occ, df, dr, t) {
        let k = choose|k: int|
            1 <= k && ray_ok(s, df, dr, k) && t == #[trigger] ray_sq(s, df, dr, k) && ray_empty(s, df, dr, 1, k, occ);
        lemma_ray_sq_on_board(s, df, dr, k);
        assert(along(s, df, dr, t) == k);
        if on_ray(s, df, dr, b) && along(s, df, dr, b) < k {
            let i = along(s, df, dr, b);
            lemma_ray_ok_between(s, df, dr, i, k);
            lemma_ray_sq_on_board(s, df, dr, i);
            assert(ray_sq(s, df, dr, i) == b);
            lemma_sq_set(b, b);
            assert(!occ.has(ray_sq(s, df, dr, i)));
        }
    }
    if on_ray(s, df, dr, t) && !(on_ray(s, df, dr, b) && along(s, df, dr, b) < along(s, df, dr, t)) {
        let k = along(s, df, dr, t);
        assert(t == rank_of(t) * 9 + file_of(t));
        assert(ray_ok(s, df, dr, k));
        lemma_ray_sq_on_board(s, df, dr, k);
        assert(ray_sq(s, df, dr, k) == t);
        assert forall|i: int| 1 <= i < k implies !#[trigger] occ.has(ray_sq(s, df, dr, i)) by {
            lemma_ray_ok_between(s, df, dr, i, k);
            lemma_ray_sq_on_board(s, df, dr, i);
            lemma_sq_set(b, ray_sq(s, df, dr, i));
            if ray_sq(s, df, dr, i) == b {
                assert(along(s, df, dr, b) == i);
            }
        }
        assert(ray_empty(s, df, dr, 1, k, occ));
    }
}

/// On an empty board a rook attacks the other squares of its file and rank.
pub proof fn lemma_rook_empty(s: int, t: int)
    requires
        on_board(s),
    ensures
        rook_attack_has(s, no_pieces(), t) == orth_aligned(s, t),
{
    broadcast use group_bits;

    let e = no_pieces();
    if orth_aligned(s, t) {
        if file_of(t) == file_of(s) && rank_of(t) > rank_of(s) {
            let k = rank_of(t) - rank_of(s);
            assert(ray_sq(s, 0, 1, k) == t);
            assert(ray_empty(s, 0, 1, 1, k, e));
            assert(rook_ray_has(s, e, 0, 1, t));
        } else if file_of(t) == file_of(s) {
            let k = rank_of(s) - rank_of(t);
            assert(ray_sq(s, 0, -1, k) == t);
            assert(ray_empty(s, 0, -1, 1, k, e));
            assert(rook_ray_has(s, e, 0, -1, t));
        } else if file_of(t) > file_of(s) {
            let k = file_of(t) - file_of(s);
            assert(ray_sq(s, 1, 0, k) == t);
            assert(ray_empty(s, 1, 0, 1, k, e));
            assert(rook_ray_has(s, e, 1, 0, t));
        } else {
            let k = file_of(s) - file_of(t);
            assert(ray_sq(s, -1, 0, k) == t);
            assert(ray_empty(s, -1, 0, 1, k, e));
            assert(rook_ray_has(s, e, -1, 0, t));
        }
    }
    if rook_attack_has(s, e, t) {
        if rook_ray_has(s, e, 0, 1, t) {
            let k = choose|k: int|
                1 <= k && ray_ok(s, 0, 1, k) && t == #[trigger] ray_sq(s, 0, 1, k) && ray_empty(
                    s,
                    0,
                    1,
                    1,
                    k,
                    e,
                );
        } else if rook_ray_has(s, e, 0, -1, t) {
            let k = choose|k: int|
                1 <= k && ray_ok(s, 0, -1, k) && t == #[trigger] ray_sq(s, 0, -1, k) && ray_empty(
                    s,
                    0,
                    -1,
                    1,
                    k,
                    e,
                );
        } else if rook_ray_has(s, e, 1, 0, t) {
            let k = choose|k: int|
                1 <= k && ray_ok(s, 1, 0, k) && t == #[trigger] ray_sq(s, 1, 0, k) && ray_empty(
                    s,
                    1,
                    0,
                    1,
                    k,
                    e,
                );
        } else {
            let k = choose|k: int|
                1 <= k && ray_ok(s, -1, 0, k) && t == #[trigger] ray_sq(s, -1, 0, k) && ray_empty(
                    s,
                    -1,
                    0,
                    1,
                    k,
                    e,
                );
        }
    }
}

} // verus!
