//! Chase detection: the enemy pieces one side keeps attacking, and the
//! ruling on a repetition in which one side chases.

use vstd::prelude::*;

use super::do_move::{
    board_after_move, board_after_unmove, lemma_kings_after_move, lemma_kings_after_put,
    lemma_undo_chase_restores,
};
use super::state::StateInfo;
use super::legality::{piece_attacks, piece_checks};
use super::position::{Position, is_piece};
use crate::bitboard::attacks::{
    advisor_step, bishop_attack_has, cannon_attack_has, king_step, knight_attack_has,
    pawn_attack_has, rook_attack_has,
};
use crate::bitboard::lines::between_has;
use crate::bitboard::tables::{in_half, in_palace};
use crate::bitboard::{
    Bitboard, attacks_bb_bishop, attacks_bb_cannon, attacks_bb_knight, attacks_bb_rook, between_bb,
    half_bb, pawn_attacks_bb,
};
use crate::types::{
    Color, Move, Piece, PieceType, Square, VALUE_DRAW, VALUE_MATE, Value, mate_in, mate_in_spec,
    mated_in, mated_in_spec, make_piece,
};

verus! {

/// In `q`, a piece of the side to move attacks `to` and could take there
/// without exposing its king.
pub open spec fn recapture_exists(q: Position, to: int) -> bool {
    exists|s: int|
        0 <= s < 90 && q.board[s] != Piece::NONE && q.board[s].color_of() == q.side_to_move
            && piece_attacks(q.board[s], s, to, q.occ()) && #[trigger] q.chase_legal_spec(
            q.side_to_move,
            s,
            to,
        )
}

/// Once `m` has taken the piece on its destination in `p`, the other side
/// could take back there exactly when `r` holds.
pub open spec fn recapture_after(p: Position, m: Move, r: bool) -> bool {
    exists|q: Position|
        #[trigger] p.pieces_moved(&q, m.from_id(), m.to_id()) && q.valid() && q.side_to_move
            == p.side_to_move.opp() && (r <==> recapture_exists(q, m.to_id()))
}

/// A piece of type `pt` and color `c` on `s` attacks `t`, given the
/// occupancy `occ`.
pub open spec fn attacks_from(pt: PieceType, c: Color, s: int, occ: Bitboard, t: int) -> bool {
    match pt {
        PieceType::Rook => rook_attack_has(s, occ, t),
        PieceType::Cannon => cannon_attack_has(s, occ, t),
        PieceType::Knight => knight_attack_has(s, occ, t),
        PieceType::Bishop => bishop_attack_has(s, occ, t),
        PieceType::Advisor => advisor_step(s, t) && in_palace(t),
        PieceType::King => king_step(s, t) && in_palace(t),
        PieceType::Pawn => pawn_attack_has(c, s, t),
    }
}

/// Bit `k` of `x` is set.
pub open spec fn bit16(x: u16, k: int) -> bool {
    (x >> (k as u16)) & 1u16 == 1u16
}

proof fn lemma_bit16_zero(j: u16)
    requires
        j < 16,
    ensures
        !bit16(0u16, j as int),
{
    assert((0u16 >> j) & 1u16 == 0u16) by (bit_vector);
}

proof fn lemma_bit16_set(x: u16, k: u16, j: u16)
    requires
        k < 16,
        j < 16,
    ensures
        bit16(x | (1u16 << k), j as int) == (bit16(x, j as int) || j == k),
{
    assert((((x | (1u16 << k)) >> j) & 1u16 == 1u16) == ((((x >> j) & 1u16) == 1u16) || j == k))
        by (bit_vector)
        requires
            k < 16,
            j < 16,
    ;
}

impl Position {
    /// Every square carries a piece number below 16.
    pub open spec fn ids_in_range(&self) -> bool {
        forall|s: int| 0 <= s < 90 ==> 0 <= #[trigger] self.id_board[s] < 16
    }

    /// The occupancy once the piece on `from` stands on `to`.
    pub open spec fn chase_occ(&self, from: int, to: int) -> Bitboard {
        Bitboard((self.occ().0 ^ (1u128 << (from as u128))) | (1u128 << (to as u128)))
    }

    /// Moving the piece on `from` to `to` leaves the king of `us` out of
    /// check: a king's destination is not attacked, and any other move
    /// leaves no checker but one standing on `to`.
    pub open spec fn chase_legal_spec(&self, us: Color, from: int, to: int) -> bool {
        let occ = self.chase_occ(from, to);
        if self.board[from].type_of() == PieceType::King {
            forall|t: int|
                0 <= t < 90 ==> !#[trigger] piece_checks(self.board[t], us.opp(), t, to, occ)
        } else {
            forall|t: int|
                0 <= t < 90 && t != to ==> !#[trigger] piece_checks(
                    self.board[t],
                    us.opp(),
                    t,
                    self.king_sq(us),
                    occ,
                )
        }
    }

    /// The piece of `c` on `from`, neither king nor pawn, attacks the enemy
    /// piece on `to`, not a king, and could take it without exposing its
    /// own king.
    pub open spec fn chase_witness(&self, c: Color, from: int, to: int) -> bool {
        &&& 0 <= from < 90
        &&& 0 <= to < 90
        &&& self.board[from] != Piece::NONE
        &&& self.board[from].color_of() == c
        &&& self.board[from].type_of() != PieceType::King
        &&& self.board[from].type_of() != PieceType::Pawn
        &&& attacks_from(self.board[from].type_of(), c, from, self.occ(), to)
        &&& self.board[to] != Piece::NONE
        &&& self.board[to].color_of() == c.opp()
        &&& self.board[to].type_of() != PieceType::King
        &&& self.chase_legal_spec(c, from, to)
    }

    /// The squares that `c`'s piece on `from` is looked at against: those it
    /// attacks that hold a pinner of its own king when it is pinned (kings
    /// aside), otherwise enemy pieces other than king and pawn, and enemy
    /// pawns that have crossed into `c`'s half.
    pub open spec fn chase_target(&self, c: Color, from: int, to: int) -> bool {
        let q = self.board[to];
        &&& 0 <= to < 90
        &&& attacks_from(self.board[from].type_of(), c, from, self.occ(), to)
        &&& if self.state.blockers_for_king[c.id()].has(from) {
            self.state.pinners[c.opp().id()].has(to) && !(q != Piece::NONE && q.type_of()
                == PieceType::King)
        } else {
            ||| (q != Piece::NONE && q.color_of() == c.opp() && !is_piece(q, c.opp(), PieceType::King)
                && !is_piece(q, c.opp(), PieceType::Pawn))
            ||| (is_piece(q, c.opp(), PieceType::Pawn) && in_half(c, to))
        }
    }

    /// A square strictly between `from` and `to` (on the line or the
    /// knight's leg) is occupied.
    pub open spec fn knight_leg_blocked(&self, from: int, to: int) -> bool {
        exists|t: int| (between_has(from, to, t) != (t == to)) && #[trigger] self.occ().has(t)
    }

    /// Once the piece on `from` has taken the one on `to`, the other side
    /// could not take back there.
    pub open spec fn no_recapture(&self, c: Color, from: int, to: int) -> bool {
        exists|q: Position|
            #[trigger] self.pieces_moved(&q, from, to) && q.valid() && q.side_to_move == c.opp()
                && !recapture_exists(q, to)
    }

    /// `c` counts the enemy piece on `to` as chased by its piece on `from`:
    /// the attacker is neither king nor pawn, the target is one it is looked
    /// at against and it could take it legally, and either a knight or
    /// cannon attacks a rook, or a bishop or advisor attacks a rook, cannon
    /// or knight, or the piece could not be taken back and, when both are of
    /// one type, the target could not answer by taking the attacker (a
    /// knight's blocked leg counts as such).
    pub open spec fn chase_counts(&self, c: Color, from: int, to: int) -> bool {
        let at = self.board[from].type_of();
        let tt = self.board[to].type_of();
        &&& 0 <= from < 90
        &&& self.board[from] != Piece::NONE
        &&& self.board[from].color_of() == c
        &&& at != PieceType::King
        &&& at != PieceType::Pawn
        &&& self.chase_target(c, from, to)
        &&& self.board[to] != Piece::NONE
        &&& self.board[to].color_of() != c
        &&& self.chase_legal_spec(c, from, to)
        &&& {
            ||| (at == PieceType::Knight || at == PieceType::Cannon) && tt == PieceType::Rook
            ||| (at == PieceType::Advisor || at == PieceType::Bishop) && tt.id() % 2 == 1
            ||| self.no_recapture(c, from, to) && (at != tt || (at == PieceType::Knight
                && self.knight_leg_blocked(from, to)) || !self.chase_legal_spec(c.opp(), to, from))
        }
    }

    /// The bits set in `x` are exactly the numbers (by `id_board`) of the
    /// pieces that `c` chases, as `chase_counts` says.
    pub open spec fn chase_exact(&self, c: Color, x: u16) -> bool {
        forall|k: int|
            0 <= k < 16 ==> (#[trigger] bit16(x, k) <==> exists|from: int, to: int|
                #[trigger] self.chase_counts(c, from, to) && self.id_board[to] == k)
    }

    /// Each bit set in `x` numbers (by `id_board`) a piece that `c` attacks
    /// as `chase_witness` says.
    pub open spec fn chase_sound(&self, c: Color, x: u16) -> bool {
        forall|k: int|
            0 <= k < 16 && #[trigger] bit16(x, k) ==> exists|from: int, to: int|
                #[trigger] self.chase_witness(c, from, to) && self.id_board[to] == k
    }

    /// Board, counts, state and history of `self` are those of `p`, and
    /// `c` is to move.
    pub open spec fn chase_frame(&self, p: &Position, c: Color) -> bool {
        &&& self.valid()
        &&& self.board == p.board
        &&& self.by_type_bb == p.by_type_bb
        &&& self.by_color_bb == p.by_color_bb
        &&& self.piece_count == p.piece_count
        &&& self.mid_encoding_val == p.mid_encoding_val
        &&& self.id_board == p.id_board
        &&& self.game_ply == p.game_ply
        &&& self.state == p.state
        &&& self.state_stack@ == p.state_stack@
        &&& self.bloom_filter.table@ == p.bloom_filter.table@
        &&& self.same_keys(p)
        &&& self.side_to_move == c
    }

    /// Squares attacked by a piece of type `pt` and color `c` on `sq`.
    fn attacks_bb_by_type(&self, pt: PieceType, c: Color, sq: Square) -> (b: Bitboard)
        requires
            self.wf(),
            sq.valid(),
        ensures
            b.wf(),
            forall|t: int| #[trigger] b.has(t) == attacks_from(pt, c, sq.id(), self.occ(), t),
    {
        let occupied = self.all_pieces();
        match pt {
            PieceType::Rook => attacks_bb_rook(sq, occupied),
            PieceType::Cannon => attacks_bb_cannon(sq, occupied),
            PieceType::Knight => attacks_bb_knight(sq, occupied),
            PieceType::Bishop => attacks_bb_bishop(sq, occupied),
            PieceType::Advisor => self.pseudo_attacks_advisor(sq),
            PieceType::King => self.pseudo_attacks_king(sq),
            PieceType::Pawn => pawn_attacks_bb(c, sq),
        }
    }

    /// The squares that the pieces of type `pt` and color `c` attack.
    pub fn attacks_by(&self, pt: PieceType, c: Color) -> (b: Bitboard)
        requires
            self.wf(),
        ensures
            b.wf(),
            forall|t: int|
                #[trigger] b.has(t) == exists|s: int|
                    0 <= s < 90 && self.board[s] == make_piece(c, pt) && attacks_from(pt, c, s, self.occ(), t),
    {
        let pc = Piece::make(c, pt);
        let mut threats = Bitboard::empty();
        let mut i: u8 = 0;
        while i < 90
            invariant
                self.wf(),
                pc == make_piece(c, pt),
                i <= 90,
                threats.wf(),
                forall|t: int|
                    #[trigger] threats.has(t) == exists|s: int|
                        0 <= s < i && self.board[s] == pc && attacks_from(pt, c, s, self.occ(), t),
            decreases 90 - i,
        {
            let sq = Square::from_raw_unchecked(i);
            if self.piece_on(sq) == pc {
                let a = self.attacks_bb_by_type(pt, c, sq);
                let ghost old_threats = threats;
                threats = threats.or(a);
                proof {
                    assert forall|t: int|
                        #[trigger] threats.has(t) == exists|s: int|
                            0 <= s < i + 1 && self.board[s] == pc && attacks_from(pt, c, s, self.occ(), t) by {
                        if a.has(t) {
                            assert(attacks_from(pt, c, i as int, self.occ(), t));
                        }
                        if exists|s: int| 0 <= s < i + 1 && self.board[s] == pc && attacks_from(pt, c, s, self.occ(), t) {
                            let s = choose|s: int| 0 <= s < i + 1 && self.board[s] == pc && attacks_from(pt, c, s, self.occ(), t);
                            if s < i {
                                assert(old_threats.has(t));
                            }
                        }
                    }
                }
            } else {
                proof {
                    assert forall|t: int|
                        #[trigger] threats.has(t) == exists|s: int|
                            0 <= s < i + 1 && self.board[s] == pc && attacks_from(pt, c, s, self.occ(), t) by {
                        if exists|s: int| 0 <= s < i + 1 && self.board[s] == pc && attacks_from(pt, c, s, self.occ(), t) {
                            let s = choose|s: int| 0 <= s < i + 1 && self.board[s] == pc && attacks_from(pt, c, s, self.occ(), t);
                            assert(s < i);
                        }
                    }
                }
            }
            i = i + 1;
        }
        threats
    }

    /// Whether `m` would leave the mover's king out of check.
    fn chase_legal(&self, m: Move) -> (r: bool)
        requires
            self.valid(),
            m.well_formed(),
            self.board[m.from_id()] != Piece::NONE,
        ensures
            r == self.chase_legal_spec(self.side_to_move, m.from_id(), m.to_id()),
    {
        let us = self.side_to_move;
        let from = m.from_sq();
        let to = m.to_sq();
        let occupied = self.all_pieces().xor(Bitboard::from_square(from)).or(
            Bitboard::from_square(to),
        );
        proof {
            assert(occupied == self.chase_occ(from.id(), to.id()));
        }
        if self.piece_on(from).piece_type() == PieceType::King {
            let b = self.checkers_to(us.flip(), to, occupied);
            proof {
                b.lemma_empty_iff();
                if b.0 != 0 {
                    let t = choose|t: int| b.has(t);
                    crate::bitboard::bitboard::lemma_board_bits(b.0, t);
                    assert(piece_checks(self.board[t], us.opp(), t, to.id(), occupied));
                } else {
                    assert forall|t: int| 0 <= t < 90 implies !#[trigger] piece_checks(
                        self.board[t],
                        us.opp(),
                        t,
                        to.id(),
                        occupied,
                    ) by {
                        assert(!b.has(t));
                    }
                }
            }
            return b.is_empty();
        }
        let ksq = self.king_square(us);
        let b = self.checkers_to(us.flip(), ksq, occupied).and(
            Bitboard::from_square(to).complement(),
        );
        proof {
            b.lemma_empty_iff();
            if b.0 != 0 {
                let t = choose|t: int| b.has(t);
                crate::bitboard::bitboard::lemma_board_bits(b.0, t);
                assert(piece_checks(self.board[t], us.opp(), t, ksq.id(), occupied) && t != to.id());
            } else {
                assert forall|t: int| 0 <= t < 90 && t != to.id() implies !#[trigger] piece_checks(
                    self.board[t],
                    us.opp(),
                    t,
                    ksq.id(),
                    occupied,
                ) by {
                    assert(!b.has(t));
                }
            }
        }
        b.is_empty()
    }

    /// Whether, once `m` has taken the piece on its destination, the other
    /// side could legally take back there. The position is left as it was.
    fn can_recapture(&mut self, m: Move) -> (r: bool)
        requires
            old(self).valid(),
            old(self).can_make(m),
            old(self).board[m.to_id()] != Piece::NONE,
        ensures
            final(self).chase_frame(old(self), old(self).side_to_move),
            recapture_after(*old(self), m, r),
    {
        let ghost before: Position = *self;
        let to = m.to_sq();
        let (captured, cid) = self.do_move_for_chase(m);
        let ghost mid: Position = *self;
        let all_recaptures = self.attackers_to_simple(to).and(
            self.pieces_by_color(self.side_to_move),
        );
        let mut recaptures = all_recaptures;
        proof {
            assert forall|t: int| #[trigger] recaptures.has(t) implies 0 <= t < 90
                && self.board[t] != Piece::NONE by {
                crate::bitboard::bitboard::lemma_board_bits(recaptures.0, t);
            }
        }
        let mut found = false;
        proof {
            assert forall|t: int| !#[trigger] Bitboard(0).has(t) by {
                crate::bitboard::bitboard::lemma_bit_zero(t);
            }
        }
        while recaptures.is_not_empty()
            invariant_except_break
                !found,
                forall|t: int|
                    #[trigger] all_recaptures.has(t) && !recaptures.has(t) ==> !mid.chase_legal_spec(
                        mid.side_to_move,
                        t,
                        to.id(),
                    ),
                recaptures.0 == 0 ==> forall|t: int| !#[trigger] recaptures.has(t),
            invariant
                *self == mid,
                self.valid(),
                to.valid(),
                to.id() == m.to_id(),
                recaptures.wf(),
                forall|t: int|
                    #[trigger] recaptures.has(t) ==> 0 <= t < 90 && self.board[t] != Piece::NONE,
                forall|t: int| #[trigger] recaptures.has(t) ==> all_recaptures.has(t),
            ensures
                found ==> exists|t: int|
                    #[trigger] all_recaptures.has(t) && mid.chase_legal_spec(mid.side_to_move, t, to.id()),
                !found ==> forall|t: int|
                    #[trigger] all_recaptures.has(t) ==> !mid.chase_legal_spec(mid.side_to_move, t, to.id()),
            decreases recaptures@.len(),
        {
            let s = recaptures.pop_lsb();
            proof {
                assert forall|t: int| !#[trigger] Bitboard(0).has(t) by {
                    crate::bitboard::bitboard::lemma_bit_zero(t);
                }
            }
            if self.chase_legal(Move::make(s, to)) {
                found = true;
                proof {
                    assert(all_recaptures.has(s.id()));
                }
                break;
            }
        }
        proof {
            assert forall|t: int| 0 <= t < 90 implies #[trigger] all_recaptures.has(t) == (mid.board[t]
                != Piece::NONE && mid.board[t].color_of() == mid.side_to_move && piece_attacks(
                mid.board[t],
                t,
                m.to_id(),
                mid.occ(),
            )) by {}
            if found {
                let t = choose|t: int|
                    #[trigger] all_recaptures.has(t) && mid.chase_legal_spec(mid.side_to_move, t, to.id());
                crate::bitboard::bitboard::lemma_board_bits(all_recaptures.0, t);
                assert(recapture_exists(mid, m.to_id()));
            } else {
                assert forall|t: int|
                    0 <= t < 90 && mid.board[t] != Piece::NONE && mid.board[t].color_of() == mid.side_to_move
                        && piece_attacks(mid.board[t], t, m.to_id(), mid.occ()) implies !#[trigger] mid.chase_legal_spec(
                    mid.side_to_move,
                    t,
                    m.to_id(),
                ) by {
                    assert(all_recaptures.has(t));
                }
                assert(!recapture_exists(mid, m.to_id()));
            }
        }
        proof {
            assert(mid.board@ == before.board@.update(m.from_id(), Piece::NONE).update(
                m.to_id(),
                before.board[m.from_id()],
            ));
        }
        self.undo_move_for_chase(m, captured, cid);
        proof {
            lemma_undo_chase_restores(before, mid, *self, m, captured, cid);
            assert(before.pieces_moved(&mid, m.from_id(), m.to_id()));
        }
        found
    }

    /// The enemy pieces that `c` chases, as a set of bits numbered by
    /// `id_board`: pieces that a rook, cannon, knight, bishop or advisor of
    /// `c` attacks (a pinned piece only its pinner; a pawn only once across
    /// the river) and could legally take. A rook attacked by a knight or
    /// cannon, and a rook, cannon or knight attacked by a bishop or advisor,
    /// count at once; any other target counts when no piece could take back
    /// on its square, and a piece of the same type only when it could not
    /// answer by taking the chaser. The position is left as it was.
    #[verifier::spinoff_prover]
    #[verifier::rlimit(100)]
    pub fn chased(&mut self, c: Color) -> (r: u16)
        requires
            old(self).valid(),
            old(self).ids_in_range(),
        ensures
            final(self).chase_frame(old(self), old(self).side_to_move),
            old(self).chase_sound(c, r),
            old(self).chase_exact(c, r),
    {
        let ghost p: Position = *self;
        let mut chase: u16 = 0;
        proof {
            assert forall|k: int| 0 <= k < 16 && #[trigger] bit16(chase, k) implies exists|
                from: int,
                to: int,
            | #[trigger] p.chase_witness(c, from, to) && p.id_board[to] == k by {
                lemma_bit16_zero(k as u16);
            }
        }
        let original_stm = self.side_to_move;
        self.side_to_move = c;
        let them = c.flip();
        let mut attackers = self.pieces_by_color(c).and(
            self.pieces(c, PieceType::King).or(self.pieces(c, PieceType::Pawn)).complement(),
        );
        proof {
            assert forall|k: int| 0 <= k < 16 implies (#[trigger] bit16(chase, k) <==> exists|f: int, t: int|
                #[trigger] p.chase_counts(c, f, t) && !attackers.has(f) && p.id_board[t] == k) by {
                lemma_bit16_zero(k as u16);
                if exists|f: int, t: int| #[trigger] p.chase_counts(c, f, t) && !attackers.has(f) && p.id_board[t] == k {
                    let (f, t) = choose|f: int, t: int| #[trigger] p.chase_counts(c, f, t) && !attackers.has(f) && p.id_board[t] == k;
                    assert(attackers.has(f));
                }
            }
        }
        while attackers.is_not_empty()
            invariant
                self.chase_frame(&p, c),
                p.valid(),
                p.ids_in_range(),
                them == c.opp(),
                p.chase_sound(c, chase),
                attackers.wf(),
                forall|t: int|
                    #[trigger] attackers.has(t) ==> 0 <= t < 90 && p.board[t] != Piece::NONE
                        && p.board[t].color_of() == c && p.board[t].type_of() != PieceType::King
                        && p.board[t].type_of() != PieceType::Pawn,
                forall|k: int| 0 <= k < 16 ==> (#[trigger] bit16(chase, k) <==> exists|f: int, t: int|
                    #[trigger] p.chase_counts(c, f, t) && !attackers.has(f) && p.id_board[t] == k),
            decreases attackers@.len(),
        {
            let ghost a0 = attackers;
            let from = attackers.pop_lsb();
            let attacker_type = self.piece_on(from).piece_type();
            let mut attacks = self.attacks_bb_by_type(attacker_type, self.side_to_move, from);
            if self.blockers_for_king(c).contains(from) {
                attacks = attacks.and(self.pinners(them)).and(
                    self.pieces_by_type(PieceType::King).complement(),
                );
            } else {
                let targets = self.pieces_by_color(them).and(
                    self.pieces(them, PieceType::King).or(self.pieces(them, PieceType::Pawn)).complement(),
                ).or(self.pieces(them, PieceType::Pawn).and(half_bb(c)));
                attacks = attacks.and(targets);
            }
            proof {
                assert(self.occ() == p.occ());
                assert forall|t: int| #[trigger] attacks.has(t) == p.chase_target(c, from.id(), t) by {
                    crate::bitboard::bitboard::lemma_board_bits(attacks.0, t);
                }
                assert forall|k: int| 0 <= k < 16 implies (#[trigger] bit16(chase, k) <==> exists|f: int, t: int|
                    #[trigger] p.chase_counts(c, f, t) && ((!attackers.has(f) && f != from.id()) || (f == from.id()
                        && !attacks.has(t))) && p.id_board[t] == k) by {
                    if bit16(chase, k) {
                        let (f, t) = choose|f: int, t: int| #[trigger] p.chase_counts(c, f, t) && !a0.has(f) && p.id_board[t] == k;
                        assert(!attackers.has(f) && f != from.id());
                    }
                    if exists|f: int, t: int| #[trigger] p.chase_counts(c, f, t) && ((!attackers.has(f) && f != from.id()) || (f
                        == from.id() && !attacks.has(t))) && p.id_board[t] == k {
                        let (f, t) = choose|f: int, t: int| #[trigger] p.chase_counts(c, f, t) && ((!attackers.has(f) && f
                            != from.id()) || (f == from.id() && !attacks.has(t))) && p.id_board[t] == k;
                        assert(!a0.has(f));
                    }
                }
            }
            while attacks.is_not_empty()
                invariant
                    self.chase_frame(&p, c),
                    p.valid(),
                    p.ids_in_range(),
                    them == c.opp(),
                    p.chase_sound(c, chase),
                    attackers.wf(),
                    forall|t: int|
                        #[trigger] attackers.has(t) ==> 0 <= t < 90 && p.board[t] != Piece::NONE
                            && p.board[t].color_of() == c && p.board[t].type_of()
                            != PieceType::King && p.board[t].type_of() != PieceType::Pawn,
                    !attackers.has(from.id()),
                    from.valid(),
                    p.board[from.id()] != Piece::NONE,
                    p.board[from.id()].color_of() == c,
                    p.board[from.id()].type_of() == attacker_type,
                    attacker_type != PieceType::King,
                    attacker_type != PieceType::Pawn,
                    attacks.wf(),
                    forall|t: int|
                        #[trigger] attacks.has(t) ==> 0 <= t < 90 && attacks_from(
                            attacker_type,
                            c,
                            from.id(),
                            p.occ(),
                            t,
                        ) && (p.board[t] == Piece::NONE || p.board[t].type_of()
                            != PieceType::King) && p.chase_target(c, from.id(), t),
                    forall|k: int| 0 <= k < 16 ==> (#[trigger] bit16(chase, k) <==> exists|f: int, t: int|
                        #[trigger] p.chase_counts(c, f, t) && ((!attackers.has(f) && f != from.id()) || (f == from.id()
                            && !attacks.has(t))) && p.id_board[t] == k),
                decreases attacks@.len(),
            {
                let ghost b0 = attacks;
                let ghost old_chase = chase;
                let to = attacks.pop_lsb();
                let target = self.piece_on(to);
                let ghost mut counted = false;
                let ghost id_to = p.id_board[to.id()];
                if target != Piece::NONE && target.color() != c {
                    let m = Move::make(from, to);
                    if self.chase_legal(m) {
                        proof {
                            assert(self.board@ == p.board@);
                            assert(self.occ() == p.occ());
                            assert(self.king_sq(c) == p.king_sq(c));
                            assert(self.chase_occ(from.id(), to.id()) == p.chase_occ(from.id(), to.id()));
                            assert(self.chase_legal_spec(c, from.id(), to.id()));
                            assert(p.chase_legal_spec(c, from.id(), to.id()));
                            assert(attacks_from(attacker_type, c, from.id(), p.occ(), to.id()));
                            assert(p.chase_witness(c, from.id(), to.id()));
                        }
                        let target_type = target.piece_type();
                        let id = self.id_board[to.index()];
                        let bit: u16 = 1u16 << (id as u16);
                        let ti = target_type.index();
                        proof {
                            assert((ti & 1usize) != 0usize <==> ti % 2 == 1) by (bit_vector);
                        }
                        let set_bit = if (attacker_type == PieceType::Knight || attacker_type == PieceType::Cannon)
                            && target_type == PieceType::Rook {
                            true
                        } else if (attacker_type == PieceType::Advisor || attacker_type == PieceType::Bishop) && (
                        ti & 1) != 0 {
                            true
                        } else {
                            let ghost before_rc: Position = *self;
                            let recapture = self.can_recapture(m);
                            proof {
                                let q = choose|q: Position|
                                    #[trigger] before_rc.pieces_moved(&q, m.from_id(), m.to_id()) && q.valid()
                                        && q.side_to_move == before_rc.side_to_move.opp() && (recapture
                                        <==> recapture_exists(q, m.to_id()));
                                assert(p.pieces_moved(&q, from.id(), to.id()));
                                if !recapture {
                                    assert(p.no_recapture(c, from.id(), to.id()));
                                } else if p.no_recapture(c, from.id(), to.id()) {
                                    let q2 = choose|q2: Position|
                                        #[trigger] p.pieces_moved(&q2, from.id(), to.id()) && q2.valid()
                                            && q2.side_to_move == c.opp() && !recapture_exists(q2, to.id());
                                    lemma_recapture_same(q, q2, to.id());
                                }
                            }
                            if !recapture {
                                if attacker_type == target_type {
                                    self.side_to_move = them;
                                    let blocked = if attacker_type == PieceType::Knight {
                                        let bb = between_bb(from, to).xor(Bitboard::from_square(to)).and(self.all_pieces());
                                        let ne = bb.is_not_empty();
                                        proof {
                                            bb.lemma_empty_iff();
                                            if ne {
                                                let t = choose|t: int| bb.has(t);
                                                assert(p.occ().has(t));
                                                assert(p.knight_leg_blocked(from.id(), to.id()));
                                            } else if p.knight_leg_blocked(from.id(), to.id()) {
                                                let t = choose|t: int| (between_has(from.id(), to.id(), t) != (t == to.id()))
                                                    && #[trigger] p.occ().has(t);
                                                assert(bb.has(t));
                                            }
                                        }
                                        ne
                                    } else {
                                        false
                                    };
                                    let rev = self.chase_legal(Move::make(to, from));
                                    proof {
                                        assert(self.board@ == p.board@);
                                        assert(self.king_sq(them) == p.king_sq(them));
                                        assert(self.chase_occ(to.id(), from.id()) == p.chase_occ(to.id(), from.id()));
                                        assert(rev == p.chase_legal_spec(them, to.id(), from.id()));
                                    }
                                    self.side_to_move = c;
                                    blocked || !rev
                                } else {
                                    true
                                }
                            } else {
                                false
                            }
                        };
                        proof {
                            assert(p.chase_target(c, from.id(), to.id()));
                            assert(set_bit == p.chase_counts(c, from.id(), to.id()));
                            counted = set_bit;
                        }
                        if set_bit {
                            proof {
                                lemma_chase_add(p, c, chase, from.id(), to.id());
                            }
                            chase = chase | bit;
                        }
                    } else {
                        proof {
                            assert(self.board@ == p.board@);
                            assert(self.occ() == p.occ());
                            assert(self.king_sq(c) == p.king_sq(c));
                            assert(self.chase_occ(from.id(), to.id()) == p.chase_occ(from.id(), to.id()));
                            assert(!p.chase_legal_spec(c, from.id(), to.id()));
                        }
                    }
                } else {
                    proof {
                        assert(p.board[to.id()] == target);
                    }
                }
                proof {
                    assert(counted == p.chase_counts(c, from.id(), to.id()));
                    assert forall|k: int| 0 <= k < 16 implies (#[trigger] bit16(chase, k) <==> exists|f: int, t: int|
                        #[trigger] p.chase_counts(c, f, t) && ((!attackers.has(f) && f != from.id()) || (f == from.id()
                            && !attacks.has(t))) && p.id_board[t] == k) by {
                        if counted {
                            lemma_bit16_set(old_chase, id_to as u16, k as u16);
                            assert(chase == old_chase | (1u16 << (id_to as u16)));
                        } else {
                            assert(chase == old_chase);
                        }
                        if bit16(chase, k) {
                            if bit16(old_chase, k) {
                                let (f, t) = choose|f: int, t: int| #[trigger] p.chase_counts(c, f, t) && ((!attackers.has(f)
                                    && f != from.id()) || (f == from.id() && !b0.has(t))) && p.id_board[t] == k;
                                assert(!b0.has(t) ==> !attacks.has(t));
                            } else {
                                assert(k == id_to);
                                assert(p.chase_counts(c, from.id(), to.id()) && !attacks.has(to.id()));
                            }
                        }
                        if exists|f: int, t: int| #[trigger] p.chase_counts(c, f, t) && ((!attackers.has(f) && f != from.id())
                            || (f == from.id() && !attacks.has(t))) && p.id_board[t] == k {
                            let (f, t) = choose|f: int, t: int| #[trigger] p.chase_counts(c, f, t) && ((!attackers.has(f)
                                && f != from.id()) || (f == from.id() && !attacks.has(t))) && p.id_board[t] == k;
                            if f == from.id() && t == to.id() {
                                assert(counted);
                            } else {
                                assert(b0.has(t) == (attacks.has(t) || t == to.id()));
                                assert(bit16(old_chase, k));
                            }
                        }
                    }
                }
            }
            proof {
                attacks.lemma_empty_iff();
                assert forall|k: int| 0 <= k < 16 implies (#[trigger] bit16(chase, k) <==> exists|f: int, t: int|
                    #[trigger] p.chase_counts(c, f, t) && !attackers.has(f) && p.id_board[t] == k) by {
                    if bit16(chase, k) {
                        let (f, t) = choose|f: int, t: int| #[trigger] p.chase_counts(c, f, t) && ((!attackers.has(f) && f
                            != from.id()) || (f == from.id() && !attacks.has(t))) && p.id_board[t] == k;
                    }
                    if exists|f: int, t: int| #[trigger] p.chase_counts(c, f, t) && !attackers.has(f) && p.id_board[t] == k {
                        let (f, t) = choose|f: int, t: int| #[trigger] p.chase_counts(c, f, t) && !attackers.has(f) && p.id_board[t] == k;
                        assert(!attacks.has(t));
                    }
                }
            }
        }
        self.side_to_move = original_stm;
        proof {
            attackers.lemma_empty_iff();
            assert forall|k: int| 0 <= k < 16 implies (#[trigger] bit16(chase, k) <==> exists|from: int, to: int|
                #[trigger] p.chase_counts(c, from, to) && p.id_board[to] == k) by {
                if exists|from: int, to: int| #[trigger] p.chase_counts(c, from, to) && p.id_board[to] == k {
                    let (f, t) = choose|f: int, t: int| #[trigger] p.chase_counts(c, f, t) && p.id_board[t] == k;
                    assert(!attackers.has(f));
                }
            }
        }
        chase
    }
}

/// The number of pieces of color `c` on the first `n` squares of `board`.
pub open spec fn color_count(board: Seq<Piece>, c: Color, n: int) -> int
    decreases n,
{
    if n <= 0 {
        0
    } else {
        color_count(board, c, n - 1) + if board[n - 1] != Piece::NONE && board[n - 1].color_of()
            == c {
            1int
        } else {
            0int
        }
    }
}

proof fn lemma_color_count_mono(board: Seq<Piece>, c: Color, n: int, m: int)
    requires
        0 <= n <= m,
    ensures
        color_count(board, c, n) <= color_count(board, c, m),
    decreases m - n,
{
    if n < m {
        lemma_color_count_mono(board, c, n, m - 1);
    }
}

/// The score of a chase ruling: the side that alone keeps chasing loses.
pub open spec fn chase_ruling(chase_us: bool, chase_them: bool, ply: int) -> int {
    if chase_us != chase_them {
        if chase_us {
            mated_in_spec(ply)
        } else {
            mate_in_spec(ply)
        }
    } else {
        VALUE_DRAW as int
    }
}

/// The side that alone kept chasing through the repetition loses and the
/// side that alone was chased wins, each by a mate score at `ply` of the
/// same size; when both chased or neither did, it is a draw.
pub proof fn lemma_chase_ruling_sides(ply: int)
    requires
        0 <= ply <= crate::types::MAX_PLY,
    ensures
        chase_ruling(true, false, ply) < VALUE_DRAW,
        chase_ruling(false, true, ply) > VALUE_DRAW,
        chase_ruling(true, false, ply) == -chase_ruling(false, true, ply),
        chase_ruling(false, true, ply) >= VALUE_MATE - crate::types::MAX_PLY,
        chase_ruling(true, true, ply) == VALUE_DRAW,
        chase_ruling(false, false, ply) == VALUE_DRAW,
{
}

/// What chase detection disturbs and puts back.
struct PositionSnapshot {
    board: [Piece; 90],
    by_type_bb: [Bitboard; 8],
    by_color_bb: [Bitboard; 2],
    piece_count: [u8; 16],
    side_to_move: Color,
    game_ply: u16,
    state: StateInfo,
}

impl Position {
    /// Each side has at most sixteen pieces on the board.
    pub open spec fn sides_fit(&self) -> bool {
        &&& color_count(self.board@, Color::White, 90) <= 16
        &&& color_count(self.board@, Color::Black, 90) <= 16
    }

    /// The last move can be taken back on the board: its destination holds
    /// a piece, its origin is empty, and the piece it took is not a king.
    pub open spec fn light_undoable(&self) -> bool {
        let m = self.state.last_move;
        let cap = self.state.captured_piece;
        &&& m.well_formed()
        &&& m.from_id() != m.to_id()
        &&& self.board[m.to_id()] != Piece::NONE
        &&& self.board[m.from_id()] == Piece::NONE
        &&& (cap == Piece::NONE || cap.type_of() != PieceType::King)
    }

    fn save_snapshot(&self) -> (snap: PositionSnapshot)
        ensures
            snap.board == self.board,
            snap.by_type_bb == self.by_type_bb,
            snap.by_color_bb == self.by_color_bb,
            snap.piece_count == self.piece_count,
            snap.side_to_move == self.side_to_move,
            snap.game_ply == self.game_ply,
            snap.state == self.state,
    {
        PositionSnapshot {
            board: self.board,
            by_type_bb: self.by_type_bb,
            by_color_bb: self.by_color_bb,
            piece_count: self.piece_count,
            side_to_move: self.side_to_move,
            game_ply: self.game_ply,
            state: self.state,
        }
    }

    fn restore_snapshot(&mut self, snap: PositionSnapshot)
        ensures
            final(self).board == snap.board,
            final(self).by_type_bb == snap.by_type_bb,
            final(self).by_color_bb == snap.by_color_bb,
            final(self).piece_count == snap.piece_count,
            final(self).side_to_move == snap.side_to_move,
            final(self).game_ply == snap.game_ply,
            final(self).state == snap.state,
            final(self).state_stack@ == old(self).state_stack@,
            final(self).bloom_filter.table@ == old(self).bloom_filter.table@,
            final(self).id_board == old(self).id_board,
            final(self).mid_encoding_val == old(self).mid_encoding_val,
            final(self).zob == old(self).zob,
    {
        self.board = snap.board;
        self.by_type_bb = snap.by_type_bb;
        self.by_color_bb = snap.by_color_bb;
        self.piece_count = snap.piece_count;
        self.side_to_move = snap.side_to_move;
        self.game_ply = snap.game_ply;
        self.state = snap.state;
    }

    /// Takes back the last move on the board alone, restoring the state
    /// saved at `stack_cursor - 1` (when the cursor is above zero) without
    /// touching the history. A last move that cannot stand on this board is
    /// not replayed.
    fn undo_move_light(&mut self, stack_cursor: &mut usize)
        requires
            old(self).valid(),
            *old(stack_cursor) <= old(self).state_stack@.len(),
        ensures
            final(self).valid(),
            *final(stack_cursor) <= final(self).state_stack@.len(),
            old(self).light_undoable() ==> final(self).board@ == board_after_unmove(
                old(self).board@,
                old(self).state.last_move.from_id(),
                old(self).state.last_move.to_id(),
                old(self).state.captured_piece,
            ),
            !old(self).light_undoable() ==> final(self).board == old(self).board,
            final(self).side_to_move == old(self).side_to_move.opp(),
            *old(stack_cursor) > 0 ==> *final(stack_cursor) == *old(stack_cursor) - 1
                && final(self).state == old(self).state_stack@[*old(stack_cursor) - 1],
            *old(stack_cursor) == 0 ==> *final(stack_cursor) == 0 && final(self).state == old(
                self,
            ).state,
            final(self).game_ply == if old(self).game_ply > 0 {
                old(self).game_ply - 1
            } else {
                0
            },
            final(self).state_stack@ == old(self).state_stack@,
            final(self).bloom_filter.table@ == old(self).bloom_filter.table@,
            final(self).id_board == old(self).id_board,
            final(self).same_keys(old(self)),
    {
        let ghost p0: Position = *self;
        let m = self.state.last_move;
        let captured = self.state.captured_piece;
        self.side_to_move = self.side_to_move.flip();
        if m.raw() / 128 < 90 && m.raw() % 128 < 90 {
            let from = m.from_sq();
            let to = m.to_sq();
            if from != to && self.piece_on(to) != Piece::NONE && self.piece_on(from) == Piece::NONE
                && (captured == Piece::NONE || captured.piece_type() != PieceType::King) {
                self.move_piece(to, from);
                proof {
                    assert(self.board@ =~= board_after_move(p0.board@, to.id(), from.id()));
                    lemma_kings_after_move(&p0, self, to.id(), from.id());
                }
                if captured != Piece::NONE {
                    let ghost p1: Position = *self;
                    self.put_piece(captured, to);
                    proof {
                        lemma_kings_after_put(&p1, self, to.id(), captured);
                    }
                }
                proof {
                    assert(self.board@ =~= board_after_unmove(
                        p0.board@,
                        from.id(),
                        to.id(),
                        captured,
                    ));
                }
            }
        }
        if *stack_cursor > 0 {
            *stack_cursor = *stack_cursor - 1;
            self.state = self.state_stack[*stack_cursor];
        }
        self.game_ply = self.game_ply.saturating_sub(1);
    }

    /// Walks back `d` plies through a repetition, narrowing each side's set
    /// of chased pieces to those chased after every one of its moves and
    /// not before it, and judges: a check on the way is a draw; a side that
    /// alone keeps chasing loses.
    #[verifier::spinoff_prover]
    #[verifier::rlimit(100)]
    fn detect_chases_inner(
        &mut self,
        d: i32,
        ply: i32,
        us: Color,
        them: Color,
        chase: &mut [u16; 2],
        stack_cursor: &mut usize,
    ) -> (r: Value)
        requires
            old(self).valid(),
            old(self).ids_in_range(),
            *old(stack_cursor) <= old(self).state_stack@.len(),
            VALUE_MATE - i32::MAX <= ply,
            them == us.opp(),
        ensures
            final(self).valid(),
            final(self).ids_in_range(),
            final(self).state_stack@ == old(self).state_stack@,
            final(self).bloom_filter.table@ == old(self).bloom_filter.table@,
            final(self).id_board == old(self).id_board,
            final(self).same_keys(old(self)),
            r == VALUE_DRAW || r == mate_in_spec(ply as int) || r == mated_in_spec(ply as int),
            d <= 0 ==> r == chase_ruling(old(chase)[us.id()] != 0, old(chase)[them.id()] != 0, ply as int),
            d > 0 && old(self).state.checkers_bb.0 != 0 ==> r == VALUE_DRAW,
            chase_walk_ruling(
                *old(self),
                *old(stack_cursor) as int,
                d as int,
                (old(chase)[0], old(chase)[1]),
                us,
                ply as int,
                r as int,
            ),
    {
        let ghost p0: Position = *self;
        let ghost ch0: (u16, u16) = (chase[0], chase[1]);
        let ghost mut ps: Seq<Position> = seq![*self];
        let ghost mut cs: Seq<int> = seq![*stack_cursor as int];
        proof {
            assert(walk_chase(ps, ch0) == ch0);
        }
        let mut i: i32 = 0;
        while i < d
            invariant
                0 <= i,
                i == 0 || i <= d,
                self.valid(),
                self.ids_in_range(),
                *stack_cursor <= self.state_stack@.len(),
                self.state_stack@ == p0.state_stack@,
                self.bloom_filter.table@ == p0.bloom_filter.table@,
                self.id_board == p0.id_board,
                self.same_keys(&p0),
                i == 0 ==> chase@ == old(chase)@,
                i == 0 ==> self.state == p0.state,
                i > 0 ==> p0.state.checkers_bb.0 == 0,
                p0 == *old(self),
                ch0 == (old(chase)[0], old(chase)[1]),
                ps.len() == i + 1,
                walk_back(ps, cs),
                ps[0] == p0,
                cs[0] == *old(stack_cursor) as int,
                cs.last() == *stack_cursor as int,
                chase_same(ps.last(), *self),
                ps.last().side_to_move == self.side_to_move,
                ps.last().state_stack@ == self.state_stack@,
                (chase[0], chase[1]) == walk_chase(ps, ch0),
                forall|k: int| 0 <= k < ps.len() - 1 ==> #[trigger] walk_continues(ps, k, d as int, ch0),
            ensures
                self.valid(),
                self.ids_in_range(),
                self.state_stack@ == p0.state_stack@,
                self.bloom_filter.table@ == p0.bloom_filter.table@,
                self.id_board == p0.id_board,
                self.same_keys(&p0),
                d > 0 ==> p0.state.checkers_bb.0 == 0,
                d <= 0 ==> chase@ == old(chase)@,
                walk_back(ps, cs),
                ps[0] == p0,
                cs[0] == *old(stack_cursor) as int,
                (chase[0], chase[1]) == walk_chase(ps, ch0),
                forall|k: int| 0 <= k < ps.len() - 1 ==> #[trigger] walk_continues(ps, k, d as int, ch0),
                !walk_continues(ps, ps.len() - 1, d as int, ch0),
                !(ps.len() - 1 < d && ps.last().state.checkers_bb.0 != 0),
            decreases d - i,
        {
            if self.state.checkers_bb.is_not_empty() {
                proof {
                    assert(self.state_stack@ == old(self).state_stack@);
                    assert(self.bloom_filter.table@ == old(self).bloom_filter.table@);
                    assert(ps.take(ps.len() as int) =~= ps);
                    assert(!walk_continues(ps, ps.len() - 1, d as int, ch0));
                    assert(walk_ruling(ps, d as int, ch0, us, ply as int) == VALUE_DRAW as int);
                    assert(walk_back(ps, cs) && ps[0] == *old(self) && cs[0] == *old(stack_cursor) as int
                        && (forall|k: int| 0 <= k < ps.len() - 1 ==> #[trigger] walk_continues(ps, k, d as int, ch0))
                        && !walk_continues(ps, ps.len() - 1, d as int, ch0) && VALUE_DRAW as int == walk_ruling(
                        ps,
                        d as int,
                        ch0,
                        us,
                        ply as int,
                    ));
                }
                return VALUE_DRAW;
            }
            let side = self.side_to_move;
            let opp = side.flip();
            let ghost ch = (chase[0], chase[1]);
            proof {
                assert(ps.take(ps.len() as int) =~= ps);
                assert(side_bits(ch, opp) == chase[opp.id()]);
                assert(side_bits(ch, side) == chase[side.id()]);
            }
            let ghost s2: Position;
            if chase[opp.index()] == 0 {
                if chase[side.index()] == 0 {
                    break;
                }
                let ghost s1 = *self;
                let ghost c1 = *stack_cursor as int;
                self.undo_move_light(stack_cursor);
                proof {
                    s2 = *self;
                    assert(walked_back(ps.last(), s2, c1, *stack_cursor as int));
                    assert(walk_step(ps.last(), s2, ch) == ch);
                }
            } else {
                let ghost s0 = *self;
                let after = self.chased(opp);
                proof {
                    lemma_chased_bits(s0, ps.last(), opp, after);
                }
                let ghost s1 = *self;
                let ghost c1 = *stack_cursor as int;
                self.undo_move_light(stack_cursor);
                proof {
                    s2 = *self;
                    assert(walked_back(ps.last(), s2, c1, *stack_cursor as int));
                }
                let before = self.chased(self.side_to_move);
                proof {
                    lemma_chased_bits(s2, s2, opp, before);
                }
                chase[opp.index()] = chase[opp.index()] & (after & !before);
                proof {
                    assert(walk_step(ps.last(), s2, ch) == (chase[0], chase[1]));
                }
            }
            proof {
                let ps2 = ps.push(s2);
                let cs2 = cs.push(*stack_cursor as int);
                assert(ps2.drop_last() =~= ps);
                assert(ps2[ps2.len() - 2] == ps.last());
                assert(walk_chase(ps2, ch0) == (chase[0], chase[1]));
                assert(ps2.take(ps.len() as int) =~= ps);
                assert(walk_continues(ps2, ps.len() - 1, d as int, ch0));
                assert forall|k: int| 0 <= k < ps2.len() - 1 implies #[trigger] walk_continues(ps2, k, d as int, ch0) by {
                    if k < ps.len() - 1 {
                        assert(ps2.take(k + 1) =~= ps.take(k + 1));
                        assert(walk_continues(ps, k, d as int, ch0));
                    }
                }
                assert forall|k: int| 0 <= k < ps2.len() - 1 implies walked_back(#[trigger] ps2[k], ps2[k + 1], cs2[k], cs2[k + 1]) by {
                    if k < ps.len() - 1 {
                        assert(walked_back(ps[k], ps[k + 1], cs[k], cs[k + 1]));
                    }
                }
                ps = ps2;
                cs = cs2;
            }
            i = i + 1;
        }
        let chase_us = chase[us.index()] != 0;
        let chase_them = chase[them.index()] != 0;
        let r = if chase_us != chase_them {
            if chase_us {
                mated_in(ply)
            } else {
                mate_in(ply)
            }
        } else {
            VALUE_DRAW
        };
        proof {
            let ch = walk_chase(ps, ch0);
            assert(side_bits(ch, us) == chase[us.id()]);
            assert(side_bits(ch, them) == chase[them.id()]);
            assert(r as int == walk_ruling(ps, d as int, ch0, us, ply as int));
            assert(walk_back(ps, cs) && ps[0] == *old(self) && cs[0] == *old(stack_cursor) as int && (forall|k: int|
                0 <= k < ps.len() - 1 ==> #[trigger] walk_continues(ps, k, d as int, ch0)) && !walk_continues(
                ps,
                ps.len() - 1,
                d as int,
                ch0,
            ) && r as int == walk_ruling(ps, d as int, ch0, us, ply as int));
        }
        r
    }

    /// Judges a repetition `d` plies long from the chases on the way (see
    /// `detect_chases_inner`), numbering each side's pieces first. Board,
    /// counts, side to move, ply and state are put back afterwards.
    pub fn detect_chases(&mut self, d: i32, ply: i32) -> (r: Value)
        requires
            old(self).valid(),
            old(self).ids_in_range(),
            old(self).sides_fit(),
            VALUE_MATE - i32::MAX <= ply,
        ensures
            final(self).valid(),
            final(self).ids_in_range(),
            final(self).board == old(self).board,
            final(self).by_type_bb == old(self).by_type_bb,
            final(self).by_color_bb == old(self).by_color_bb,
            final(self).piece_count == old(self).piece_count,
            final(self).side_to_move == old(self).side_to_move,
            final(self).game_ply == old(self).game_ply,
            final(self).state == old(self).state,
            final(self).state_stack@ == old(self).state_stack@,
            final(self).bloom_filter.table@ == old(self).bloom_filter.table@,
            final(self).same_keys(old(self)),
            r == VALUE_DRAW || r == mate_in_spec(ply as int) || r == mated_in_spec(ply as int),
            d <= 0 ==> r == VALUE_DRAW,
            d > 0 && old(self).state.checkers_bb.0 != 0 ==> r == VALUE_DRAW,
            exists|p1: Position|
                #[trigger] numbered(*old(self), p1) && chase_walk_ruling(
                    p1,
                    old(self).state_stack@.len() as int,
                    d as int,
                    (0xFFFFu16, 0xFFFFu16),
                    old(self).side_to_move,
                    ply as int,
                    r as int,
                ),
    {
        let ghost p_start: Position = *self;
        let snap = self.save_snapshot();
        let mut white_id: i32 = 0;
        let mut black_id: i32 = 0;
        let mut s_idx: usize = 0;
        while s_idx < 90
            invariant
                s_idx <= 90,
                self.board == snap.board,
                self.by_type_bb == snap.by_type_bb,
                self.by_color_bb == snap.by_color_bb,
                self.wf() && self.kings_present(),
                self.sides_fit(),
                white_id == color_count(self.board@, Color::White, s_idx as int),
                black_id == color_count(self.board@, Color::Black, s_idx as int),
                forall|s: int| 0 <= s < 90 ==> 0 <= #[trigger] self.id_board[s] < 16,
                self.piece_count == old(self).piece_count,
                self.side_to_move == old(self).side_to_move,
                self.game_ply == old(self).game_ply,
                self.state == old(self).state,
                self.state_stack@ == old(self).state_stack@,
                self.bloom_filter.table@ == old(self).bloom_filter.table@,
                self.same_keys(old(self)),
                self.mid_encoding_val == old(self).mid_encoding_val,
                self.zob == old(self).zob,
                p_start == *old(self),
                *self == (Position { id_board: self.id_board, ..p_start }),
                forall|s: int|
                    0 <= s < s_idx ==> #[trigger] self.id_board[s] == if p_start.board[s] != Piece::NONE {
                        color_count(p_start.board@, p_start.board[s].color_of(), s) as i32
                    } else {
                        p_start.id_board[s]
                    },
                forall|s: int| s_idx <= s < 90 ==> #[trigger] self.id_board[s] == p_start.id_board[s],
            decreases 90 - s_idx,
        {
            let pc = self.board[s_idx];
            proof {
                lemma_color_count_mono(self.board@, Color::White, s_idx as int + 1, 90);
                lemma_color_count_mono(self.board@, Color::Black, s_idx as int + 1, 90);
                lemma_color_count_mono(self.board@, Color::White, 0, s_idx as int);
                lemma_color_count_mono(self.board@, Color::Black, 0, s_idx as int);
                assert(self.board@[s_idx as int] == pc);
                assert(color_count(self.board@, Color::White, s_idx as int + 1) == white_id + if pc
                    != Piece::NONE && pc.color_of() == Color::White {
                    1int
                } else {
                    0int
                });
                assert(color_count(self.board@, Color::Black, s_idx as int + 1) == black_id + if pc
                    != Piece::NONE && pc.color_of() == Color::Black {
                    1int
                } else {
                    0int
                });
            }
            if pc != Piece::NONE {
                if pc.color() == Color::White {
                    assert(0 <= white_id < 16);
                    self.id_board[s_idx] = white_id;
                    white_id = white_id + 1;
                } else {
                    assert(0 <= black_id < 16);
                    self.id_board[s_idx] = black_id;
                    black_id = black_id + 1;
                }
            }
            s_idx = s_idx + 1;
        }
        let ghost p1: Position = *self;
        proof {
            assert(numbered(p_start, p1));
        }
        let us = self.side_to_move;
        let them = us.flip();
        let mut chase: [u16; 2] = [0xFFFFu16, 0xFFFFu16];
        let mut stack_cursor = self.state_stack.len();
        let result = self.detect_chases_inner(d, ply, us, them, &mut chase, &mut stack_cursor);
        self.restore_snapshot(snap);
        result
    }
}

/// Two consistent positions with the same board, both with each king once
/// on it, and the same side to move agree on whether a recapture on `to`
/// exists.
proof fn lemma_recapture_same(q1: Position, q2: Position, to: int)
    requires
        q1.valid(),
        q2.valid(),
        q1.board@ == q2.board@,
        q1.side_to_move == q2.side_to_move,
    ensures
        recapture_exists(q1, to) == recapture_exists(q2, to),
{
    broadcast use vstd::array::group_array_axioms;

    assert(q1.board == q2.board);
    assert(q1.by_type_bb[0].wf() && q2.by_type_bb[0].wf());
    assert forall|i: int| #[trigger] crate::bitboard::bitboard::bit(q1.occ().0, i) == crate::bitboard::bitboard::bit(q2.occ().0, i) by {
        crate::bitboard::bitboard::lemma_board_bits(q1.occ().0, i);
        crate::bitboard::bitboard::lemma_board_bits(q2.occ().0, i);
        if 0 <= i < 90 {
            assert(q1.occ().has(i) == q2.occ().has(i));
        }
    }
    crate::bitboard::bitboard::lemma_bits_ext(q1.occ().0, q2.occ().0);
    assert(q1.occ() == q2.occ());
    let us = q1.side_to_move;
    let k = q1.king_sq(us);
    let k2 = q2.king_sq(us);
    assert(exists|s: int| 0 <= s < 90 && #[trigger] q1.board[s] == make_piece(us, PieceType::King)) by {
        if us == Color::White {
            let s = choose|s: int| 0 <= s < 90 && #[trigger] q1.board[s] == Piece::W_KING;
            assert(q1.board[s] == make_piece(us, PieceType::King));
        } else {
            let s = choose|s: int| 0 <= s < 90 && #[trigger] q1.board[s] == Piece::B_KING;
            assert(q1.board[s] == make_piece(us, PieceType::King));
        }
    }
    assert(q1.board[k] == make_piece(us, PieceType::King) && 0 <= k < 90);
    assert(q2.board[k2] == make_piece(us, PieceType::King) && 0 <= k2 < 90);
    assert(k == k2);
    if recapture_exists(q1, to) {
        let s = choose|s: int|
            0 <= s < 90 && q1.board[s] != Piece::NONE && q1.board[s].color_of() == q1.side_to_move
                && piece_attacks(q1.board[s], s, to, q1.occ()) && #[trigger] q1.chase_legal_spec(
                q1.side_to_move,
                s,
                to,
            );
        assert(q1.chase_occ(s, to) == q2.chase_occ(s, to));
        if q1.board[s].type_of() == PieceType::King {
            assert forall|t: int| 0 <= t < 90 implies !#[trigger] piece_checks(q2.board[t], us.opp(), t, to, q2.chase_occ(s, to)) by {
                assert(!piece_checks(q1.board[t], us.opp(), t, to, q1.chase_occ(s, to)));
            }
        } else {
            assert forall|t: int| 0 <= t < 90 && t != to implies !#[trigger] piece_checks(q2.board[t], us.opp(), t, q2.king_sq(us), q2.chase_occ(s, to)) by {
                assert(!piece_checks(q1.board[t], us.opp(), t, q1.king_sq(us), q1.chase_occ(s, to)));
            }
        }
        assert(q2.chase_legal_spec(us, s, to));
    }
    if recapture_exists(q2, to) {
        let s = choose|s: int|
            0 <= s < 90 && q2.board[s] != Piece::NONE && q2.board[s].color_of() == q2.side_to_move
                && piece_attacks(q2.board[s], s, to, q2.occ()) && #[trigger] q2.chase_legal_spec(
                q2.side_to_move,
                s,
                to,
            );
        assert(q2.chase_occ(s, to) == q1.chase_occ(s, to));
        if q2.board[s].type_of() == PieceType::King {
            assert forall|t: int| 0 <= t < 90 implies !#[trigger] piece_checks(q1.board[t], us.opp(), t, to, q1.chase_occ(s, to)) by {
                assert(!piece_checks(q2.board[t], us.opp(), t, to, q2.chase_occ(s, to)));
            }
        } else {
            assert forall|t: int| 0 <= t < 90 && t != to implies !#[trigger] piece_checks(q1.board[t], us.opp(), t, q1.king_sq(us), q1.chase_occ(s, to)) by {
                assert(!piece_checks(q2.board[t], us.opp(), t, q2.king_sq(us), q2.chase_occ(s, to)));
            }
        }
        assert(q1.chase_legal_spec(us, s, to));
    }
}

/// What chase detection reads of a position is the same in `a` and `b`.
pub open spec fn chase_same(a: Position, b: Position) -> bool {
    &&& a.valid()
    &&& b.valid()
    &&& a.board == b.board
    &&& a.by_type_bb == b.by_type_bb
    &&& a.state == b.state
    &&& a.id_board == b.id_board
    &&& a.piece_count == b.piece_count
    &&& a.mid_encoding_val == b.mid_encoding_val
}

proof fn lemma_king_sq_same(a: Position, b: Position, us: Color)
    requires
        a.valid(),
        b.valid(),
        a.board == b.board,
    ensures
        a.king_sq(us) == b.king_sq(us),
{
    assert(exists|s: int| 0 <= s < 90 && #[trigger] a.board[s] == make_piece(us, PieceType::King)) by {
        if us == Color::White {
            let s = choose|s: int| 0 <= s < 90 && #[trigger] a.board[s] == Piece::W_KING;
            assert(a.board[s] == make_piece(us, PieceType::King));
        } else {
            let s = choose|s: int| 0 <= s < 90 && #[trigger] a.board[s] == Piece::B_KING;
            assert(a.board[s] == make_piece(us, PieceType::King));
        }
    }
    let k = a.king_sq(us);
    let k2 = b.king_sq(us);
    assert(a.board[k] == make_piece(us, PieceType::King) && 0 <= k < 90);
    assert(b.board[k2] == make_piece(us, PieceType::King) && 0 <= k2 < 90);
}

proof fn lemma_chase_legal_same(a: Position, b: Position, us: Color, from: int, to: int)
    requires
        a.valid(),
        b.valid(),
        a.board == b.board,
        a.by_type_bb == b.by_type_bb,
    ensures
        a.chase_legal_spec(us, from, to) == b.chase_legal_spec(us, from, to),
{
    lemma_king_sq_same(a, b, us);
    assert(a.chase_occ(from, to) == b.chase_occ(from, to));
    if a.chase_legal_spec(us, from, to) {
        if a.board[from].type_of() == PieceType::King {
            assert forall|t: int| 0 <= t < 90 implies !#[trigger] piece_checks(b.board[t], us.opp(), t, to, b.chase_occ(from, to)) by {
                assert(!piece_checks(a.board[t], us.opp(), t, to, a.chase_occ(from, to)));
            }
        } else {
            assert forall|t: int| 0 <= t < 90 && t != to implies !#[trigger] piece_checks(b.board[t], us.opp(), t, b.king_sq(us), b.chase_occ(from, to)) by {
                assert(!piece_checks(a.board[t], us.opp(), t, a.king_sq(us), a.chase_occ(from, to)));
            }
        }
    }
    if b.chase_legal_spec(us, from, to) {
        if a.board[from].type_of() == PieceType::King {
            assert forall|t: int| 0 <= t < 90 implies !#[trigger] piece_checks(a.board[t], us.opp(), t, to, a.chase_occ(from, to)) by {
                assert(!piece_checks(b.board[t], us.opp(), t, to, b.chase_occ(from, to)));
            }
        } else {
            assert forall|t: int| 0 <= t < 90 && t != to implies !#[trigger] piece_checks(a.board[t], us.opp(), t, a.king_sq(us), a.chase_occ(from, to)) by {
                assert(!piece_checks(b.board[t], us.opp(), t, b.king_sq(us), b.chase_occ(from, to)));
            }
        }
    }
}

proof fn lemma_chase_counts_same(a: Position, b: Position, c: Color, from: int, to: int)
    requires
        chase_same(a, b),
    ensures
        a.chase_counts(c, from, to) == b.chase_counts(c, from, to),
{
    lemma_chase_legal_same(a, b, c, from, to);
    lemma_chase_legal_same(a, b, c.opp(), to, from);
    assert(a.occ() == b.occ());
    assert(a.chase_target(c, from, to) == b.chase_target(c, from, to));
    if a.knight_leg_blocked(from, to) {
        let t = choose|t: int| (between_has(from, to, t) != (t == to)) && #[trigger] a.occ().has(t);
        assert(b.occ().has(t));
    }
    if b.knight_leg_blocked(from, to) {
        let t = choose|t: int| (between_has(from, to, t) != (t == to)) && #[trigger] b.occ().has(t);
        assert(a.occ().has(t));
    }
    if a.no_recapture(c, from, to) {
        let q = choose|q: Position|
            #[trigger] a.pieces_moved(&q, from, to) && q.valid() && q.side_to_move == c.opp() && !recapture_exists(q, to);
        assert(b.pieces_moved(&q, from, to));
    }
    if b.no_recapture(c, from, to) {
        let q = choose|q: Position|
            #[trigger] b.pieces_moved(&q, from, to) && q.valid() && q.side_to_move == c.opp() && !recapture_exists(q, to);
        assert(a.pieces_moved(&q, from, to));
    }
}

/// Positions that agree on what chase detection reads agree on the chased
/// sets.
proof fn lemma_chase_exact_same(a: Position, b: Position, c: Color, x: u16)
    requires
        chase_same(a, b),
        a.chase_exact(c, x),
    ensures
        b.chase_exact(c, x),
{
    assert forall|k: int| 0 <= k < 16 implies (#[trigger] bit16(x, k) <==> exists|from: int, to: int|
        #[trigger] b.chase_counts(c, from, to) && b.id_board[to] == k) by {
        if bit16(x, k) {
            let (f, t) = choose|f: int, t: int| #[trigger] a.chase_counts(c, f, t) && a.id_board[t] == k;
            lemma_chase_counts_same(a, b, c, f, t);
        }
        if exists|from: int, to: int| #[trigger] b.chase_counts(c, from, to) && b.id_board[to] == k {
            let (f, t) = choose|f: int, t: int| #[trigger] b.chase_counts(c, f, t) && b.id_board[t] == k;
            lemma_chase_counts_same(a, b, c, f, t);
        }
    }
}

proof fn lemma_u16_bits(x: u16, y: u16)
    requires
        bit16(x, 0) == bit16(y, 0),
        bit16(x, 1) == bit16(y, 1),
        bit16(x, 2) == bit16(y, 2),
        bit16(x, 3) == bit16(y, 3),
        bit16(x, 4) == bit16(y, 4),
        bit16(x, 5) == bit16(y, 5),
        bit16(x, 6) == bit16(y, 6),
        bit16(x, 7) == bit16(y, 7),
        bit16(x, 8) == bit16(y, 8),
        bit16(x, 9) == bit16(y, 9),
        bit16(x, 10) == bit16(y, 10),
        bit16(x, 11) == bit16(y, 11),
        bit16(x, 12) == bit16(y, 12),
        bit16(x, 13) == bit16(y, 13),
        bit16(x, 14) == bit16(y, 14),
        bit16(x, 15) == bit16(y, 15),
    ensures
        x == y,
{
    assert(x == y) by (bit_vector)
        requires
            ((x >> 0u16) & 1u16 == 1u16) == ((y >> 0u16) & 1u16 == 1u16),
            ((x >> 1u16) & 1u16 == 1u16) == ((y >> 1u16) & 1u16 == 1u16),
            ((x >> 2u16) & 1u16 == 1u16) == ((y >> 2u16) & 1u16 == 1u16),
            ((x >> 3u16) & 1u16 == 1u16) == ((y >> 3u16) & 1u16 == 1u16),
            ((x >> 4u16) & 1u16 == 1u16) == ((y >> 4u16) & 1u16 == 1u16),
            ((x >> 5u16) & 1u16 == 1u16) == ((y >> 5u16) & 1u16 == 1u16),
            ((x >> 6u16) & 1u16 == 1u16) == ((y >> 6u16) & 1u16 == 1u16),
            ((x >> 7u16) & 1u16 == 1u16) == ((y >> 7u16) & 1u16 == 1u16),
            ((x >> 8u16) & 1u16 == 1u16) == ((y >> 8u16) & 1u16 == 1u16),
            ((x >> 9u16) & 1u16 == 1u16) == ((y >> 9u16) & 1u16 == 1u16),
            ((x >> 10u16) & 1u16 == 1u16) == ((y >> 10u16) & 1u16 == 1u16),
            ((x >> 11u16) & 1u16 == 1u16) == ((y >> 11u16) & 1u16 == 1u16),
            ((x >> 12u16) & 1u16 == 1u16) == ((y >> 12u16) & 1u16 == 1u16),
            ((x >> 13u16) & 1u16 == 1u16) == ((y >> 13u16) & 1u16 == 1u16),
            ((x >> 14u16) & 1u16 == 1u16) == ((y >> 14u16) & 1u16 == 1u16),
            ((x >> 15u16) & 1u16 == 1u16) == ((y >> 15u16) & 1u16 == 1u16),
    ;
}

/// The chased set is one word: two words that both are it are equal.
proof fn lemma_chase_exact_unique(p: Position, c: Color, x: u16, y: u16)
    requires
        p.chase_exact(c, x),
        p.chase_exact(c, y),
    ensures
        x == y,
{
    assert forall|k: int| 0 <= k < 16 implies #[trigger] bit16(x, k) == bit16(y, k) by {}
    assert(bit16(x, 0) == bit16(y, 0));
    assert(bit16(x, 1) == bit16(y, 1));
    assert(bit16(x, 2) == bit16(y, 2));
    assert(bit16(x, 3) == bit16(y, 3));
    assert(bit16(x, 4) == bit16(y, 4));
    assert(bit16(x, 5) == bit16(y, 5));
    assert(bit16(x, 6) == bit16(y, 6));
    assert(bit16(x, 7) == bit16(y, 7));
    assert(bit16(x, 8) == bit16(y, 8));
    assert(bit16(x, 9) == bit16(y, 9));
    assert(bit16(x, 10) == bit16(y, 10));
    assert(bit16(x, 11) == bit16(y, 11));
    assert(bit16(x, 12) == bit16(y, 12));
    assert(bit16(x, 13) == bit16(y, 13));
    assert(bit16(x, 14) == bit16(y, 14));
    assert(bit16(x, 15) == bit16(y, 15));
    lemma_u16_bits(x, y);
}

/// The pieces of `c` chased in `p` (see `chase_exact`).
pub open spec fn chased_bits(p: Position, c: Color) -> u16 {
    choose|x: u16| p.chase_exact(c, x)
}

/// A word that is the chased set of `c` in `a` is the chased set of `c` in
/// any `b` that agrees with `a` on what chase detection reads.
proof fn lemma_chased_bits(a: Position, b: Position, c: Color, x: u16)
    requires
        chase_same(a, b),
        a.chase_exact(c, x),
    ensures
        chased_bits(b, c) == x,
{
    lemma_chase_exact_same(a, b, c, x);
    lemma_chase_exact_unique(b, c, chased_bits(b, c), x);
}

/// The chase set of side `c` in the pair `ch` (white first).
pub open spec fn side_bits(ch: (u16, u16), c: Color) -> u16 {
    if c == Color::White {
        ch.0
    } else {
        ch.1
    }
}

/// `ch` with the chase set of `c` replaced by `x`.
pub open spec fn with_side(ch: (u16, u16), c: Color, x: u16) -> (u16, u16) {
    if c == Color::White {
        (x, ch.1)
    } else {
        (ch.0, x)
    }
}

/// `q` is `p` with its last move taken back on the board, the state read
/// at `cur - 1` of the history (when `cur` is above zero) and the side to
/// move flipped, as `undo_move_light` does; `cur2` is the next cursor.
pub open spec fn walked_back(p: Position, q: Position, cur: int, cur2: int) -> bool {
    &&& q.valid()
    &&& q.ids_in_range()
    &&& p.light_undoable() ==> q.board@ == board_after_unmove(
        p.board@,
        p.state.last_move.from_id(),
        p.state.last_move.to_id(),
        p.state.captured_piece,
    )
    &&& !p.light_undoable() ==> q.board == p.board
    &&& q.side_to_move == p.side_to_move.opp()
    &&& cur > 0 ==> cur2 == cur - 1 && q.state == p.state_stack@[cur - 1]
    &&& cur <= 0 ==> cur2 == 0 && q.state == p.state
    &&& q.state_stack@ == p.state_stack@
    &&& q.id_board == p.id_board
}

/// `ps` walks back through the history, each position taken back from the
/// one before with the cursors `cs`.
pub open spec fn walk_back(ps: Seq<Position>, cs: Seq<int>) -> bool {
    &&& ps.len() >= 1
    &&& cs.len() == ps.len()
    &&& forall|k: int| 0 <= k < ps.len() - 1 ==> walked_back(#[trigger] ps[k], ps[k + 1], cs[k], cs[k + 1])
}

/// One step back from `p` to `q`: the chase set of the side that made the
/// move taken back keeps the pieces it chased in `p` and did not chase in
/// `q`.
pub open spec fn walk_step(p: Position, q: Position, ch: (u16, u16)) -> (u16, u16) {
    let opp = p.side_to_move.opp();
    if side_bits(ch, opp) == 0 {
        ch
    } else {
        with_side(ch, opp, side_bits(ch, opp) & (chased_bits(p, opp) & !chased_bits(q, opp)))
    }
}

/// The chase sets after walking back along all of `ps`, from `ch0`.
pub open spec fn walk_chase(ps: Seq<Position>, ch0: (u16, u16)) -> (u16, u16)
    decreases ps.len(),
{
    if ps.len() <= 1 {
        ch0
    } else {
        walk_step(ps[ps.len() - 2], ps.last(), walk_chase(ps.drop_last(), ch0))
    }
}

/// The walk goes on past `ps[k]`: fewer than `d` steps were taken, no side
/// is in check there, and some side still chases.
pub open spec fn walk_continues(ps: Seq<Position>, k: int, d: int, ch0: (u16, u16)) -> bool {
    let ch = walk_chase(ps.take(k + 1), ch0);
    let side = ps[k].side_to_move;
    &&& k < d
    &&& ps[k].state.checkers_bb.0 == 0
    &&& !(side_bits(ch, side.opp()) == 0 && side_bits(ch, side) == 0)
}

/// The ruling at the end of the walk `ps`: a draw when a check was met,
/// otherwise a side that alone still chases loses.
pub open spec fn walk_ruling(ps: Seq<Position>, d: int, ch0: (u16, u16), us: Color, ply: int) -> int {
    let n = ps.len() - 1;
    let ch = walk_chase(ps, ch0);
    if n < d && ps[n].state.checkers_bb.0 != 0 {
        VALUE_DRAW as int
    } else {
        chase_ruling(side_bits(ch, us) != 0, side_bits(ch, us.opp()) != 0, ply)
    }
}

/// `r` is the ruling of the walk back from `p0` with the cursor `cur0`, at
/// most `d` plies long, starting from the chase sets `ch0`.
pub open spec fn chase_walk_ruling(p0: Position, cur0: int, d: int, ch0: (u16, u16), us: Color, ply: int, r: int) -> bool {
    exists|ps: Seq<Position>, cs: Seq<int>|
        #[trigger] walk_back(ps, cs) && ps[0] == p0 && cs[0] == cur0 && (forall|k: int|
            0 <= k < ps.len() - 1 ==> #[trigger] walk_continues(ps, k, d, ch0)) && !walk_continues(
            ps,
            ps.len() - 1,
            d,
            ch0,
        ) && r == walk_ruling(ps, d, ch0, us, ply)
}

/// `q` is `p` with each piece numbered among the pieces of its side in
/// square order (empty squares keep their numbers).
pub open spec fn numbered(p: Position, q: Position) -> bool {
    &&& q == (Position { id_board: q.id_board, ..p })
    &&& forall|s: int|
        0 <= s < 90 ==> #[trigger] q.id_board[s] == if p.board[s] != Piece::NONE {
            color_count(p.board@, p.board[s].color_of(), s) as i32
        } else {
            p.id_board[s]
        }
}

/// Setting the bit of a chased piece keeps the bits accounted for.
proof fn lemma_chase_add(p: Position, c: Color, x: u16, from: int, to: int)
    requires
        p.chase_sound(c, x),
        p.chase_witness(c, from, to),
        0 <= p.id_board[to] < 16,
    ensures
        p.chase_sound(c, x | (1u16 << (p.id_board[to] as u16))),
{
    let id = p.id_board[to] as u16;
    assert forall|k: int| 0 <= k < 16 && #[trigger] bit16(x | (1u16 << id), k) implies exists|
        f: int,
        t: int,
    | #[trigger] p.chase_witness(c, f, t) && p.id_board[t] == k by {
        lemma_bit16_set(x, id, k as u16);
        if k == id as int {
            assert(p.chase_witness(c, from, to) && p.id_board[to] == k);
        } else {
            assert(bit16(x, k));
        }
    }
}

} // verus!
