//! Attackers, checkers, pins, and the legality of moves.

use vstd::prelude::*;

use super::position::{Position, is_piece};
use super::movegen::GenType;
use crate::bitboard::attacks::{
    advisor_step, advisor_steps, bishop_attack_has, cannon_attack_has, king_step, king_steps,
    knight_attack_has, knight_to_attack_has, pawn_attack_has, rook_attack_has,
};
use crate::bitboard::lines::{between_has, on_line};
use crate::bitboard::attacks::orth_aligned;
use crate::bitboard::tables::{in_half, in_palace};
use crate::bitboard::{
    Bitboard, aligned, between_bb, half_bb, lame_leaper_attack_bishop, lame_leaper_attack_knight,
    lame_leaper_attack_knight_to, palace, pawn_attacks_bb, pawn_attacks_to_bb, ray_pass_bb,
    sliding_attack_cannon, sliding_attack_rook, square_bb,
};
use crate::types::{
    ADVISOR_VALUE, BISHOP_VALUE, CANNON_VALUE, Color, KNIGHT_VALUE, Move, PAWN_VALUE, Piece,
    PieceType, ROOK_VALUE, Square, Value, on_board, piece_value, piece_value_spec,
};

verus! {

/// A piece `p` on `t` attacks `sq` given the occupancy `occ` (kings and
/// advisors only within the palace).
pub open spec fn piece_attacks(p: Piece, t: int, sq: int, occ: Bitboard) -> bool {
    p != Piece::NONE && match p.type_of() {
        PieceType::Pawn => pawn_attack_has(p.color_of(), t, sq),
        PieceType::Knight => knight_to_attack_has(sq, occ, t),
        PieceType::Rook => rook_attack_has(sq, occ, t),
        PieceType::Cannon => cannon_attack_has(sq, occ, t),
        PieceType::Bishop => bishop_attack_has(sq, occ, t),
        PieceType::Advisor => advisor_step(sq, t) && in_palace(t),
        PieceType::King => king_step(sq, t) && in_palace(t),
    }
}

/// A piece `p` of color `c` on `t` gives check to a king on `sq`: pawns,
/// knights, rooks and cannons by their attacks, and the other king when the
/// file between them is open (the flying general).
pub open spec fn piece_checks(p: Piece, c: Color, t: int, sq: int, occ: Bitboard) -> bool {
    p != Piece::NONE && p.color_of() == c && match p.type_of() {
        PieceType::Pawn => pawn_attack_has(c, t, sq),
        PieceType::Knight => knight_to_attack_has(sq, occ, t),
        PieceType::Rook | PieceType::King => rook_attack_has(sq, occ, t),
        PieceType::Cannon => cannon_attack_has(sq, occ, t),
        _ => false,
    }
}

impl Position {
    /// The whole position is usable: consistent and with both kings.
    pub open spec fn valid(&self) -> bool {
        self.wf() && self.kings_present()
    }

    /// Palace squares orthogonally next to `sq`.
    pub fn pseudo_attacks_king(&self, sq: Square) -> (b: Bitboard)
        requires
            sq.valid(),
        ensures
            forall|t: int| #[trigger] b.has(t) == (king_step(sq.id(), t) && in_palace(t)),
            b.wf(),
    {
        king_steps(sq).and(palace())
    }

    /// Palace squares diagonally next to `sq`.
    pub fn pseudo_attacks_advisor(&self, sq: Square) -> (b: Bitboard)
        requires
            sq.valid(),
        ensures
            forall|t: int| #[trigger] b.has(t) == (advisor_step(sq.id(), t) && in_palace(t)),
            b.wf(),
    {
        advisor_steps(sq).and(palace())
    }

    /// Pieces of either color attacking `sq`, given the occupancy `occupied`.
    pub fn attackers_to(&self, sq: Square, occupied: Bitboard) -> (b: Bitboard)
        requires
            self.wf(),
            sq.valid(),
        ensures
            b.wf(),
            forall|t: int|
                0 <= t < 90 ==> (#[trigger] b.has(t) == piece_attacks(
                    self.board[t],
                    t,
                    sq.id(),
                    occupied,
                )),
    {
        let wp = pawn_attacks_to_bb(Color::White, sq).and(self.pieces(Color::White, PieceType::Pawn));
        let bp = pawn_attacks_to_bb(Color::Black, sq).and(self.pieces(Color::Black, PieceType::Pawn));
        let n = lame_leaper_attack_knight_to(sq, occupied).and(self.pieces_by_type(PieceType::Knight));
        let r = sliding_attack_rook(sq, occupied).and(self.pieces_by_type(PieceType::Rook));
        let c = sliding_attack_cannon(sq, occupied).and(self.pieces_by_type(PieceType::Cannon));
        let bi = lame_leaper_attack_bishop(sq, occupied).and(self.pieces_by_type(PieceType::Bishop));
        let a = self.pseudo_attacks_advisor(sq).and(self.pieces_by_type(PieceType::Advisor));
        let k = self.pseudo_attacks_king(sq).and(self.pieces_by_type(PieceType::King));
        wp.or(bp).or(n).or(r).or(c).or(bi).or(a).or(k)
    }

    /// Pieces of either color attacking `sq` on the current board.
    pub fn attackers_to_simple(&self, sq: Square) -> (b: Bitboard)
        requires
            self.wf(),
            sq.valid(),
        ensures
            b.wf(),
            forall|t: int|
                0 <= t < 90 ==> (#[trigger] b.has(t) == piece_attacks(
                    self.board[t],
                    t,
                    sq.id(),
                    self.occ(),
                )),
    {
        self.attackers_to(sq, self.all_pieces())
    }

    /// Pieces of color `c` giving check to a king on `sq`, given `occupied`.
    pub fn checkers_to(&self, c: Color, sq: Square, occupied: Bitboard) -> (b: Bitboard)
        requires
            self.wf(),
            sq.valid(),
        ensures
            b.wf(),
            forall|t: int|
                0 <= t < 90 ==> (#[trigger] b.has(t) == piece_checks(
                    self.board[t],
                    c,
                    t,
                    sq.id(),
                    occupied,
                )),
    {
        let p = pawn_attacks_to_bb(c, sq).and(self.pieces_by_type(PieceType::Pawn));
        let n = lame_leaper_attack_knight_to(sq, occupied).and(self.pieces_by_type(PieceType::Knight));
        let r = sliding_attack_rook(sq, occupied).and(
            self.pieces_by_type(PieceType::King).or(self.pieces_by_type(PieceType::Rook)),
        );
        let cn = sliding_attack_cannon(sq, occupied).and(self.pieces_by_type(PieceType::Cannon));
        p.or(n).or(r).or(cn).and(self.pieces_by_color(c))
    }

    /// An enemy piece that could pin or shield against the king of `c`: a
    /// rook, cannon or king on the king's file or rank, or a knight a leap
    /// away, seen on an empty board.
    pub open spec fn sniper_of(&self, c: Color, t: int) -> bool {
        let k = self.king_sq(c);
        let p = self.board[t];
        &&& 0 <= t < 90
        &&& p != Piece::NONE
        &&& p.color_of() == c.opp()
        &&& {
            ||| rook_attack_has(k, Bitboard(0), t) && (p.type_of() == PieceType::Rook || p.type_of()
                == PieceType::Cannon || p.type_of() == PieceType::King)
            ||| knight_attack_has(k, Bitboard(0), t) && p.type_of() == PieceType::Knight
        }
    }

    /// The pieces that count on the line from the king of `c` to the sniper
    /// on `s`: for a cannon every piece but itself, otherwise every piece but
    /// the snipers that are not cannons.
    pub open spec fn line_counts(&self, c: Color, s: int, t: int) -> bool {
        let occ = self.occ();
        if self.board[s].type_of() == PieceType::Cannon {
            occ.has(t) && t != s
        } else {
            occ.has(t) && !(self.sniper_of(c, t) && self.board[t].type_of() != PieceType::Cannon)
        }
    }

    /// The counted pieces between the king of `c` and the sniper on `s`.
    pub open spec fn line_pieces(&self, c: Color, s: int) -> Set<int> {
        Set::new(|t: int| between_has(self.king_sq(c), s, t) && self.line_counts(c, s, t))
    }

    /// The sniper on `s` is held back by its line pieces: one of them, or,
    /// for a cannon, two (its screen and one more).
    pub open spec fn held(&self, c: Color, s: int) -> bool {
        &&& self.sniper_of(c, s)
        &&& self.line_pieces(c, s).len() == if self.board[s].type_of() == PieceType::Cannon {
            2nat
        } else {
            1nat
        }
    }

    /// Recomputes the pieces shielding the king of `c` from an enemy rook,
    /// cannon, king or knight (`blockers_for_king[c]`) and the enemy pieces
    /// pinning one of `c`'s own pieces (`pinners[!c]`).
    pub fn update_blockers(&mut self, c: Color)
        requires
            old(self).valid(),
        ensures
            final(self).valid(),
            final(self).board == old(self).board,
            final(self).by_type_bb == old(self).by_type_bb,
            final(self).by_color_bb == old(self).by_color_bb,
            final(self).piece_count == old(self).piece_count,
            final(self).side_to_move == old(self).side_to_move,
            final(self).game_ply == old(self).game_ply,
            final(self).state_stack@ == old(self).state_stack@,
            final(self).bloom_filter.table@ == old(self).bloom_filter.table@,
            final(self).id_board == old(self).id_board,
            final(self).mid_encoding_val == old(self).mid_encoding_val,
            final(self).zob == old(self).zob,
            final(self).state == (crate::position::state::StateInfo {
                blockers_for_king: final(self).state.blockers_for_king,
                pinners: final(self).state.pinners,
                ..old(self).state
            }),
            final(self).state.blockers_for_king[c.opp().id()] == old(
                self,
            ).state.blockers_for_king[c.opp().id()],
            final(self).state.pinners[c.id()] == old(self).state.pinners[c.id()],
            final(self).state.blockers_for_king[c.id()].wf(),
            final(self).state.pinners[c.opp().id()].wf(),
            forall|t: int| #[trigger]
                final(self).state.blockers_for_king[c.id()].has(t) ==> old(self).occ().has(t),
            forall|t: int|
                #[trigger] final(self).state.pinners[c.opp().id()].has(t) ==> 0 <= t < 90 && is_sniper(
                    old(self).board[t],
                    c.opp(),
                ),
            forall|t: int|
                #[trigger] final(self).state.blockers_for_king[c.id()].has(t) == exists|s: int|
                    old(self).held(c, s) && #[trigger] old(self).line_pieces(c, s).contains(t),
            forall|s: int|
                #[trigger] final(self).state.pinners[c.opp().id()].has(s) == (old(self).held(c, s)
                    && exists|t: int| #[trigger] old(self).line_pieces(c, s).contains(t) && old(
                    self,
                ).board[t] != Piece::NONE && old(self).board[t].color_of() == c),
    {
        let ksq = self.king_square(c);
        let ci = c.index();
        let oi = c.flip().index();
        let e = Bitboard::empty();
        self.state.blockers_for_king[ci] = e;
        self.state.pinners[oi] = e;
        let sliders = self.pieces_by_type(PieceType::Rook).or(
            self.pieces_by_type(PieceType::Cannon),
        ).or(self.pieces_by_type(PieceType::King));
        let snipers = sliding_attack_rook(ksq, e).and(sliders).or(
            lame_leaper_attack_knight(ksq, e).and(self.pieces_by_type(PieceType::Knight)),
        ).and(self.pieces_by_color(c.flip()));
        let all = self.all_pieces();
        let occupancy = all.xor(snipers.and(self.pieces_by_type(PieceType::Cannon).complement()));
        let own = self.pieces_by_color(c);
        let mut it = snipers;
        proof {
            it.lemma_finite();
            lemma_king_square_is(old(self), c, ksq.id());
            assert forall|t: int| #[trigger] snipers.has(t) == old(self).sniper_of(c, t) by {
                if !(0 <= t < 90) {
                    crate::bitboard::bitboard::lemma_board_bits(snipers.0, t);
                }
            }
            assert forall|t: int| #[trigger] occupancy.has(t) == (all.has(t) && !(old(self).sniper_of(c, t)
                && old(self).board[t].type_of() != PieceType::Cannon)) by {
                if !(0 <= t < 90) {
                    crate::bitboard::bitboard::lemma_board_bits(all.0, t);
                }
            }
            assert forall|t: int| #[trigger] own.has(t) == (0 <= t < 90 && old(self).board[t] != Piece::NONE
                && old(self).board[t].color_of() == c) by {
                if !(0 <= t < 90) {
                    crate::bitboard::bitboard::lemma_board_bits(own.0, t);
                }
            }
        }
        while it.is_not_empty()
            invariant
                self.valid(),
                self.board == old(self).board,
                self.by_type_bb == old(self).by_type_bb,
                self.by_color_bb == old(self).by_color_bb,
                self.piece_count == old(self).piece_count,
                self.side_to_move == old(self).side_to_move,
                self.game_ply == old(self).game_ply,
                self.state_stack@ == old(self).state_stack@,
                self.bloom_filter.table@ == old(self).bloom_filter.table@,
                self.id_board == old(self).id_board,
                self.mid_encoding_val == old(self).mid_encoding_val,
                self.zob == old(self).zob,
                self.state == (crate::position::state::StateInfo {
                    blockers_for_king: self.state.blockers_for_king,
                    pinners: self.state.pinners,
                    ..old(self).state
                }),
                self.state.blockers_for_king[c.opp().id()] == old(
                    self,
                ).state.blockers_for_king[c.opp().id()],
                self.state.pinners[c.id()] == old(self).state.pinners[c.id()],
                self.state.blockers_for_king[c.id()].wf(),
                self.state.pinners[c.opp().id()].wf(),
                ci == c.id(),
                oi == c.opp().id(),
                ksq.valid(),
                it.wf(),
                it@.finite(),
                all == old(self).occ(),
                occupancy.wf(),
                forall|t: int| #[trigger] occupancy.has(t) ==> all.has(t),
                forall|t: int| #[trigger] it.has(t) ==> 0 <= t < 90 && is_sniper(self.board[t], c.opp()),
                forall|t: int| #[trigger]
                    self.state.blockers_for_king[c.id()].has(t) ==> old(self).occ().has(t),
                forall|t: int|
                    #[trigger] self.state.pinners[c.opp().id()].has(t) ==> 0 <= t < 90 && is_sniper(
                        old(self).board[t],
                        c.opp(),
                    ),
                ksq.id() == old(self).king_sq(c),
                forall|t: int| #[trigger] snipers.has(t) == old(self).sniper_of(c, t),
                forall|t: int| #[trigger] occupancy.has(t) == (all.has(t) && !(old(self).sniper_of(c, t)
                    && old(self).board[t].type_of() != PieceType::Cannon)),
                forall|t: int| #[trigger] own.has(t) == (0 <= t < 90 && old(self).board[t] != Piece::NONE
                    && old(self).board[t].color_of() == c),
                forall|t: int| #[trigger] it.has(t) ==> snipers.has(t),
                forall|t: int|
                    #[trigger] self.state.blockers_for_king[c.id()].has(t) == exists|s: int|
                        snipers.has(s) && !it.has(s) && old(self).held(c, s) && #[trigger] old(
                            self,
                        ).line_pieces(c, s).contains(t),
                forall|s: int|
                    #[trigger] self.state.pinners[c.opp().id()].has(s) == (snipers.has(s) && !it.has(s)
                        && old(self).held(c, s) && exists|t: int|
                        #[trigger] old(self).line_pieces(c, s).contains(t) && own.has(t)),
            decreases it@.len(),
        {
            let ghost old_it = it;
            let sniper = it.pop_lsb();
            let is_cannon = self.piece_on(sniper).piece_type() == PieceType::Cannon;
            let mask = if is_cannon {
                all.xor(Bitboard::from_square(sniper))
            } else {
                occupancy
            };
            let b = between_bb(ksq, sniper).and(mask);
            let ghost sq = sniper.id();
            let ghost lp = old(self).line_pieces(c, sq);
            proof {
                assert(all.has(sq));
                assert(old(self).by_type_bb[0].wf());
                assert(all.wf());
                assert forall|t: int| #[trigger] b.has(t) == lp.contains(t) by {
                    if !(0 <= t < 90) {
                        crate::bitboard::bitboard::lemma_board_bits(all.0, t);
                    }
                }
                assert forall|t: int| #[trigger] b@.contains(t) == lp.contains(t) by {
                    assert(b@.contains(t) == b.has(t));
                }
                assert(b@ =~= lp);
            }
            let count = b.popcount();
            let ghost blk0 = self.state.blockers_for_king[c.id()];
            let ghost pin0 = self.state.pinners[c.opp().id()];
            if b.is_not_empty() && ((!is_cannon && count == 1) || (is_cannon && count == 2)) {
                self.state.blockers_for_king[ci] = self.state.blockers_for_king[ci].or(b);
                let with_own = b.and(own);
                if with_own.is_not_empty() {
                    self.state.pinners[oi] = self.state.pinners[oi].or(
                        Bitboard::from_square(sniper),
                    );
                    proof {
                        with_own.lemma_empty_iff();
                        let t0 = choose|t: int| #[trigger] with_own.has(t);
                        assert(lp.contains(t0) && own.has(t0));
                    }
                } else {
                    proof {
                        with_own.lemma_empty_iff();
                        assert forall|t: int| !(#[trigger] lp.contains(t) && own.has(t)) by {
                            assert(!with_own.has(t));
                        }
                    }
                }
                proof {
                    assert(old(self).held(c, sq));
                }
            } else {
                proof {
                    if old(self).held(c, sq) {
                        b.lemma_empty_iff();
                        if b.0 == 0 {
                            assert(b@ =~= Set::<int>::empty());
                        }
                    }
                    assert(!old(self).held(c, sq));
                }
            }
            proof {
                assert forall|t: int|
                    #[trigger] self.state.blockers_for_king[c.id()].has(t) == exists|s: int|
                        snipers.has(s) && !it.has(s) && old(self).held(c, s) && #[trigger] old(
                            self,
                        ).line_pieces(c, s).contains(t) by {
                    if exists|s: int| snipers.has(s) && !it.has(s) && old(self).held(c, s) && #[trigger] old(
                        self,
                    ).line_pieces(c, s).contains(t) {
                        let w = choose|s: int| snipers.has(s) && !it.has(s) && old(self).held(c, s) && #[trigger] old(
                            self,
                        ).line_pieces(c, s).contains(t);
                        if w != sq {
                            assert(blk0.has(t));
                        }
                    }
                    if blk0.has(t) {
                        let w = choose|s: int| snipers.has(s) && !old_it.has(s) && old(self).held(c, s) && #[trigger] old(
                            self,
                        ).line_pieces(c, s).contains(t);
                        assert(w != sq);
                    }
                }
            }
        }
    }

    /// The squares a piece of the side to move would check the enemy king
    /// from, by piece-type slot, before discovered cannon checks are added.
    pub open spec fn direct_check_has(&self, slot: int, t: int) -> bool {
        let ksq = self.king_sq(self.side_to_move.opp());
        let occ = self.occ();
        if slot == 4 {
            on_board(t) && pawn_attack_has(self.side_to_move, t, ksq)
        } else if slot == 5 {
            knight_to_attack_has(ksq, occ, t)
        } else if slot == 3 {
            cannon_attack_has(ksq, occ, t)
        } else if slot == 1 {
            rook_attack_has(ksq, occ, t)
        } else {
            false
        }
    }

    /// Squares on the segment (plus the king square) from a cannon of the
    /// side to move that a rook on the enemy king's square would see, to that
    /// king: leaving one of them turns the cannon's line into a check.
    pub open spec fn hollow_discover_has(&self, t: int) -> bool {
        let ksq = self.king_sq(self.side_to_move.opp());
        exists|hc: int|
            0 <= hc < 90 && rook_attack_has(ksq, self.occ(), hc) && is_piece(
                self.board[hc],
                self.side_to_move,
                PieceType::Cannon,
            ) && #[trigger] between_has(hc, ksq, t)
    }

    /// Whether a full legality test is needed, and the squares from which
    /// each piece type of the side to move would give check, agree with the
    /// board and with the recorded checkers.
    pub open spec fn check_info_ok(&self) -> bool {
        &&& self.state.need_full_check == (self.state.checkers_bb.0 != 0 || exists|t: int|
            0 <= t < 90 && #[trigger] rook_attack_has(
                self.king_sq(self.side_to_move),
                Bitboard(0),
                t,
            ) && is_piece(self.board[t], self.side_to_move.opp(), PieceType::Cannon))
        &&& forall|slot: int, t: int|
            1 <= slot <= 7 ==> (#[trigger] self.state.check_squares[slot].has(t) == (
            self.direct_check_has(slot, t) || (slot < 7 && self.hollow_discover_has(t))))
    }

    /// Recomputes blockers and pinners for both sides, whether a full check
    /// test is needed for legality, and the checking squares.
    pub fn set_check_info(&mut self)
        requires
            old(self).valid(),
        ensures
            final(self).valid(),
            final(self).board == old(self).board,
            final(self).by_type_bb == old(self).by_type_bb,
            final(self).by_color_bb == old(self).by_color_bb,
            final(self).piece_count == old(self).piece_count,
            final(self).side_to_move == old(self).side_to_move,
            final(self).game_ply == old(self).game_ply,
            final(self).state_stack@ == old(self).state_stack@,
            final(self).bloom_filter.table@ == old(self).bloom_filter.table@,
            final(self).id_board == old(self).id_board,
            final(self).mid_encoding_val == old(self).mid_encoding_val,
            final(self).zob == old(self).zob,
            final(self).state == (crate::position::state::StateInfo {
                blockers_for_king: final(self).state.blockers_for_king,
                pinners: final(self).state.pinners,
                need_full_check: final(self).state.need_full_check,
                check_squares: final(self).state.check_squares,
                ..old(self).state
            }),
            final(self).state.need_full_check == (old(self).state.checkers_bb.0 != 0 || exists|
                t: int,
            |
                0 <= t < 90 && #[trigger] rook_attack_has(
                    old(self).king_sq(old(self).side_to_move),
                    Bitboard(0),
                    t,
                ) && is_piece(old(self).board[t], old(self).side_to_move.opp(), PieceType::Cannon)),
            forall|slot: int, t: int|
                1 <= slot <= 7 ==> (#[trigger] final(self).state.check_squares[slot].has(t) == (
                old(self).direct_check_has(slot, t) || (slot < 7 && old(
                    self,
                ).hollow_discover_has(t)))),
            final(self).check_info_ok(),
    {
        self.update_blockers(Color::White);
        self.update_blockers(Color::Black);
        let stm = self.side_to_move;
        let ksq = self.king_square(stm.flip());
        let own_ksq = self.king_square(stm);
        proof {
            assert(self.king_sq(stm) == old(self).king_sq(stm));
            assert(self.king_sq(stm.opp()) == old(self).king_sq(stm.opp()));
            assert(self.occ() == old(self).occ());
        }
        let e = Bitboard::empty();
        let all = self.all_pieces();
        let enemy_cannons = self.pieces(stm.flip(), PieceType::Cannon);
        let line_cannons = sliding_attack_rook(own_ksq, e).and(enemy_cannons);
        proof {
            line_cannons.lemma_empty_iff();
            assert(e == Bitboard(0));
            if line_cannons.0 != 0 {
                let t = choose|t: int| #[trigger] line_cannons.has(t);
                assert(0 <= t < 90 && rook_attack_has(own_ksq.id(), Bitboard(0), t) && is_piece(
                    old(self).board[t],
                    old(self).side_to_move.opp(),
                    PieceType::Cannon,
                ));
            }
            if exists|t: int|
                0 <= t < 90 && #[trigger] rook_attack_has(own_ksq.id(), Bitboard(0), t) && is_piece(
                    old(self).board[t],
                    old(self).side_to_move.opp(),
                    PieceType::Cannon,
                ) {
                let t = choose|t: int|
                    0 <= t < 90 && #[trigger] rook_attack_has(own_ksq.id(), Bitboard(0), t)
                        && is_piece(old(self).board[t], old(self).side_to_move.opp(), PieceType::Cannon);
                assert(line_cannons.has(t));
            }
        }
        self.state.need_full_check = self.state.checkers_bb.is_not_empty()
            || line_cannons.is_not_empty();
        let pawn_cs = pawn_attacks_to_bb(stm, ksq);
        let knight_cs = lame_leaper_attack_knight_to(ksq, all);
        let cannon_cs = sliding_attack_cannon(ksq, all);
        let rook_cs = sliding_attack_rook(ksq, all);
        let hollow = rook_cs.and(self.pieces(stm, PieceType::Cannon));
        let mut discover = e;
        let mut it = hollow;
        proof {
            it.lemma_finite();
        }
        while it.is_not_empty()
            invariant
                it.wf(),
                it@.finite(),
                ksq.valid(),
                discover.wf(),
                forall|t: int| #[trigger] it.has(t) ==> hollow.has(t),
                forall|t: int| #[trigger]
                    discover.has(t) == exists|hc: int|
                        hollow.has(hc) && !it.has(hc) && #[trigger] between_has(hc, ksq.id(), t),
                forall|t: int| #[trigger] hollow.has(t) ==> 0 <= t < 90,
            decreases it@.len(),
        {
            let ghost old_it = it;
            let ghost old_d = discover;
            let hc = it.pop_lsb();
            let seg = between_bb(hc, ksq);
            discover = discover.or(seg);
            proof {
                assert forall|t: int| #[trigger]
                    discover.has(t) == exists|h: int|
                        hollow.has(h) && !it.has(h) && #[trigger] between_has(h, ksq.id(), t) by {
                    if discover.has(t) {
                        if old_d.has(t) {
                            let h = choose|h: int|
                                hollow.has(h) && !old_it.has(h) && #[trigger] between_has(
                                    h,
                                    ksq.id(),
                                    t,
                                );
                            assert(!it.has(h));
                        } else {
                            assert(seg.has(t));
                            assert(hollow.has(hc.id()) && !it.has(hc.id()) && between_has(
                                hc.id(),
                                ksq.id(),
                                t,
                            ));
                        }
                    }
                    if exists|h: int| hollow.has(h) && !it.has(h) && #[trigger] between_has(h, ksq.id(), t) {
                        let h = choose|h: int|
                            hollow.has(h) && !it.has(h) && #[trigger] between_has(h, ksq.id(), t);
                        if h != hc.id() {
                            assert(!old_it.has(h));
                            assert(old_d.has(t));
                        }
                    }
                }
            }
        }
        proof {
            assert forall|t: int| #[trigger] discover.has(t) == old(self).hollow_discover_has(t) by {
                if discover.has(t) {
                    let h = choose|h: int|
                        hollow.has(h) && !it.has(h) && #[trigger] between_has(h, ksq.id(), t);
                    assert(0 <= h < 90 && rook_attack_has(ksq.id(), old(self).occ(), h) && is_piece(
                        old(self).board[h],
                        old(self).side_to_move,
                        PieceType::Cannon,
                    ) && between_has(h, ksq.id(), t));
                }
                if old(self).hollow_discover_has(t) {
                    let h = choose|h: int|
                        0 <= h < 90 && rook_attack_has(ksq.id(), old(self).occ(), h) && is_piece(
                            old(self).board[h],
                            old(self).side_to_move,
                            PieceType::Cannon,
                        ) && #[trigger] between_has(h, ksq.id(), t);
                    assert(hollow.has(h));
                    it.lemma_empty_iff();
                    assert(!it.has(h));
                }
            }
        }
        self.state.check_squares[0] = e;
        self.state.check_squares[1] = rook_cs.or(discover);
        self.state.check_squares[2] = discover;
        self.state.check_squares[3] = cannon_cs.or(discover);
        self.state.check_squares[4] = pawn_cs.or(discover);
        self.state.check_squares[5] = knight_cs.or(discover);
        self.state.check_squares[6] = discover;
        self.state.check_squares[7] = e;
        proof {
            assert forall|slot: int, t: int|
                1 <= slot <= 7 implies (#[trigger] self.state.check_squares[slot].has(t) == (old(
                self,
            ).direct_check_has(slot, t) || (slot < 7 && old(self).hollow_discover_has(t)))) by {
                if slot == 1 {
                    assert(self.state.check_squares[1].has(t) == (rook_cs.has(t) || discover.has(t)));
                } else if slot == 2 {
                    assert(self.state.check_squares[2] == discover);
                } else if slot == 3 {
                    assert(self.state.check_squares[3].has(t) == (cannon_cs.has(t) || discover.has(t)));
                } else if slot == 4 {
                    assert(self.state.check_squares[4].has(t) == (pawn_cs.has(t) || discover.has(t)));
                } else if slot == 5 {
                    assert(self.state.check_squares[5].has(t) == (knight_cs.has(t) || discover.has(t)));
                } else if slot == 6 {
                    assert(self.state.check_squares[6] == discover);
                } else {
                    assert(self.state.check_squares[7] == e);
                }
            }
            assert(self.king_sq(stm) == old(self).king_sq(stm));
            assert(self.king_sq(stm.opp()) == old(self).king_sq(stm.opp()));
            assert(self.occ() == old(self).occ());
            assert forall|slot: int, t: int|
                1 <= slot <= 7 implies (#[trigger] self.state.check_squares[slot].has(t) == (
                self.direct_check_has(slot, t) || (slot < 7 && self.hollow_discover_has(t)))) by {
                assert(self.direct_check_has(slot, t) == old(self).direct_check_has(slot, t));
                assert(self.hollow_discover_has(t) == old(self).hollow_discover_has(t));
            }
        }
    }

    /// The occupancy after moving from `from` to `to`.
    pub open spec fn occ_after(&self, from: int, to: int) -> Bitboard {
        Bitboard((self.occ().0 ^ (1u128 << (from as u128))) | (1u128 << (to as u128)))
    }

    /// No piece of color `c` on the current board, other than one on
    /// `except`, would check a king on `sq` given the occupancy `occ`.
    pub open spec fn no_check_after(&self, c: Color, sq: int, occ: Bitboard, except: int) -> bool {
        forall|t: int|
            0 <= t < 90 && t != except ==> !#[trigger] piece_checks(self.board[t], c, t, sq, occ)
    }

    /// What `is_legal` decides: a king move is legal when no enemy piece
    /// checks the destination afterwards; another move is legal outright when
    /// no full test is needed and the piece is not shielding its king, or
    /// moves along the line to its king (a cannon only when not capturing);
    /// otherwise when no enemy piece, the captured one aside, checks the king
    /// afterwards.
    pub open spec fn legal_spec(&self, m: Move) -> bool {
        let us = self.side_to_move;
        let from = m.from_id();
        let to = m.to_id();
        let occ2 = self.occ_after(from, to);
        let pc = self.board[from];
        let ksq = self.king_sq(us);
        if pc == Piece::NONE {
            false
        } else if pc.type_of() == PieceType::King {
            self.no_check_after(us.opp(), to, occ2, -1)
        } else if !self.state.need_full_check && (!self.state.blockers_for_king[us.id()].has(from)
            || ((pc.type_of() != PieceType::Cannon || self.board[to] == Piece::NONE)
            && orth_aligned(from, to) && on_line(from, to, ksq))) {
            true
        } else {
            self.no_check_after(us.opp(), ksq, occ2, to)
        }
    }

    /// Whether the (pseudo-legal) move `m` keeps the mover's king safe.
    pub fn is_legal(&self, m: Move) -> (r: bool)
        requires
            self.valid(),
            m.well_formed(),
        ensures
            r == self.legal_spec(m),
    {
        let us = self.side_to_move;
        let from = m.from_sq();
        let to = m.to_sq();
        let occupied = self.all_pieces().xor(Bitboard::from_square(from)).or(
            Bitboard::from_square(to),
        );
        proof {
            assert(occupied == self.occ_after(from.id(), to.id()));
        }
        let pc = self.piece_on(from);
        if pc == Piece::NONE {
            return false;
        }
        if pc.piece_type() == PieceType::King {
            let ch = self.checkers_to(us.flip(), to, occupied);
            proof {
                ch.lemma_empty_iff();
                if ch.0 != 0 {
                    let t = choose|t: int| #[trigger] ch.has(t);
                    lemma_bb_board(ch, t);
                    assert(piece_checks(self.board[t], us.opp(), t, to.id(), occupied));
                } else {
                    assert forall|t: int| 0 <= t < 90 && t != -1 implies !#[trigger] piece_checks(
                        self.board[t],
                        us.opp(),
                        t,
                        to.id(),
                        occupied,
                    ) by {
                        assert(!ch.has(t));
                    }
                }
            }
            return ch.is_empty();
        }
        let ksq = self.king_square(us);
        if !self.state.need_full_check && (!self.blockers_for_king(us).contains(from) || ((
        pc.piece_type() != PieceType::Cannon || !self.is_capture(m)) && aligned(from, to, ksq))) {
            return true;
        }
        let chk = self.checkers_to(us.flip(), ksq, occupied);
        let ch = chk.and(square_bb(to).complement());
        proof {
            ch.lemma_empty_iff();
            if ch.0 != 0 {
                let t = choose|t: int| #[trigger] ch.has(t);
                lemma_bb_board(ch, t);
                assert(chk.has(t) && t != to.id());
                assert(piece_checks(self.board[t], us.opp(), t, ksq.id(), occupied));
            } else {
                assert forall|t: int| 0 <= t < 90 && t != to.id() implies !#[trigger] piece_checks(
                    self.board[t],
                    us.opp(),
                    t,
                    ksq.id(),
                    occupied,
                ) by {
                    assert(!ch.has(t));
                    assert(chk.has(t) == piece_checks(self.board[t], us.opp(), t, ksq.id(), occupied));
                }
            }
        }
        ch.is_empty()
    }

    /// Whether `m`, whatever its bits, is a legal move here: both squares on
    /// the board, pseudo-legal, and keeping the mover's king safe.
    pub fn is_legal_move(&self, m: Move) -> (r: bool)
        requires
            self.valid(),
        ensures
            r == self.generated(GenType::Legal, m),
    {
        if m.raw() / 128 >= 90 || m.raw() % 128 >= 90 {
            return false;
        }
        self.pseudo_legal(m) && self.is_legal(m)
    }

    /// `m` moves a piece of the side to move, by that piece's movement rules,
    /// to a square not holding one of its own pieces.
    pub open spec fn pseudo_legal_spec(&self, m: Move) -> bool {
        let us = self.side_to_move;
        let from = m.from_id();
        let to = m.to_id();
        let pc = self.board[from];
        let occ = self.occ();
        &&& pc != Piece::NONE
        &&& pc.color_of() == us
        &&& !(self.board[to] != Piece::NONE && self.board[to].color_of() == us)
        &&& match pc.type_of() {
            PieceType::Pawn => pawn_attack_has(us, from, to),
            PieceType::Cannon => if self.board[to] != Piece::NONE {
                cannon_attack_has(from, occ, to)
            } else {
                rook_attack_has(from, occ, to)
            },
            PieceType::Rook => rook_attack_has(from, occ, to),
            PieceType::Knight => knight_attack_has(from, occ, to),
            PieceType::Bishop => bishop_attack_has(from, occ, to) && in_half(us, to),
            PieceType::Advisor => advisor_step(from, to) && in_palace(to),
            PieceType::King => king_step(from, to) && in_palace(to),
        }
    }

    /// Whether `m` is a pseudo-legal move of the side to move.
    pub fn pseudo_legal(&self, m: Move) -> (r: bool)
        requires
            self.wf(),
            m.well_formed(),
        ensures
            r == self.pseudo_legal_spec(m),
    {
        let us = self.side_to_move;
        let from = m.from_sq();
        let to = m.to_sq();
        let pc = self.moved_piece(m);
        if pc == Piece::NONE || pc.color() != us {
            return false;
        }
        if self.pieces_by_color(us).contains(to) {
            return false;
        }
        let occupied = self.all_pieces();
        match pc.piece_type() {
            PieceType::Pawn => pawn_attacks_bb(us, from).contains(to),
            PieceType::Cannon => {
                if self.is_capture(m) {
                    sliding_attack_cannon(from, occupied).contains(to)
                } else {
                    sliding_attack_rook(from, occupied).contains(to)
                }
            },
            PieceType::Rook => sliding_attack_rook(from, occupied).contains(to),
            PieceType::Knight => lame_leaper_attack_knight(from, occupied).contains(to),
            PieceType::Bishop => lame_leaper_attack_bishop(from, occupied).and(half_bb(us)).contains(
                to,
            ),
            PieceType::Advisor => self.pseudo_attacks_advisor(from).contains(to),
            PieceType::King => self.pseudo_attacks_king(from).contains(to),
        }
    }

    /// What `gives_check` decides from the checking squares and blockers.
    pub open spec fn gives_check_spec(&self, m: Move) -> bool {
        let from = m.from_id();
        let to = m.to_id();
        let ksq = self.king_sq(self.side_to_move.opp());
        let pt = self.board[from].type_of();
        let cap = self.board[to] != Piece::NONE;
        let direct = if pt == PieceType::Cannon && self.state.check_squares[1].has(from)
            && orth_aligned(from, to) && on_line(from, to, ksq) {
            cap && orth_aligned(ksq, from) && cannon_attack_has(
                ksq,
                crate::bitboard::bitboard::sq_set(from),
                to,
            )
        } else {
            self.state.check_squares[pt.id()].has(to)
        };
        direct || (self.state.blockers_for_king[self.side_to_move.opp().id()].has(from) && (!(
        orth_aligned(from, to) && on_line(from, to, ksq)) || cap))
    }

    /// Whether the move `m` of the piece on its origin gives check.
    pub fn gives_check(&self, m: Move) -> (r: bool)
        requires
            self.valid(),
            m.well_formed(),
            self.board[m.from_id()] != Piece::NONE,
        ensures
            r == self.gives_check_spec(m),
    {
        let from = m.from_sq();
        let to = m.to_sq();
        let ksq = self.king_square(self.side_to_move.flip());
        let pt = self.moved_piece(m).piece_type();
        if pt == PieceType::Cannon && self.check_squares(PieceType::Rook).contains(from) && aligned(
            from,
            to,
            ksq,
        ) {
            if self.is_capture(m) && ray_pass_bb(ksq, from).contains(to) {
                return true;
            }
        } else if self.check_squares(pt).contains(to) {
            return true;
        }
        if self.blockers_for_king(self.side_to_move.flip()).contains(from) && (!aligned(
            from,
            to,
            ksq,
        ) || self.is_capture(m)) {
            return true;
        }
        false
    }
}

/// A square present in a board-only set is a board square.
pub proof fn lemma_bb_board(b: Bitboard, t: int)
    requires
        b.wf(),
        b.has(t),
    ensures
        0 <= t < 90,
{
    crate::bitboard::bitboard::lemma_board_bits(b.0, t);
}

/// A piece that can pin along a line or through a knight's leg: a rook,
/// cannon, king or knight of color `c`.
/// The king of `c` stands on `s`, so `s` is its king square.
pub proof fn lemma_king_square_is(pos: &Position, c: Color, s: int)
    requires
        pos.kings_present(),
        0 <= s < 90,
        is_piece(pos.board[s], c, PieceType::King),
    ensures
        s == pos.king_sq(c),
{
    let k = pos.king_sq(c);
    if c == Color::White {
        assert(pos.board[s] == Piece::W_KING);
        let w = choose|t: int| 0 <= t < 90 && #[trigger] pos.board[t] == Piece::W_KING;
        assert(pos.board[k] == Piece::W_KING);
    } else {
        assert(pos.board[s] == Piece::B_KING);
        let w = choose|t: int| 0 <= t < 90 && #[trigger] pos.board[t] == Piece::B_KING;
        assert(pos.board[k] == Piece::B_KING);
    }
}

pub open spec fn is_sniper(p: Piece, c: Color) -> bool {
    p != Piece::NONE && p.color_of() == c && (p.type_of() == PieceType::Rook || p.type_of()
        == PieceType::Cannon || p.type_of() == PieceType::King || p.type_of() == PieceType::Knight)
}

/// The squares of both words.
pub open spec fn band(a: Bitboard, b: Bitboard) -> Bitboard {
    Bitboard(a.0 & b.0)
}

/// The squares of either word.
pub open spec fn bor(a: Bitboard, b: Bitboard) -> Bitboard {
    Bitboard(a.0 | b.0)
}

/// The squares of exactly one word.
pub open spec fn bxor(a: Bitboard, b: Bitboard) -> Bitboard {
    Bitboard(a.0 ^ b.0)
}

/// The board squares not in `a`.
pub open spec fn bnot(a: Bitboard) -> Bitboard {
    Bitboard(!a.0 & crate::bitboard::bitboard::BOARD_MASK)
}

/// The board word of the squares a rook on `s` attacks under `occ`.
pub open spec fn rook_bb(s: int, occ: Bitboard) -> Bitboard {
    choose|b: Bitboard| b.wf() && forall|t: int| 0 <= t < 90 ==> #[trigger] b.has(t) == rook_attack_has(s, occ, t)
}

/// The board word of the squares a cannon on `s` attacks under `occ`.
pub open spec fn cannon_attack_bb(s: int, occ: Bitboard) -> Bitboard {
    choose|b: Bitboard| b.wf() && forall|t: int| 0 <= t < 90 ==> #[trigger] b.has(t) == cannon_attack_has(s, occ, t)
}

/// The board word of the squares from which a knight attacks `s` under `occ`.
pub open spec fn knight_to_bb(s: int, occ: Bitboard) -> Bitboard {
    choose|b: Bitboard| b.wf() && forall|t: int| 0 <= t < 90 ==> #[trigger] b.has(t) == knight_to_attack_has(s, occ, t)
}

/// Board words with the same board squares are equal.
proof fn lemma_same_word(b: Bitboard, c: Bitboard)
    requires
        b.wf(),
        c.wf(),
        forall|t: int| 0 <= t < 90 ==> #[trigger] b.has(t) == c.has(t),
    ensures
        b == c,
{
    assert forall|i: int| #[trigger] crate::bitboard::bitboard::bit(b.0, i) == crate::bitboard::bitboard::bit(c.0, i) by {
        crate::bitboard::bitboard::lemma_board_bits(b.0, i);
        crate::bitboard::bitboard::lemma_board_bits(c.0, i);
        if 0 <= i < 90 {
            assert(b.has(i) == c.has(i));
        }
    }
    crate::bitboard::bitboard::lemma_bits_ext(b.0, c.0);
}

proof fn lemma_rook_bb(b: Bitboard, s: int, occ: Bitboard)
    requires
        b.wf(),
        forall|t: int| #[trigger] b.has(t) == rook_attack_has(s, occ, t),
    ensures
        b == rook_bb(s, occ),
{
    assert(exists|x: Bitboard| x.wf() && forall|t: int| 0 <= t < 90 ==> #[trigger] x.has(t) == rook_attack_has(s, occ, t)) by {
        assert(b.wf() && forall|t: int| 0 <= t < 90 ==> #[trigger] b.has(t) == rook_attack_has(s, occ, t));
    }
    lemma_same_word(b, rook_bb(s, occ));
}

proof fn lemma_cannon_bb(b: Bitboard, s: int, occ: Bitboard)
    requires
        b.wf(),
        forall|t: int| #[trigger] b.has(t) == cannon_attack_has(s, occ, t),
    ensures
        b == cannon_attack_bb(s, occ),
{
    assert(exists|x: Bitboard| x.wf() && forall|t: int| 0 <= t < 90 ==> #[trigger] x.has(t) == cannon_attack_has(s, occ, t)) by {
        assert(b.wf() && forall|t: int| 0 <= t < 90 ==> #[trigger] b.has(t) == cannon_attack_has(s, occ, t));
    }
    lemma_same_word(b, cannon_attack_bb(s, occ));
}

proof fn lemma_knight_to_bb(b: Bitboard, s: int, occ: Bitboard)
    requires
        b.wf(),
        forall|t: int| #[trigger] b.has(t) == knight_to_attack_has(s, occ, t),
    ensures
        b == knight_to_bb(s, occ),
{
    assert(exists|x: Bitboard| x.wf() && forall|t: int| 0 <= t < 90 ==> #[trigger] x.has(t) == knight_to_attack_has(s, occ, t)) by {
        assert(b.wf() && forall|t: int| 0 <= t < 90 ==> #[trigger] b.has(t) == knight_to_attack_has(s, occ, t));
    }
    lemma_same_word(b, knight_to_bb(s, occ));
}

/// The value of the piece type of recapture turn `k` (see `see_type`).
pub open spec fn see_value(k: int) -> int {
    if k == 0 {
        PAWN_VALUE as int
    } else if k == 1 {
        BISHOP_VALUE as int
    } else if k == 2 {
        ADVISOR_VALUE as int
    } else if k == 3 {
        CANNON_VALUE as int
    } else if k == 4 {
        KNIGHT_VALUE as int
    } else {
        ROOK_VALUE as int
    }
}

/// The piece type tried in turn `k` of a recapture: pawn, bishop,
/// advisor, cannon, knight, rook.
pub open spec fn see_type(k: int) -> PieceType {
    if k == 0 {
        PieceType::Pawn
    } else if k == 1 {
        PieceType::Bishop
    } else if k == 2 {
        PieceType::Advisor
    } else if k == 3 {
        PieceType::Cannon
    } else if k == 4 {
        PieceType::Knight
    } else {
        PieceType::Rook
    }
}

impl Position {
    /// The occupancy `see_ge` starts from: the board with the origin and
    /// destination of `m` toggled.
    pub open spec fn see_occ(&self, m: Move) -> Bitboard {
        Bitboard(
            (self.occ().0 ^ (1u128 << (m.from_id() as u128))) ^ (1u128 << (m.to_id() as u128)),
        )
    }

    /// No piece of the opponent, left on `occ`, can take back on the
    /// destination of `m`: none attacks it, and no king sees it along an
    /// open line.
    pub open spec fn see_no_reply(&self, m: Move) -> bool {
        let occ = self.see_occ(m);
        let to = m.to_id();
        let them = self.side_to_move.opp();
        forall|t: int|
            0 <= t < 90 && #[trigger] occ.has(t) && self.board[t] != Piece::NONE && self.board[t].color_of()
                == them ==> !piece_attacks(self.board[t], t, to, occ) && !(self.board[t].type_of()
                == PieceType::King && rook_attack_has(to, occ, t))
    }

    /// The board word of the pieces attacking `s` under `occ`.
    pub open spec fn attackers_bb(self, s: int, occ: Bitboard) -> Bitboard {
        choose|b: Bitboard|
            b.wf() && forall|t: int| 0 <= t < 90 ==> #[trigger] b.has(t) == piece_attacks(self.board[t], t, s, occ)
    }

    /// The first recapture turn (see `see_type`) for which `att` holds a
    /// piece; 6 when it holds none of those.
    pub open spec fn see_kind(self, att: Bitboard) -> int {
        if self.see_has(att, 0) {
            0
        } else if self.see_has(att, 1) {
            1
        } else if self.see_has(att, 2) {
            2
        } else if self.see_has(att, 3) {
            3
        } else if self.see_has(att, 4) {
            4
        } else if self.see_has(att, 5) {
            5
        } else {
            6
        }
    }

    /// `att` holds a piece of the type of recapture turn `k`.
    pub open spec fn see_has(self, att: Bitboard, k: int) -> bool {
        band(att, self.by_type_bb[see_type(k).id()]).0 != 0
    }

    /// The exchange on `to` from the point where `stm` has just taken: the
    /// other side recaptures with its cheapest attacker (pawn, bishop,
    /// advisor, cannon, knight, rook) unless it has none, or its pinner
    /// still stands and only pinned pieces could take, or the balance
    /// `swap` already decides; each capture clears its square, which can
    /// open rook and cannon lines and knight legs behind it. `res` is 1 when
    /// the side that made the first capture is ahead; `n` bounds the turns.
    pub open spec fn see_loop(
        self,
        to: int,
        king_attacks: bool,
        n: nat,
        occ: Bitboard,
        non: Bitboard,
        can: Bitboard,
        all: Bitboard,
        stm: Color,
        res: int,
        swap: int,
    ) -> bool
        decreases n,
    {
        if n == 0 {
            res != 0
        } else {
            let us = stm.opp();
            let all1 = band(all, occ);
            let own = self.by_color_bb[us.id()];
            let att = band(all1, own);
            if att.0 == 0 {
                res != 0
            } else if band(self.state.pinners[us.opp().id()], occ).0 != 0 && band(
                att,
                bnot(self.state.blockers_for_king[us.id()]),
            ).0 == 0 {
                res != 0
            } else {
                let res1 = 1 - res;
                let kind = self.see_kind(att);
                if kind == 6 {
                    if band(all1, bnot(own)).0 != 0 {
                        res1 == 0
                    } else {
                        res1 != 0
                    }
                } else {
                    let swap1 = see_value(kind) - swap;
                    if kind < 5 && swap1 < res1 {
                        res1 != 0
                    } else {
                        let pick = band(att, self.by_type_bb[see_type(kind).id()]);
                        let occ1 = bxor(occ, crate::bitboard::bitboard::sq_set(
                            crate::bitboard::bitboard::lowest_bit(pick.0),
                        ));
                        let rooks = self.by_type_bb[PieceType::Rook.id()];
                        let kings = self.by_type_bb[PieceType::King.id()];
                        let cannons = self.by_type_bb[PieceType::Cannon.id()];
                        let knights = self.by_type_bb[PieceType::Knight.id()];
                        let sliders = if king_attacks {
                            bor(kings, rooks)
                        } else {
                            rooks
                        };
                        let non1 = if kind == 0 || kind == 5 {
                            bor(non, band(rook_bb(to, occ1), sliders))
                        } else if kind == 2 {
                            bor(non, band(knight_to_bb(to, occ1), knights))
                        } else {
                            non
                        };
                        let can1 = if kind == 0 || kind == 5 || kind == 3 {
                            band(cannon_attack_bb(to, occ1), cannons)
                        } else {
                            can
                        };
                        let all2 = if kind == 1 || kind == 4 {
                            all1
                        } else {
                            bor(non1, can1)
                        };
                        self.see_loop(to, king_attacks, (n - 1) as nat, occ1, non1, can1, all2, us, res1, swap1)
                    }
                }
            }
        }
    }

    /// The static exchange on the destination of `m` against `threshold`:
    /// a capture worth less than the threshold fails, one that stays at or
    /// above it even if the mover is lost succeeds, otherwise the exchange
    /// of `see_loop` decides, started with every attacker of the square
    /// once the mover has left (a king counts when it sees the square).
    pub open spec fn see_spec(self, m: Move, threshold: int) -> bool {
        let to = m.to_id();
        let swap0 = piece_value_spec(self.board[to]) - threshold;
        let swap1 = piece_value_spec(self.board[m.from_id()]) - swap0;
        if swap0 < 0 {
            false
        } else if swap1 <= 0 {
            true
        } else {
            let occ = self.see_occ(m);
            let attackers = self.attackers_bb(to, occ);
            let kings = self.by_type_bb[PieceType::King.id()];
            let cannons = self.by_type_bb[PieceType::Cannon.id()];
            let king_attacks = band(attackers, kings).0 != 0;
            let non0 = band(attackers, bnot(cannons));
            let non = if king_attacks {
                bor(non0, band(rook_bb(to, occ), kings))
            } else {
                non0
            };
            let can = band(attackers, cannons);
            self.see_loop(to, king_attacks, 91, occ, non, can, bor(non, can), self.side_to_move, 1, swap1)
        }
    }

    /// Static exchange evaluation: whether the exchange that `m` starts on
    /// its destination wins at least `threshold`. A capture worth less than
    /// the threshold fails at once; one that stays at or above it even if
    /// the mover is lost succeeds at once; otherwise the cheapest attackers
    /// take turns recapturing (a pinned side stops while its pinner stays),
    /// and one that the opponent cannot answer succeeds.
    #[verifier::spinoff_prover]
    #[verifier::rlimit(100)]
    pub fn see_ge(&self, m: Move, threshold: Value) -> (r: bool)
        requires
            self.valid(),
            m.well_formed(),
            i32::MIN <= piece_value_spec(self.board[m.to_id()]) - threshold <= i32::MAX,
        ensures
            r == self.see_spec(m, threshold as int),
            piece_value_spec(self.board[m.to_id()]) - threshold < 0 ==> !r,
            piece_value_spec(self.board[m.to_id()]) - threshold >= 0 && piece_value_spec(
                self.board[m.from_id()],
            ) - (piece_value_spec(self.board[m.to_id()]) - threshold) <= 0 ==> r,
            piece_value_spec(self.board[m.to_id()]) - threshold >= 0 && self.see_no_reply(m) ==> r,
    {
        let from = m.from_sq();
        let to = m.to_sq();
        let mut swap: i32 = piece_value(self.piece_on(to)) - threshold;
        if swap < 0 {
            return false;
        }
        swap = piece_value(self.piece_on(from)) - swap;
        if swap <= 0 {
            return true;
        }
        let mut occupied = self.all_pieces().xor(Bitboard::from_square(from)).xor(
            Bitboard::from_square(to),
        );
        proof {
            assert(occupied == self.see_occ(m));
        }
        let mut stm = self.side_to_move;
        let attackers = self.attackers_to(to, occupied);
        let kings = self.pieces_by_type(PieceType::King);
        let rooks = self.pieces_by_type(PieceType::Rook);
        let cannon_bb = self.pieces_by_type(PieceType::Cannon);
        let king_attacks = attackers.and(kings).is_not_empty();
        let mut non_cannons = attackers.and(cannon_bb.complement());
        let ghost occ_start = occupied;
        if king_attacks {
            let ra = sliding_attack_rook(to, occupied);
            proof {
                lemma_rook_bb(ra, to.id(), occupied);
            }
            non_cannons = non_cannons.or(ra.and(kings));
        }
        let mut cannons = attackers.and(cannon_bb);
        let mut all_attackers = non_cannons.or(cannons);
        let mut res: i32 = 1;
        let ghost first = true;
        let ghost mut n: nat = 91;
        proof {
            occupied.lemma_finite();
            assert forall|t: int| 0 <= t < 90 && #[trigger] all_attackers.has(t) && occupied.has(t)
                && self.board[t] != Piece::NONE && self.board[t].color_of() == stm.opp() implies !self.see_no_reply(m) by {
                if attackers.has(t) {
                    assert(piece_attacks(self.board[t], t, to.id(), occupied));
                } else {
                    assert(self.board[t].type_of() == PieceType::King && rook_attack_has(to.id(), occupied, t));
                }
            }
            assert(exists|x: Bitboard| x.wf() && forall|t: int| 0 <= t < 90 ==> #[trigger] x.has(t) == piece_attacks(self.board[t], t, to.id(), occupied)) by {
                assert(attackers.wf() && forall|t: int| 0 <= t < 90 ==> #[trigger] attackers.has(t) == piece_attacks(self.board[t], t, to.id(), occupied));
            }
            lemma_same_word(attackers, self.attackers_bb(to.id(), occupied));
            assert(king_attacks == (band(attackers, kings).0 != 0));
            assert(self.see_loop(to.id(), king_attacks, n, occupied, non_cannons, cannons, all_attackers, stm, res as int, swap as int) == self.see_spec(m, threshold as int));
            vstd::set_lib::lemma_int_range(0, 90);
            assert(occupied@.subset_of(vstd::set_lib::set_int_range(0, 90))) by {
                assert forall|t: int| occupied@.contains(t) implies vstd::set_lib::set_int_range(0, 90).contains(t) by {
                    assert(occupied.has(t));
                    crate::bitboard::bitboard::lemma_board_bits(occupied.0, t);
                }
            }
            vstd::set_lib::lemma_len_subset(occupied@, vstd::set_lib::set_int_range(0, 90));
        }
        loop
            invariant_except_break
                0 <= swap <= 1305,
                first ==> res == 1 && stm == self.side_to_move,
                first ==> (self.see_no_reply(m) ==> forall|t: int| 0 <= t < 90 && #[trigger] all_attackers.has(t) && occupied.has(t)
                    ==> !(self.board[t] != Piece::NONE && self.board[t].color_of() == stm.opp())),
                self.see_loop(to.id(), king_attacks, n, occupied, non_cannons, cannons, all_attackers, stm, res as int, swap as int)
                    == self.see_spec(m, threshold as int),
                n >= occupied@.len() + 1,
            invariant
                self.valid(),
                m.well_formed(),
                piece_value_spec(self.board[m.to_id()]) - threshold >= 0,
                piece_value_spec(self.board[m.from_id()]) - (piece_value_spec(self.board[m.to_id()])
                    - threshold) > 0,
                0 <= res <= 1,
                occupied.wf(),
                occupied@.finite(),
                all_attackers.wf(),
                non_cannons.wf(),
                cannons.wf(),
                self.see_no_reply(m) ==> first,
                to.valid(),
                kings.wf(),
                rooks.wf(),
                cannon_bb.wf(),
                kings == self.by_type_bb[PieceType::King.id()],
                rooks == self.by_type_bb[PieceType::Rook.id()],
                cannon_bb == self.by_type_bb[PieceType::Cannon.id()],
            ensures
                first ==> res == 1,
                (res != 0) == self.see_spec(m, threshold as int),
            decreases occupied@.len(),
        {
            let ghost e_all = all_attackers;
            let ghost e_stm = stm;
            let ghost e_res = res as int;
            let ghost e_swap = swap as int;
            let ghost e_occ = occupied;
            let ghost e_non = non_cannons;
            let ghost e_can = cannons;
            stm = stm.flip();
            all_attackers = all_attackers.and(occupied);
            let own = self.pieces_by_color(stm);
            let stm_attackers = all_attackers.and(own);
            if stm_attackers.is_empty() {
                break;
            }
            proof {
                if first && self.see_no_reply(m) {
                    stm_attackers.lemma_empty_iff();
                    let t = choose|t: int| #[trigger] stm_attackers.has(t);
                    crate::bitboard::bitboard::lemma_board_bits(stm_attackers.0, t);
                    assert(all_attackers.has(t) && own.has(t));
                    assert(false);
                }
            }
            proof {
                first = false;
            }
            if self.pinners(stm.flip()).and(occupied).is_not_empty() {
                let filtered = stm_attackers.and(self.blockers_for_king(stm).complement());
                if filtered.is_empty() {
                    break;
                }
            }
            res = 1 - res;
            let pawns = stm_attackers.and(self.pieces_by_type(PieceType::Pawn));
            let bishops = stm_attackers.and(self.pieces_by_type(PieceType::Bishop));
            let advisors = stm_attackers.and(self.pieces_by_type(PieceType::Advisor));
            let cannon_att = stm_attackers.and(cannon_bb);
            let knights = stm_attackers.and(self.pieces_by_type(PieceType::Knight));
            let rook_att = stm_attackers.and(rooks);
            proof {
                assert(self.see_kind(stm_attackers) == if pawns.0 != 0 {
                    0int
                } else if bishops.0 != 0 {
                    1int
                } else if advisors.0 != 0 {
                    2int
                } else if cannon_att.0 != 0 {
                    3int
                } else if knights.0 != 0 {
                    4int
                } else if rook_att.0 != 0 {
                    5int
                } else {
                    6int
                });
            }
            let bb;
            let kind_e: u8;
            if pawns.is_not_empty() {
                swap = PAWN_VALUE - swap;
                if swap < res {
                    break;
                }
                bb = pawns;
                kind_e = 0;
            } else if bishops.is_not_empty() {
                swap = BISHOP_VALUE - swap;
                if swap < res {
                    break;
                }
                bb = bishops;
                kind_e = 1;
            } else if advisors.is_not_empty() {
                swap = ADVISOR_VALUE - swap;
                if swap < res {
                    break;
                }
                bb = advisors;
                kind_e = 2;
            } else if cannon_att.is_not_empty() {
                swap = CANNON_VALUE - swap;
                if swap < res {
                    break;
                }
                bb = cannon_att;
                kind_e = 3;
            } else if knights.is_not_empty() {
                swap = KNIGHT_VALUE - swap;
                if swap < res {
                    break;
                }
                bb = knights;
                kind_e = 4;
            } else if rook_att.is_not_empty() {
                swap = ROOK_VALUE - swap;
                bb = rook_att;
                kind_e = 5;
            } else {
                return if all_attackers.and(own.complement()).is_not_empty() {
                    res == 0
                } else {
                    res != 0
                };
            }
            let s = bb.lsb();
            let ghost occ0 = occupied;
            occupied = occupied.xor(Bitboard::from_square(s));
            proof {
                assert(occ0.has(s.id()));
                assert(occupied@ =~= occ0@.remove(s.id()));
                occ0.lemma_finite();
            }
            if kind_e == 0 || kind_e == 5 {
                let sliders = if king_attacks {
                    kings.or(rooks)
                } else {
                    rooks
                };
                let ra = sliding_attack_rook(to, occupied);
                let ca = sliding_attack_cannon(to, occupied);
                proof {
                    lemma_rook_bb(ra, to.id(), occupied);
                    lemma_cannon_bb(ca, to.id(), occupied);
                }
                non_cannons = non_cannons.or(ra.and(sliders));
                cannons = ca.and(cannon_bb);
                all_attackers = non_cannons.or(cannons);
                proof {
                    assert(sliders == if king_attacks { bor(kings, rooks) } else { rooks });
                    assert(non_cannons == bor(e_non, band(rook_bb(to.id(), occupied), sliders)));
                    assert(cannons == band(cannon_attack_bb(to.id(), occupied), cannon_bb));
                    assert(all_attackers == bor(non_cannons, cannons));
                }
            } else if kind_e == 2 {
                let ka = lame_leaper_attack_knight_to(to, occupied);
                proof {
                    lemma_knight_to_bb(ka, to.id(), occupied);
                }
                non_cannons = non_cannons.or(ka.and(self.pieces_by_type(PieceType::Knight)));
                all_attackers = non_cannons.or(cannons);
                proof {
                    assert(non_cannons == bor(e_non, band(knight_to_bb(to.id(), occupied), self.by_type_bb[PieceType::Knight.id()])));
                    assert(all_attackers == bor(non_cannons, e_can));
                }
            } else if kind_e == 3 {
                let ca = sliding_attack_cannon(to, occupied);
                proof {
                    lemma_cannon_bb(ca, to.id(), occupied);
                }
                cannons = ca.and(cannon_bb);
                all_attackers = non_cannons.or(cannons);
                proof {
                    assert(cannons == band(cannon_attack_bb(to.id(), occupied), cannon_bb));
                    assert(all_attackers == bor(e_non, cannons));
                }
            }
            proof {
                assert(n > 0);
                let us = e_stm.opp();
                assert(stm == us);
                let all1 = band(e_all, e_occ);
                let att = band(all1, self.by_color_bb[us.id()]);
                assert(stm_attackers == att);
                assert(att.0 != 0);
                assert(!(band(self.state.pinners[us.opp().id()], e_occ).0 != 0 && band(
                    att,
                    bnot(self.state.blockers_for_king[us.id()]),
                ).0 == 0));
                assert(res as int == 1 - e_res);
                let kind = self.see_kind(att);
                assert(kind != 6);
                assert(swap as int == see_value(kind) - e_swap);
                assert(!(kind < 5 && (swap as int) < (res as int)));
                let pick = band(att, self.by_type_bb[see_type(kind).id()]);
                assert(bb == pick);
                assert(occupied == bxor(e_occ, crate::bitboard::bitboard::sq_set(crate::bitboard::bitboard::lowest_bit(pick.0))));
                let occ1 = occupied;
                let rooks_s = self.by_type_bb[PieceType::Rook.id()];
                let kings_s = self.by_type_bb[PieceType::King.id()];
                let cannons_s = self.by_type_bb[PieceType::Cannon.id()];
                let knights_s = self.by_type_bb[PieceType::Knight.id()];
                let sliders = if king_attacks {
                    bor(kings_s, rooks_s)
                } else {
                    rooks_s
                };
                let non1 = if kind == 0 || kind == 5 {
                    bor(e_non, band(rook_bb(to.id(), occ1), sliders))
                } else if kind == 2 {
                    bor(e_non, band(knight_to_bb(to.id(), occ1), knights_s))
                } else {
                    e_non
                };
                let can1 = if kind == 0 || kind == 5 || kind == 3 {
                    band(cannon_attack_bb(to.id(), occ1), cannons_s)
                } else {
                    e_can
                };
                let all2 = if kind == 1 || kind == 4 {
                    all1
                } else {
                    bor(non1, can1)
                };
                assert(kind == kind_e as int);
                assert(non_cannons == non1);
                assert(cannons == can1);
                assert(all_attackers == all2);
                assert(self.see_loop(to.id(), king_attacks, n, e_occ, e_non, e_can, e_all, e_stm, e_res, e_swap)
                    == self.see_loop(to.id(), king_attacks, (n - 1) as nat, occupied, non_cannons, cannons, all_attackers, stm, res as int, swap as int));
                n = (n - 1) as nat;
            }
        }
        res != 0
    }
}

} // verus!
