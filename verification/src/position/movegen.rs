//! Move lists and move generation.

use vstd::prelude::*;

use super::evasion::{holds, lemma_king_evasion, lemma_piece_evasion, screen_exit};
use super::position::{Position, is_piece};
use crate::bitboard::attacks::{
    advisor_step, bishop_attack_has, cannon_attack_has, king_step, knight_attack_has,
    pawn_attack_has, rook_attack_has,
};
use crate::bitboard::tables::{half_bb, in_half, in_palace};
use crate::bitboard::{
    Bitboard, attacks_bb_bishop, attacks_bb_cannon, attacks_bb_knight, attacks_bb_rook, between_bb,
    line_bb, pawn_attacks_bb,
};
use crate::bitboard::lines::between_has;
use crate::types::{Color, Move, Piece, PieceType, Square, make_piece};

verus! {

/// Which moves to generate.
#[derive(Clone, Copy, PartialEq, Eq, Debug, Structural)]
pub enum GenType {
    /// Moves that take an enemy piece.
    Captures,
    /// Moves to empty squares.
    Quiets,
    /// Moves that may answer a check.
    Evasions,
    /// Every move by the rules of movement, legal or not.
    PseudoLegal,
    /// Every legal move.
    Legal,
}

/// A list of moves.
pub struct MoveList {
    moves: Vec<Move>,
}

impl View for MoveList {
    type V = Seq<Move>;

    closed spec fn view(&self) -> Seq<Move> {
        self.moves@
    }
}

impl MoveList {
    pub fn new() -> (l: MoveList)
        ensures
            l@ == Seq::<Move>::empty(),
    {
        MoveList { moves: Vec::new() }
    }

    pub fn push(&mut self, m: Move)
        ensures
            final(self)@ == old(self)@.push(m),
    {
        self.moves.push(m);
    }

    pub fn len(&self) -> (n: usize)
        ensures
            n == self@.len(),
    {
        self.moves.len()
    }

    pub fn is_empty(&self) -> (r: bool)
        ensures
            r == (self@.len() == 0),
    {
        self.moves.len() == 0
    }

    pub fn get(&self, idx: usize) -> (m: Move)
        requires
            idx < self@.len(),
        ensures
            m == self@[idx as int],
    {
        self.moves[idx]
    }

    pub fn contains(&self, m: Move) -> (r: bool)
        ensures
            r == self@.contains(m),
    {
        let mut i: usize = 0;
        while i < self.moves.len()
            invariant
                i <= self.moves.len(),
                forall|j: int| 0 <= j < i ==> self.moves@[j] != m,
            decreases self.moves.len() - i,
        {
            if self.moves[i] == m {
                return true;
            }
            i = i + 1;
        }
        false
    }

    pub fn as_slice(&self) -> (s: &[Move])
        ensures
            s@ == self@,
    {
        self.moves.as_slice()
    }

    /// Removes the move at `idx`, moving the last move into its place.
    pub fn remove_at(&mut self, idx: usize)
        requires
            idx < old(self)@.len(),
        ensures
            final(self)@ == (if idx + 1 == old(self)@.len() {
                old(self)@.drop_last()
            } else {
                old(self)@.drop_last().update(idx as int, old(self)@.last())
            }),
    {
        let last = self.moves.pop().unwrap();
        if idx < self.moves.len() {
            self.moves.set(idx, last);
        }
    }
}

impl Position {
    /// The piece of color `us` and type `pt` on `from` may go to `to` when
    /// generating `gen` moves restricted to `target`: a cannon captures an
    /// enemy piece over one screen (not for quiet moves) or moves like a rook
    /// to an empty square (not for captures), a bishop stays on its side of
    /// the river, and the others move by their rules onto `target`.
    pub open spec fn gen_reach(
        &self,
        us: Color,
        pt: PieceType,
        target: Bitboard,
        gen: GenType,
        from: int,
        to: int,
    ) -> bool {
        let occ = self.occ();
        match pt {
            PieceType::Cannon => ((gen != GenType::Quiets && cannon_attack_has(from, occ, to)
                && self.by_color_bb[us.opp().id()].has(to)) || (gen != GenType::Captures
                && rook_attack_has(from, occ, to) && !occ.has(to))) && (gen == GenType::Evasions
                ==> target.has(to)),
            PieceType::Pawn => pawn_attack_has(us, from, to) && target.has(to),
            PieceType::Rook => rook_attack_has(from, occ, to) && target.has(to),
            PieceType::Knight => knight_attack_has(from, occ, to) && target.has(to),
            PieceType::Bishop => bishop_attack_has(from, occ, to) && in_half(us, to) && target.has(
                to,
            ),
            PieceType::Advisor => advisor_step(from, to) && in_palace(to) && target.has(to),
            PieceType::King => king_step(from, to) && in_palace(to) && target.has(to),
        }
    }

    /// `m` moves a piece of `us` of type `pt` as `gen_reach` allows.
    pub open spec fn gen_move(
        &self,
        us: Color,
        pt: PieceType,
        target: Bitboard,
        gen: GenType,
        m: Move,
    ) -> bool {
        &&& m.well_formed()
        &&& is_piece(self.board[m.from_id()], us, pt)
        &&& self.gen_reach(us, pt, target, gen, m.from_id(), m.to_id())
    }

    /// The target squares of a generation kind: not our own pieces for all
    /// moves, enemy pieces for captures, empty squares for quiet moves.
    pub open spec fn gen_target(&self, us: Color, gen: GenType, target: Bitboard) -> bool {
        &&& target.wf()
        &&& forall|t: int|
            0 <= t < 90 ==> #[trigger] target.has(t) == match gen {
                GenType::PseudoLegal => !(self.board[t] != Piece::NONE && self.board[t].color_of()
                    == us),
                GenType::Captures => self.board[t] != Piece::NONE && self.board[t].color_of()
                    == us.opp(),
                GenType::Quiets => self.board[t] == Piece::NONE,
                _ => false,
            }
    }
}

/// Pushes the moves from `from` to each square of `attacks`; the list stays
/// free of repeats when no move already in it goes from `from` to a square
/// of `attacks`.
fn push_moves(pos: &Position, moves: &mut MoveList, from: Square, attacks: Bitboard)
    requires
        from.valid(),
        attacks.wf(),
    ensures
        forall|m: Move|
            #[trigger] final(moves)@.contains(m) <==> (old(moves)@.contains(m) || (m.well_formed()
                && m.from_id() == from.id() && attacks.has(m.to_id()))),
        old(moves)@.is_prefix_of(final(moves)@),
        (old(moves)@.no_duplicates() && forall|i: int|
            0 <= i < old(moves)@.len() ==> #[trigger] old(moves)@[i].from_id() == from.id()
                ==> !attacks.has(old(moves)@[i].to_id())) ==> final(moves)@.no_duplicates(),
{
    let ghost fresh = old(moves)@.no_duplicates() && forall|i: int|
        0 <= i < old(moves)@.len() ==> #[trigger] old(moves)@[i].from_id() == from.id()
            ==> !attacks.has(old(moves)@[i].to_id());
    let mut a = attacks;
    proof {
        a.lemma_finite();
    }
    while a.is_not_empty()
        invariant
            from.valid(),
            a.wf(),
            forall|t: int| #[trigger] a.has(t) ==> attacks.has(t),
            fresh ==> moves@.no_duplicates(),
            old(moves)@.is_prefix_of(moves@),
            fresh ==> forall|i: int|
                0 <= i < moves@.len() ==> #[trigger] moves@[i].from_id() == from.id()
                    ==> !a.has(moves@[i].to_id()),
            forall|m: Move|
                #[trigger] moves@.contains(m) <==> (old(moves)@.contains(m) || (m.well_formed()
                    && m.from_id() == from.id() && attacks.has(m.to_id()) && !a.has(m.to_id()))),
        decreases a@.len(),
    {
        let ghost before = moves@;
        let to = a.pop_lsb();
        let m = Move::make(from, to);
        moves.push(m);
        proof {
            if fresh {
                assert(!before.contains(m)) by {
                    if before.contains(m) {
                        let i = choose|i: int| 0 <= i < before.len() && before[i] == m;
                        assert(before[i].from_id() == from.id());
                    }
                }
                assert forall|i: int, j: int|
                    0 <= i < moves@.len() && 0 <= j < moves@.len() && i != j implies moves@[i]
                    != moves@[j] by {
                    if i == before.len() as int {
                        assert(before.contains(moves@[j]));
                    } else if j == before.len() as int {
                        assert(before.contains(moves@[i]));
                    }
                }
            }
            assert forall|m2: Move|
                #[trigger] moves@.contains(m2) <==> (old(moves)@.contains(m2) || (m2.well_formed()
                    && m2.from_id() == from.id() && attacks.has(m2.to_id()) && !a.has(
                    m2.to_id(),
                ))) by {
                if m2.well_formed() && m2.from_id() == from.id() && m2.to_id() == to.id() {
                    assert(m2.0 == m.0);
                    assert(m2 == m);
                    assert(moves@[before.len() as int] == m);
                }
                if moves@.contains(m2) && m2 != m {
                    let i = choose|i: int| 0 <= i < moves@.len() && moves@[i] == m2;
                    assert(before[i] == m2);
                    assert(before.contains(m2));
                }
                if before.contains(m2) {
                    let i = choose|i: int| 0 <= i < before.len() && before[i] == m2;
                    assert(moves@[i] == m2);
                }
                if old(moves)@.contains(m2) {
                    let i = choose|i: int| 0 <= i < old(moves)@.len() && old(moves)@[i] == m2;
                    assert(before[i] == m2);
                    assert(before.contains(m2));
                }
            }
        }
    }
    proof {
        a.lemma_empty_iff();
    }
}

/// The squares the piece of type `pt` on `from` may go to.
fn piece_targets(
    pos: &Position,
    us: Color,
    pt: PieceType,
    from: Square,
    target: Bitboard,
    gen: GenType,
) -> (a: Bitboard)
    requires
        pos.wf(),
        from.valid(),
        target.wf(),
    ensures
        a.wf(),
        forall|t: int| 0 <= t < 90 ==> #[trigger] a.has(t) == pos.gen_reach(us, pt, target, gen, from.id(), t),
{
    let occupied = pos.all_pieces();
    match pt {
        PieceType::Cannon => {
            let mut a = Bitboard::empty();
            if gen != GenType::Quiets {
                a = a.or(attacks_bb_cannon(from, occupied).and(pos.pieces_by_color(us.flip())));
            }
            if gen != GenType::Captures {
                a = a.or(attacks_bb_rook(from, occupied).and(occupied.complement()));
            }
            if gen == GenType::Evasions {
                a = a.and(target);
            }
            proof {
                assert forall|t: int| 0 <= t < 90 implies #[trigger] a.has(t) == pos.gen_reach(
                    us,
                    pt,
                    target,
                    gen,
                    from.id(),
                    t,
                ) by {
                    assert(pos.by_color_bb[us.opp().id()].has(t) == (pos.board[t] != Piece::NONE
                        && pos.board[t].color_of() == us.opp()));
                }
            }
            a
        },
        PieceType::Pawn => pawn_attacks_bb(us, from).and(target),
        PieceType::Rook => attacks_bb_rook(from, occupied).and(target),
        PieceType::Knight => attacks_bb_knight(from, occupied).and(target),
        PieceType::Bishop => attacks_bb_bishop(from, occupied).and(half_bb(us)).and(target),
        PieceType::Advisor => pos.pseudo_attacks_advisor(from).and(target),
        PieceType::King => pos.pseudo_attacks_king(from).and(target),
    }
}

/// Adds the `gen` moves of the pieces of `us` of type `pt`.
fn generate_piece_moves(
    pos: &Position,
    moves: &mut MoveList,
    us: Color,
    pt: PieceType,
    target: Bitboard,
    gen: GenType,
)
    requires
        pos.wf(),
        target.wf(),
        old(moves)@.no_duplicates(),
        forall|i: int|
            0 <= i < old(moves)@.len() ==> (#[trigger] old(moves)@[i]).well_formed() && !is_piece(
                pos.board[old(moves)@[i].from_id()],
                us,
                pt,
            ),
    ensures
        forall|m: Move|
            #[trigger] final(moves)@.contains(m) <==> (old(moves)@.contains(m) || pos.gen_move(
                us,
                pt,
                target,
                gen,
                m,
            )),
        final(moves)@.no_duplicates(),
        forall|i: int| 0 <= i < final(moves)@.len() ==> (#[trigger] final(moves)@[i]).well_formed(),
        forall|i: int|
            0 <= i < final(moves)@.len() ==> old(moves)@.contains(#[trigger] final(moves)@[i])
                || is_piece(pos.board[final(moves)@[i].from_id()], us, pt),
{
    let all = pos.pieces(us, pt);
    let mut bb = all;
    proof {
        bb.lemma_finite();
        assert forall|m: Move|
            #[trigger] moves@.contains(m) <==> (old(moves)@.contains(m) || (pos.gen_move(
                us,
                pt,
                target,
                gen,
                m,
            ) && !bb.has(m.from_id()))) by {
            if pos.gen_move(us, pt, target, gen, m) {
                assert(all.has(m.from_id()));
            }
        }
    }
    while bb.is_not_empty()
        invariant
            pos.wf(),
            target.wf(),
            bb.wf(),
            forall|t: int| #[trigger] bb.has(t) ==> all.has(t),
            forall|t: int| 0 <= t < 90 ==> (#[trigger] all.has(t) == is_piece(pos.board[t], us, pt)),
            moves@.no_duplicates(),
            forall|i: int| 0 <= i < moves@.len() ==> (#[trigger] moves@[i]).well_formed(),
            forall|i: int|
                0 <= i < moves@.len() ==> #[trigger] bb.has(moves@[i].from_id()) ==> !all.has(
                    moves@[i].from_id(),
                ),
            forall|i: int|
                0 <= i < old(moves)@.len() ==> (#[trigger] old(moves)@[i]).well_formed() && !is_piece(
                    pos.board[old(moves)@[i].from_id()],
                    us,
                    pt,
                ),
            forall|m: Move|
                #[trigger] moves@.contains(m) <==> (old(moves)@.contains(m) || (pos.gen_move(
                    us,
                    pt,
                    target,
                    gen,
                    m,
                ) && !bb.has(m.from_id()))),
        decreases bb@.len(),
    {
        let ghost before = moves@;
        let from = bb.pop_lsb();
        let attacks = piece_targets(pos, us, pt, from, target, gen);
        proof {
            assert forall|i: int|
                0 <= i < moves@.len() && #[trigger] moves@[i].from_id() == from.id() implies !attacks.has(
                    moves@[i].to_id(),
                ) by {
                assert(all.has(from.id()));
            }
        }
        push_moves(pos, moves, from, attacks);
        proof {
            assert forall|i: int|
                0 <= i < moves@.len() implies (#[trigger] moves@[i]).well_formed() by {
                assert(moves@.contains(moves@[i]));
            }
            assert forall|i: int|
                0 <= i < moves@.len() && #[trigger] bb.has(moves@[i].from_id()) implies !all.has(
                    moves@[i].from_id(),
                ) by {
                let mi = moves@[i];
                assert(moves@.contains(mi));
                if !before.contains(mi) {
                    assert(mi.from_id() == from.id());
                } else {
                    let k = choose|k: int| 0 <= k < before.len() && before[k] == mi;
                    assert(bb.has(mi.from_id()) ==> !all.has(mi.from_id()));
                }
            }
            assert forall|m: Move|
                #[trigger] moves@.contains(m) <==> (old(moves)@.contains(m) || (pos.gen_move(
                    us,
                    pt,
                    target,
                    gen,
                    m,
                ) && !bb.has(m.from_id()))) by {
                if m.well_formed() && m.from_id() == from.id() {
                    assert(attacks.has(m.to_id()) == pos.gen_reach(
                        us,
                        pt,
                        target,
                        gen,
                        from.id(),
                        m.to_id(),
                    ));
                }
            }
        }
    }
    proof {
        bb.lemma_empty_iff();
        assert forall|i: int|
            0 <= i < moves@.len() implies old(moves)@.contains(#[trigger] moves@[i]) || is_piece(
                pos.board[moves@[i].from_id()],
                us,
                pt,
            ) by {
            assert(moves@.contains(moves@[i]));
        }
    }
}

impl Position {
    /// `m` moves a piece of `us` (a king only when `kings` holds) as
    /// `gen_reach` allows for its type.
    pub open spec fn gen_any(&self, us: Color, target: Bitboard, gen: GenType, kings: bool, m: Move) -> bool {
        let pc = self.board[m.from_id()];
        &&& m.well_formed()
        &&& pc != Piece::NONE
        &&& pc.color_of() == us
        &&& (kings || pc.type_of() != PieceType::King)
        &&& self.gen_reach(us, pc.type_of(), target, gen, m.from_id(), m.to_id())
    }

    /// What generating `gen` moves yields: pseudo-legal moves, only captures
    /// or only quiet moves for those kinds, only legal moves for `Legal`.
    pub open spec fn generated(&self, gen: GenType, m: Move) -> bool {
        &&& m.well_formed()
        &&& self.pseudo_legal_spec(m)
        &&& match gen {
            GenType::Captures => self.board[m.to_id()] != Piece::NONE,
            GenType::Quiets => self.board[m.to_id()] == Piece::NONE,
            GenType::Legal => self.legal_spec(m),
            _ => true,
        }
    }
}

/// The captures and the quiet moves split the pseudo-legal moves: every
/// pseudo-legal move is one or the other and none is both, a capture being
/// a move onto an occupied square; the legal moves are the pseudo-legal
/// ones that are legal.
pub proof fn lemma_generated_kinds(pos: &Position, m: Move)
    ensures
        pos.generated(GenType::PseudoLegal, m) <==> (pos.generated(GenType::Captures, m) || pos.generated(
            GenType::Quiets,
            m,
        )),
        !(pos.generated(GenType::Captures, m) && pos.generated(GenType::Quiets, m)),
        pos.generated(GenType::Captures, m) <==> (pos.generated(GenType::PseudoLegal, m) && pos.board[m.to_id()]
            != Piece::NONE),
        pos.generated(GenType::Legal, m) <==> (pos.generated(GenType::PseudoLegal, m) && pos.legal_spec(m)),
{
}

/// Where a piece type comes in the order of generation.
pub open spec fn gen_order(pt: PieceType) -> int {
    match pt {
        PieceType::Pawn => 0,
        PieceType::Bishop => 1,
        PieceType::Advisor => 2,
        PieceType::Knight => 3,
        PieceType::Cannon => 4,
        PieceType::Rook => 5,
        PieceType::King => 6,
    }
}

/// The moves in `s` move pieces of `us` of the first `k` types in the order
/// of generation.
pub open spec fn moves_before(pos: &Position, s: Seq<Move>, us: Color, k: int) -> bool {
    forall|i: int|
        0 <= i < s.len() ==> (#[trigger] s[i]).well_formed() && pos.board[s[i].from_id()]
            != Piece::NONE && pos.board[s[i].from_id()].color_of() == us && gen_order(
            pos.board[s[i].from_id()].type_of(),
        ) < k
}

/// Adding the moves of the next type keeps the moves in order of generation.
proof fn lemma_moves_before_step(pos: &Position, s0: Seq<Move>, s1: Seq<Move>, us: Color, pt: PieceType)
    requires
        moves_before(pos, s0, us, gen_order(pt)),
        forall|i: int| 0 <= i < s1.len() ==> (#[trigger] s1[i]).well_formed(),
        forall|i: int|
            0 <= i < s1.len() ==> s0.contains(#[trigger] s1[i]) || is_piece(
                pos.board[s1[i].from_id()],
                us,
                pt,
            ),
    ensures
        moves_before(pos, s1, us, gen_order(pt) + 1),
{
    assert forall|i: int| 0 <= i < s1.len() implies (#[trigger] s1[i]).well_formed() && pos.board[
        s1[i].from_id()] != Piece::NONE && pos.board[s1[i].from_id()].color_of() == us
        && gen_order(pos.board[s1[i].from_id()].type_of()) < gen_order(pt) + 1 by {
        if s0.contains(s1[i]) {
            let j = choose|j: int| 0 <= j < s0.len() && s0[j] == s1[i];
            assert(moves_before(pos, s0, us, gen_order(pt)));
            assert(gen_order(pos.board[s0[j].from_id()].type_of()) < gen_order(pt));
        }
    }
}

/// Adds the `gen` moves of every piece of `us` but the king.
fn generate_non_king_moves(
    pos: &Position,
    moves: &mut MoveList,
    us: Color,
    target: Bitboard,
    gen: GenType,
)
    requires
        pos.wf(),
        target.wf(),
        old(moves)@.len() == 0,
    ensures
        forall|m: Move|
            #[trigger] final(moves)@.contains(m) <==> pos.gen_any(us, target, gen, false, m),
        final(moves)@.no_duplicates(),
        forall|i: int|
            0 <= i < final(moves)@.len() ==> (#[trigger] final(moves)@[i]).well_formed() && pos.board[
                final(moves)@[i].from_id()].type_of() != PieceType::King,
{
    generate_piece_moves(pos, moves, us, PieceType::Pawn, target, gen);
    proof {
        lemma_moves_before_step(pos, Seq::empty(), moves@, us, PieceType::Pawn);
    }
    let ghost s1 = moves@;
    generate_piece_moves(pos, moves, us, PieceType::Bishop, target, gen);
    proof {
        lemma_moves_before_step(pos, s1, moves@, us, PieceType::Bishop);
    }
    let ghost s2 = moves@;
    generate_piece_moves(pos, moves, us, PieceType::Advisor, target, gen);
    proof {
        lemma_moves_before_step(pos, s2, moves@, us, PieceType::Advisor);
    }
    let ghost s3 = moves@;
    generate_piece_moves(pos, moves, us, PieceType::Knight, target, gen);
    proof {
        lemma_moves_before_step(pos, s3, moves@, us, PieceType::Knight);
    }
    let ghost s4 = moves@;
    generate_piece_moves(pos, moves, us, PieceType::Cannon, target, gen);
    proof {
        lemma_moves_before_step(pos, s4, moves@, us, PieceType::Cannon);
    }
    let ghost s5 = moves@;
    generate_piece_moves(pos, moves, us, PieceType::Rook, target, gen);
    proof {
        lemma_moves_before_step(pos, s5, moves@, us, PieceType::Rook);
    }
    proof {
        assert forall|m: Move| #[trigger] moves@.contains(m) <==> pos.gen_any(us, target, gen, false, m) by {
            if pos.gen_any(us, target, gen, false, m) {
                let pt = pos.board[m.from_id()].type_of();
                assert(pos.gen_move(us, pt, target, gen, m));
            }
        }
        assert forall|i: int|
            0 <= i < moves@.len() implies (#[trigger] moves@[i]).well_formed() && pos.board[
                moves@[i].from_id()].type_of() != PieceType::King by {
            assert(moves@.contains(moves@[i]));
        }
    }
}

/// For all moves, captures and quiet moves, the target squares and the
/// moves made towards them are the pseudo-legal moves of that kind.
proof fn lemma_gen_any_generated(pos: &Position, target: Bitboard, gen: GenType, m: Move)
    requires
        pos.wf(),
        gen == GenType::PseudoLegal || gen == GenType::Captures || gen == GenType::Quiets,
        pos.gen_target(pos.side_to_move, gen, target),
    ensures
        pos.gen_any(pos.side_to_move, target, gen, true, m) <==> pos.generated(gen, m),
{
    if m.well_formed() {
        let to = m.to_id();
        let us = pos.side_to_move;
        assert(target.has(to) == match gen {
            GenType::PseudoLegal => !(pos.board[to] != Piece::NONE && pos.board[to].color_of()
                == us),
            GenType::Captures => pos.board[to] != Piece::NONE && pos.board[to].color_of()
                == us.opp(),
            GenType::Quiets => pos.board[to] == Piece::NONE,
            _ => false,
        });
        assert(pos.occ().has(to) == (pos.board[to] != Piece::NONE));
        assert(pos.by_color_bb[us.opp().id()].has(to) == (pos.board[to] != Piece::NONE
            && pos.board[to].color_of() == us.opp()));
    }
}

/// A move made towards a square not holding one of our pieces, or a cannon
/// move, is pseudo-legal.
proof fn lemma_gen_sound(pos: &Position, target: Bitboard, gen: GenType, kings: bool, m: Move)
    requires
        pos.wf(),
        gen != GenType::Quiets || gen == GenType::Quiets,
        pos.gen_any(pos.side_to_move, target, gen, kings, m),
        forall|t: int|
            0 <= t < 90 && #[trigger] target.has(t) ==> !(pos.board[t] != Piece::NONE
                && pos.board[t].color_of() == pos.side_to_move),
    ensures
        pos.generated(GenType::PseudoLegal, m),
{
    let to = m.to_id();
    let us = pos.side_to_move;
    assert(pos.occ().has(to) == (pos.board[to] != Piece::NONE));
    assert(pos.by_color_bb[us.opp().id()].has(to) == (pos.board[to] != Piece::NONE
        && pos.board[to].color_of() == us.opp()));
}

/// The only king of a color stands on its king square.
proof fn lemma_king_unique(pos: &Position, c: Color, s: int)
    requires
        pos.kings_present(),
        0 <= s < 90,
        is_piece(pos.board[s], c, PieceType::King),
    ensures
        s == pos.king_sq(c),
{
    let k = pos.king_sq(c);
    if c == Color::White {
        assert(pos.board[s] == Piece::W_KING);
        let w = choose|t: int| 0 <= t < 90 && #[trigger] pos.board[t] == Piece::W_KING;
        assert(pos.board[k] == Piece::W_KING);
    } else {
        assert(pos.board[s] == Piece::B_KING);
        let w = choose|t: int| 0 <= t < 90 && #[trigger] pos.board[t] == Piece::B_KING;
        assert(pos.board[k] == Piece::B_KING);
    }
}

/// Adds the `gen` moves of every piece of the side to move: all
/// pseudo-legal moves, captures or quiet moves.
fn generate_all(pos: &Position, moves: &mut MoveList, gen: GenType)
    requires
        pos.valid(),
        old(moves)@.len() == 0,
        gen == GenType::PseudoLegal || gen == GenType::Captures || gen == GenType::Quiets,
    ensures
        forall|m: Move| #[trigger] final(moves)@.contains(m) <==> pos.generated(gen, m),
        final(moves)@.no_duplicates(),
{
    let us = pos.side_to_move();
    let target = match gen {
        GenType::PseudoLegal => pos.pieces_by_color(us).complement(),
        GenType::Captures => pos.pieces_by_color(us.flip()),
        _ => pos.all_pieces().complement(),
    };
    proof {
        assert(pos.gen_target(us, gen, target));
    }
    generate_non_king_moves(pos, moves, us, target, gen);
    let ghost s1 = moves@;
    let ksq = pos.king_square(us);
    let b = pos.pseudo_attacks_king(ksq).and(target);
    proof {
        assert forall|i: int|
            0 <= i < s1.len() && #[trigger] s1[i].from_id() == ksq.id() implies !b.has(
            s1[i].to_id(),
        ) by {
            assert(pos.board[s1[i].from_id()].type_of() != PieceType::King);
        }
    }
    push_moves(pos, moves, ksq, b);
    proof {
        assert forall|m: Move| #[trigger] moves@.contains(m) <==> pos.generated(gen, m) by {
            lemma_gen_any_generated(pos, target, gen, m);
            if m.well_formed() && pos.board[m.from_id()] != Piece::NONE && pos.board[m.from_id()].color_of()
                == us && pos.board[m.from_id()].type_of() == PieceType::King {
                lemma_king_unique(pos, us, m.from_id());
            }
        }
    }
}

/// Adds moves that may answer a check: with two checkers every pseudo-legal
/// move; otherwise moves onto the checking line or the checker, king moves
/// (off the line of a checking rook or cannon unless capturing), and moves
/// of the screen of a checking cannon off its line. No legal move is left
/// out.
#[verifier::rlimit(60)]
fn generate_evasions(pos: &Position, moves: &mut MoveList)
    requires
        pos.valid(),
        pos.state.checkers_bb.wf(),
        pos.state.checkers_bb.0 != 0,
        old(moves)@.len() == 0,
    ensures
        forall|m: Move|
            #[trigger] final(moves)@.contains(m) ==> pos.generated(GenType::PseudoLegal, m),
        pos.state.checkers_bb@.len() > 1 ==> (forall|m: Move|
            #[trigger] final(moves)@.contains(m) <==> pos.generated(GenType::PseudoLegal, m))
            && final(moves)@.no_duplicates(),
        pos.check_info_ok() && pos.checkers_from_board() ==> forall|m: Move|
            pos.generated(GenType::Legal, m) ==> #[trigger] final(moves)@.contains(m),
{
    let us = pos.side_to_move();
    let ksq = pos.king_square(us);
    let checkers = pos.checkers();
    if checkers.more_than_one() {
        generate_all(pos, moves, GenType::PseudoLegal);
        return;
    }
    let checksq = checkers.lsb();
    let ghost c = checksq.id();
    let ghost k = ksq.id();
    proof {
        lemma_king_unique(pos, us, k);
    }
    let checker = pos.piece_on(checksq);
    let slider = checker != Piece::NONE && (checker.piece_type() == PieceType::Rook
        || checker.piece_type() == PieceType::Cannon);
    let cannon = checker != Piece::NONE && checker.piece_type() == PieceType::Cannon;
    let own = pos.pieces_by_color(us);
    let not_own = own.complement();
    let target = between_bb(ksq, checksq).and(not_own);
    generate_non_king_moves(pos, moves, us, target, GenType::Evasions);
    proof {
        assert forall|m: Move| #[trigger] moves@.contains(m) implies pos.generated(
            GenType::PseudoLegal,
            m,
        ) by {
            lemma_gen_sound(pos, target, GenType::Evasions, false, m);
        }
    }
    let mut b = pos.pseudo_attacks_king(ksq).and(not_own);
    if slider {
        b = b.and(line_bb(checksq, ksq).complement().or(pos.pieces_by_color(us.flip())));
    }
    let ghost s1 = moves@;
    push_moves(pos, moves, ksq, b);
    proof {
        assert forall|m: Move| #[trigger] moves@.contains(m) implies pos.generated(
            GenType::PseudoLegal,
            m,
        ) by {
            if !s1.contains(m) {
                assert(pos.gen_any(us, not_own, GenType::PseudoLegal, true, m));
                lemma_gen_sound(pos, not_own, GenType::PseudoLegal, true, m);
            }
        }
    }
    let ghost s_king = moves@;
    if cannon {
        let hurdle = between_bb(ksq, checksq).and(own);
        if hurdle.is_not_empty() {
            let hurdle_sq = hurdle.lsb();
            let hurdle_pt = pos.piece_on(hurdle_sq).piece_type();
            proof {
                assert(own.has(hurdle_sq.id()));
            }
            let occupied = pos.all_pieces();
            let not_line = line_bb(checksq, hurdle_sq).complement();
            let hm = match hurdle_pt {
                PieceType::Pawn => pawn_attacks_bb(us, hurdle_sq).and(not_line).and(not_own),
                PieceType::Cannon => attacks_bb_rook(hurdle_sq, occupied).and(not_line).and(
                    occupied.complement(),
                ).or(attacks_bb_cannon(hurdle_sq, occupied).and(pos.pieces_by_color(us.flip()))),
                _ => {
                    let att = match hurdle_pt {
                        PieceType::Rook => attacks_bb_rook(hurdle_sq, occupied),
                        PieceType::Knight => attacks_bb_knight(hurdle_sq, occupied),
                        PieceType::Bishop => attacks_bb_bishop(hurdle_sq, occupied).and(
                            half_bb(us),
                        ),
                        PieceType::Advisor => pos.pseudo_attacks_advisor(hurdle_sq),
                        _ => Bitboard::empty(),
                    };
                    att.and(not_line).and(not_own)
                },
            };
            let ghost s2 = moves@;
            push_moves(pos, moves, hurdle_sq, hm);
            proof {
                assert forall|m: Move| #[trigger] moves@.contains(m) implies pos.generated(
                    GenType::PseudoLegal,
                    m,
                ) by {
                    if !s2.contains(m) {
                        let to = m.to_id();
                        assert(hm.has(to));
                        assert(pos.occ().has(to) == (pos.board[to] != Piece::NONE));
                        assert(pos.by_color_bb[us.opp().id()].has(to) == (pos.board[to]
                            != Piece::NONE && pos.board[to].color_of() == us.opp()));
                        assert(own.has(hurdle_sq.id()));
                    }
                }
                assert forall|t: int| 0 <= t < 90 && screen_exit(pos, us, c, hurdle_sq.id(), t) implies #[trigger] hm.has(t) by {
                    assert(pos.occ().has(t) == (pos.board[t] != Piece::NONE));
                    assert(pos.by_color_bb[us.opp().id()].has(t) == holds(pos, us.opp(), t));
                    assert(own.has(t) == holds(pos, us, t));
                }
                if pos.check_info_ok() && pos.checkers_from_board() {
                    assert forall|m: Move| pos.generated(GenType::Legal, m) && pos.board[m.from_id()].type_of()
                        != PieceType::King && !between_has(k, c, m.to_id()) implies #[trigger] moves@.contains(m) by {
                        lemma_piece_evasion(pos, m, c);
                        assert(own.has(m.from_id()));
                        assert(hurdle.has(m.from_id()));
                        assert(holds(pos, us, hurdle_sq.id()));
                        assert(hurdle_sq.id() == m.from_id());
                        assert(hm.has(m.to_id()));
                    }
                }
            }
        } else {
            proof {
                if pos.check_info_ok() && pos.checkers_from_board() {
                    assert forall|m: Move| pos.generated(GenType::Legal, m) && pos.board[m.from_id()].type_of()
                        != PieceType::King && !between_has(k, c, m.to_id()) implies #[trigger] moves@.contains(m) by {
                        lemma_piece_evasion(pos, m, c);
                        assert(own.has(m.from_id()));
                        assert(hurdle.has(m.from_id()));
                        crate::bitboard::bitboard::lemma_bit_zero(m.from_id());
                    }
                }
            }
        }
    } else {
        proof {
            if pos.check_info_ok() && pos.checkers_from_board() {
                assert forall|m: Move| pos.generated(GenType::Legal, m) && pos.board[m.from_id()].type_of()
                    != PieceType::King && !between_has(k, c, m.to_id()) implies #[trigger] moves@.contains(m) by {
                    lemma_piece_evasion(pos, m, c);
                }
            }
        }
    }
    proof {
        assert(forall|m: Move| #[trigger] s_king.contains(m) ==> moves@.contains(m));
        if pos.check_info_ok() && pos.checkers_from_board() {
            assert forall|m: Move| pos.generated(GenType::Legal, m) implies #[trigger] moves@.contains(m) by {
                let from = m.from_id();
                let to = m.to_id();
                if pos.board[from].type_of() == PieceType::King {
                    lemma_king_evasion(pos, m, c);
                    assert(pos.occ().has(to) == (pos.board[to] != Piece::NONE));
                    assert(pos.by_color_bb[us.opp().id()].has(to) == holds(pos, us.opp(), to));
                    assert(own.has(to) == holds(pos, us, to));
                    assert(b.has(to));
                    assert(s_king.contains(m));
                } else {
                    lemma_piece_evasion(pos, m, c);
                    if between_has(k, c, to) {
                        assert(own.has(to) == holds(pos, us, to));
                        assert(target.has(to));
                        assert(pos.occ().has(to) == (pos.board[to] != Piece::NONE));
                        assert(pos.by_color_bb[us.opp().id()].has(to) == holds(pos, us.opp(), to));
                        assert(pos.gen_any(us, target, GenType::Evasions, false, m));
                        assert(s1.contains(m));
                    }
                }
            }
        }
    }
}

/// Generates the moves of the given kind for the side to move. Every move
/// listed is of that kind (pseudo-legal, and legal for `Legal`); all such
/// moves are listed, once each, except that with one checker the evasions
/// are a selection that leaves out moves that cannot answer the check.
pub fn generate(pos: &Position, gen_type: GenType) -> (l: MoveList)
    requires
        pos.valid(),
        pos.state.checkers_bb.wf(),
        gen_type == GenType::Evasions ==> pos.state.checkers_bb.0 != 0,
    ensures
        forall|m: Move| #[trigger] l@.contains(m) ==> pos.generated(gen_type, m),
        (gen_type == GenType::PseudoLegal || gen_type == GenType::Captures || gen_type
            == GenType::Quiets || (gen_type == GenType::Legal && pos.state.checkers_bb.0 == 0)
            || pos.state.checkers_bb@.len() > 1) ==> (forall|m: Move|
            #[trigger] l@.contains(m) <==> pos.generated(gen_type, m)) && l@.no_duplicates(),
        (gen_type == GenType::Legal || gen_type == GenType::Evasions) && pos.check_info_ok()
            && pos.checkers_from_board() ==> forall|m: Move|
            pos.generated(GenType::Legal, m) ==> #[trigger] l@.contains(m),
{
    let mut moves = MoveList::new();
    match gen_type {
        GenType::Legal => {
            if pos.checkers().is_not_empty() {
                generate_evasions(pos, &mut moves);
            } else {
                generate_all(pos, &mut moves, GenType::PseudoLegal);
            }
            let ghost orig = moves@;
            let ghost complete = pos.state.checkers_bb.0 == 0 || pos.state.checkers_bb@.len() > 1;
            proof {
                if pos.state.checkers_bb.0 == 0 {
                    pos.state.checkers_bb.lemma_empty_iff();
                }
            }
            let mut i: usize = 0;
            while i < moves.len()
                invariant
                    pos.valid(),
                    i <= moves@.len(),
                    forall|m: Move| #[trigger] orig.contains(m) ==> pos.generated(GenType::PseudoLegal, m),
                    complete ==> (forall|m: Move| #[trigger] orig.contains(m) <==> pos.generated(GenType::PseudoLegal, m)),
                    complete ==> orig.no_duplicates(),
                    forall|j: int| 0 <= j < i ==> pos.legal_spec(#[trigger] moves@[j]),
                    forall|m: Move| #[trigger] moves@.contains(m) ==> orig.contains(m),
                    forall|m: Move| orig.contains(m) && pos.legal_spec(m) ==> #[trigger] moves@.contains(m),
                    complete ==> moves@.no_duplicates(),
                    pos.check_info_ok() && pos.checkers_from_board() ==> forall|m: Move|
                        pos.generated(GenType::Legal, m) ==> #[trigger] orig.contains(m),
                decreases moves@.len() - i,
            {
                let m = moves.get(i);
                proof {
                    assert(moves@.contains(m));
                }
                if pos.is_legal(m) {
                    i = i + 1;
                } else {
                    let ghost before = moves@;
                    moves.remove_at(i);
                    proof {
                        let n = before.len();
                        assert forall|m2: Move| #[trigger] moves@.contains(m2) implies orig.contains(m2) by {
                            let k = choose|k: int| 0 <= k < moves@.len() && moves@[k] == m2;
                            if k == i && i + 1 < n {
                                assert(before[n - 1] == m2);
                            } else {
                                assert(before[k] == m2);
                            }
                            assert(before.contains(m2));
                        }
                        assert forall|m2: Move| orig.contains(m2) && pos.legal_spec(m2) implies #[trigger] moves@.contains(m2) by {
                            assert(before.contains(m2));
                            let k = choose|k: int| 0 <= k < n && before[k] == m2;
                            assert(k != i);
                            if k == n - 1 {
                                assert(moves@[i as int] == m2);
                            } else {
                                assert(moves@[k] == m2);
                            }
                        }
                        if complete {
                            assert forall|a: int, c: int| 0 <= a < moves@.len() && 0 <= c < moves@.len() && a != c implies moves@[a] != moves@[c] by {
                                let a0 = if a == i && i + 1 < n { n - 1 } else { a };
                                let c0 = if c == i && i + 1 < n { n - 1 } else { c };
                                assert(moves@[a] == before[a0]);
                                assert(moves@[c] == before[c0]);
                            }
                        }
                    }
                }
            }
            proof {
                assert forall|m: Move| #[trigger] moves@.contains(m) implies pos.generated(GenType::Legal, m) by {
                    let k = choose|k: int| 0 <= k < moves@.len() && moves@[k] == m;
                    assert(pos.legal_spec(moves@[k]));
                }
            }
        },
        GenType::Evasions => {
            generate_evasions(pos, &mut moves);
        },
        _ => {
            generate_all(pos, &mut moves, gen_type);
        },
    }
    moves
}

} // verus!
