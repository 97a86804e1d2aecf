//! The threats that appear or disappear when a piece is put on or taken
//! off a square.

use vstd::prelude::*;

use super::position::{Position, is_piece};
use crate::bitboard::{
    Bitboard, attacks_bb_bishop, attacks_bb_cannon, attacks_bb_knight, attacks_bb_knight_to,
    attacks_bb_rook, leaper_pass_bb, pawn_attacks_bb, pawn_attacks_to_bb, pseudo_attacks,
    ray_pass_bb,
};
use crate::bitboard::attacks::{
    advisor_step, bishop_attack_has, cannon_attack_has, king_step, knight_attack_has,
    knight_to_attack_has, orth_aligned, pawn_attack_has, pseudo_attack_has, rook_attack_has,
};
use crate::bitboard::bitboard::sq_set;
use crate::bitboard::lines::leaper_pass_has;
use crate::nnue::accumulator::{DirtyThreat, DirtyThreats, MAX_DIRTY_THREATS, packed_threat};
use crate::types::{Color, Piece, PieceType, Square};

verus! {

/// The first 64 of the threats `s`: what a threat list keeps of them.
pub open spec fn capped(s: Seq<DirtyThreat>) -> Seq<DirtyThreat> {
    if s.len() <= MAX_DIRTY_THREATS {
        s
    } else {
        s.take(MAX_DIRTY_THREATS as int)
    }
}

/// The squares `t` of `lo..90` with `p(t)`, in ascending order.
pub open spec fn squares_in(p: spec_fn(int) -> bool, lo: int) -> Seq<int>
    decreases 90 - lo,
{
    if lo >= 90 {
        seq![]
    } else if p(lo) {
        seq![lo] + squares_in(p, lo + 1)
    } else {
        squares_in(p, lo + 1)
    }
}

/// The squares of `b` in `lo..90`, in ascending order.
pub open spec fn board_squares(b: Bitboard, lo: int) -> Seq<int>
    decreases 90 - lo,
{
    if lo >= 90 {
        seq![]
    } else if b.has(lo) {
        seq![lo] + board_squares(b, lo + 1)
    } else {
        board_squares(b, lo + 1)
    }
}

/// The threats `f(q)` of the squares `q` of `qs`, one list after another.
pub open spec fn gather(qs: Seq<int>, f: spec_fn(int) -> Seq<DirtyThreat>) -> Seq<DirtyThreat>
    decreases qs.len(),
{
    if qs.len() == 0 {
        seq![]
    } else {
        gather(qs.drop_last(), f) + f(qs.last())
    }
}

/// `pc` on `s` attacks `t` when the occupied squares are `occ` (kings and
/// advisors by their steps, whatever stands around them).
pub open spec fn reaches(pc: Piece, s: int, occ: Bitboard, t: int) -> bool {
    match pc.type_of() {
        PieceType::Pawn => pawn_attack_has(pc.color_of(), s, t),
        PieceType::Rook => rook_attack_has(s, occ, t),
        PieceType::Cannon => cannon_attack_has(s, occ, t),
        PieceType::Knight => knight_attack_has(s, occ, t),
        PieceType::Bishop => bishop_attack_has(s, occ, t),
        PieceType::King => pseudo_attack_has(PieceType::King.id(), s, t),
        PieceType::Advisor => pseudo_attack_has(PieceType::Advisor.id(), s, t),
    }
}

/// The piece `p` is of type `pt`.
pub open spec fn of_type(p: Piece, pt: PieceType) -> bool {
    p != Piece::NONE && p.type_of() == pt
}

/// A board and a predicate that agree on `lo..90` give the same squares.
proof fn lemma_board_pred(b: Bitboard, p: spec_fn(int) -> bool, lo: int)
    requires
        forall|t: int| lo <= t < 90 ==> #[trigger] b.has(t) == p(t),
    ensures
        board_squares(b, lo) == squares_in(p, lo),
    decreases 90 - lo,
{
    if lo < 90 {
        lemma_board_pred(b, p, lo + 1);
        assert(b.has(lo) == p(lo));
    }
}

/// Squares of `lo..hi` not on the board are skipped.
proof fn lemma_board_skip(b: Bitboard, lo: int, hi: int)
    requires
        lo <= hi <= 90,
        forall|t: int| lo <= t < hi ==> !#[trigger] b.has(t),
    ensures
        board_squares(b, lo) == board_squares(b, hi),
    decreases hi - lo,
{
    if lo < hi {
        lemma_board_skip(b, lo + 1, hi);
    }
}

/// Boards that agree on `lo..90` give the same squares there.
proof fn lemma_board_same(b: Bitboard, c: Bitboard, lo: int)
    requires
        forall|t: int| lo <= t < 90 ==> #[trigger] b.has(t) == c.has(t),
    ensures
        board_squares(b, lo) == board_squares(c, lo),
    decreases 90 - lo,
{
    if lo < 90 {
        lemma_board_same(b, c, lo + 1);
        assert(b.has(lo) == c.has(lo));
    }
}

/// The lowest square of a board comes first among its squares.
proof fn lemma_board_first(b: Bitboard, s: int)
    requires
        0 <= s < 90,
        b.has(s),
        forall|t: int| #[trigger] b.has(t) ==> s <= t,
    ensures
        board_squares(b, 0) == seq![s] + board_squares(b, s + 1),
{
    lemma_board_skip(b, 0, s);
}

/// Taking the lowest square off a board takes the first of its squares.
proof fn lemma_board_pop(b: Bitboard, c: Bitboard, s: int)
    requires
        0 <= s < 90,
        b.has(s),
        forall|t: int| #[trigger] b.has(t) ==> s <= t,
        forall|t: int| #[trigger] c.has(t) == (b.has(t) && t != s),
    ensures
        board_squares(b, 0) == seq![s] + board_squares(c, 0),
{
    lemma_board_first(b, s);
    lemma_board_skip(c, 0, s + 1);
    lemma_board_same(b, c, s + 1);
}

/// An empty board has no squares.
proof fn lemma_board_none(b: Bitboard)
    requires
        forall|t: int| !#[trigger] b.has(t),
    ensures
        board_squares(b, 0) == Seq::<int>::empty(),
{
    lemma_board_skip(b, 0, 90);
}

proof fn lemma_gather_push(qs: Seq<int>, q: int, f: spec_fn(int) -> Seq<DirtyThreat>)
    ensures
        gather(qs.push(q), f) == gather(qs, f) + f(q),
{
    assert(qs.push(q).drop_last() =~= qs);
}

/// Capping before a push keeps what capping after it keeps.
proof fn lemma_capped_push(a: Seq<DirtyThreat>, t: DirtyThreat)
    ensures
        capped(capped(a).push(t)) == capped(a.push(t)),
{
    if a.len() >= MAX_DIRTY_THREATS {
        assert(capped(a).push(t).take(MAX_DIRTY_THREATS as int) =~= a.push(t).take(MAX_DIRTY_THREATS as int));
    }
}

/// Capping before an append keeps what capping after it keeps.
proof fn lemma_capped_concat(a: Seq<DirtyThreat>, b: Seq<DirtyThreat>)
    ensures
        capped(capped(a) + b) == capped(a + b),
    decreases b.len(),
{
    if b.len() == 0 {
        assert(capped(a) + b =~= capped(a));
        assert(a + b =~= a);
        if a.len() > MAX_DIRTY_THREATS {
            assert(capped(a).take(MAX_DIRTY_THREATS as int) =~= capped(a));
        }
    } else {
        let b0 = b.drop_last();
        lemma_capped_concat(a, b0);
        lemma_capped_push(capped(a) + b0, b.last());
        lemma_capped_push(a + b0, b.last());
        assert(capped(a) + b =~= (capped(a) + b0).push(b.last()));
        assert(a + b =~= (a + b0).push(b.last()));
    }
}

/// Recording `t` after the threats `rec + acc` capped.
proof fn lemma_record(rec: Seq<DirtyThreat>, acc: Seq<DirtyThreat>, t: DirtyThreat)
    ensures
        capped(capped(rec + acc).push(t)) == capped(rec + acc.push(t)),
{
    lemma_capped_push(rec + acc, t);
    assert((rec + acc).push(t) =~= rec + acc.push(t));
}

impl Position {
    /// The occupied squares that `pc` on `s` attacks.
    pub open spec fn targets(self, pc: Piece, s: int) -> spec_fn(int) -> bool {
        |t: int| reaches(pc, s, self.occ(), t) && self.occ().has(t)
    }

    /// The squares of the pieces attacking `s`: pawns, knights, bishops,
    /// advisors and kings, and without `ray` also rooks and cannons.
    pub open spec fn attackers(self, ray: bool, s: int) -> spec_fn(int) -> bool {
        |t: int|
            {
                let q = self.board[t];
                let occ = self.occ();
                ||| is_piece(q, Color::White, PieceType::Pawn) && pawn_attack_has(Color::White, t, s)
                ||| is_piece(q, Color::Black, PieceType::Pawn) && pawn_attack_has(Color::Black, t, s)
                ||| of_type(q, PieceType::Knight) && knight_to_attack_has(s, occ, t)
                ||| of_type(q, PieceType::Bishop) && bishop_attack_has(s, occ, t)
                ||| of_type(q, PieceType::Advisor) && pseudo_attack_has(PieceType::Advisor.id(), s, t)
                ||| of_type(q, PieceType::King) && pseudo_attack_has(PieceType::King.id(), s, t)
                ||| !ray && of_type(q, PieceType::Rook) && rook_attack_has(s, occ, t)
                ||| !ray && of_type(q, PieceType::Cannon) && cannon_attack_has(s, occ, t)
            }
    }

    /// The threat of `pc` on `s` against the piece on `t`.
    pub open spec fn out_entry(self, put: bool, pc: Piece, s: int) -> spec_fn(int) -> Seq<DirtyThreat> {
        |t: int| seq![packed_threat(put, pc.id(), self.board[t].id(), s, t)]
    }

    /// The threat of the piece on `t` against `pc` on `s`.
    pub open spec fn in_entry(self, put: bool, pc: Piece, s: int) -> spec_fn(int) -> Seq<DirtyThreat> {
        |t: int| seq![packed_threat(put, self.board[t].id(), pc.id(), t, s)]
    }

    /// The sliders of a pass whose line runs through `s`: rooks on the rook
    /// lines of `s` (pass 0), cannons on its cannon lines (pass 1), and
    /// cannons on its rook lines (pass 2).
    pub open spec fn sliders(self, pass: int, s: int) -> spec_fn(int) -> bool {
        |t: int|
            if pass == 0 {
                rook_attack_has(s, self.occ(), t) && of_type(self.board[t], PieceType::Rook)
            } else if pass == 1 {
                cannon_attack_has(s, self.occ(), t) && of_type(self.board[t], PieceType::Cannon)
            } else {
                rook_attack_has(s, self.occ(), t) && of_type(self.board[t], PieceType::Cannon)
            }
    }

    /// The occupied squares past `s` on the line from `q` through `s` that
    /// `s` sees as a rook (or, with `cannon_line`, as a cannon).
    pub open spec fn beyond(self, q: int, s: int, cannon_line: bool) -> spec_fn(int) -> bool {
        |t: int|
            orth_aligned(q, s) && cannon_attack_has(q, sq_set(s), t) && (if cannon_line {
                cannon_attack_has(s, self.occ(), t)
            } else {
                rook_attack_has(s, self.occ(), t)
            }) && self.occ().has(t)
    }

    /// The threat of the slider on `q` against the first square of
    /// `beyond(q, s, cannon_line)`, if there is one.
    pub open spec fn discovered(self, add: bool, q: int, s: int, cannon_line: bool) -> Seq<DirtyThreat> {
        let qs = squares_in(self.beyond(q, s, cannon_line), 0);
        if qs.len() == 0 {
            seq![]
        } else {
            seq![packed_threat(add, self.board[q].id(), self.board[qs[0]].id(), q, qs[0])]
        }
    }

    /// The threats recorded for the slider on `q` in a pass.
    pub open spec fn slider_entry(self, pass: int, put: bool, pc: Piece, s: int) -> spec_fn(int) -> Seq<DirtyThreat> {
        |q: int|
            self.discovered(if pass == 2 { put } else { !put }, q, s, false) + if pass < 2 {
                seq![packed_threat(put, self.board[q].id(), pc.id(), q, s)]
            } else {
                self.discovered(!put, q, s, true)
            }
    }

    /// The threats recorded in a slider pass.
    pub open spec fn slider_threats(self, pass: int, put: bool, pc: Piece, s: int) -> Seq<DirtyThreat> {
        gather(squares_in(self.sliders(pass, s), 0), self.slider_entry(pass, put, pc, s))
    }

    /// The threats recorded in the slider passes before pass `k`.
    pub open spec fn passes_before(self, k: int, put: bool, pc: Piece, s: int) -> Seq<DirtyThreat>
        decreases k,
    {
        if k <= 0 {
            seq![]
        } else {
            self.passes_before(k - 1, put, pc, s) + self.slider_threats(k - 1, put, pc, s)
        }
    }

    /// The knights a step from `s` and the bishops a diagonal step from it.
    pub open spec fn leapers(self, s: int) -> spec_fn(int) -> bool {
        |t: int|
            (king_step(s, t) && of_type(self.board[t], PieceType::Knight)) || (advisor_step(s, t)
                && of_type(self.board[t], PieceType::Bishop))
    }

    /// The occupied squares that the leaper on `q` reaches through `s`.
    pub open spec fn leap_victims(self, q: int, s: int) -> spec_fn(int) -> bool {
        |t: int| leaper_pass_has(q, s, t) && self.occ().has(t)
    }

    /// The threat of the leaper on `q` against the piece on `t`.
    pub open spec fn leap_hit(self, put: bool, q: int) -> spec_fn(int) -> Seq<DirtyThreat> {
        |t: int| seq![packed_threat(!put, self.board[q].id(), self.board[t].id(), q, t)]
    }

    /// The threats recorded for the leaper on `q`.
    pub open spec fn leap_entry(self, put: bool, s: int) -> spec_fn(int) -> Seq<DirtyThreat> {
        |q: int| gather(squares_in(self.leap_victims(q, s), 0), self.leap_hit(put, q))
    }

    /// The threats through `s` that `pc` put on or taken off `s` opens or
    /// closes: the three slider passes, then the leapers.
    pub open spec fn ray_list(self, put: bool, pc: Piece, s: int) -> Seq<DirtyThreat> {
        self.slider_threats(0, put, pc, s) + self.slider_threats(1, put, pc, s) + self.slider_threats(
            2,
            put,
            pc,
            s,
        ) + gather(squares_in(self.leapers(s), 0), self.leap_entry(put, s))
    }

    /// The threats recorded when `pc` is put on (`put`) or taken off `s`: the
    /// pieces it attacks, then (with `ray`) the threats through `s`, then the
    /// pieces attacking `s`; each group in ascending order of squares.
    pub open spec fn piece_threats(self, ray: bool, pc: Piece, put: bool, s: int) -> Seq<DirtyThreat> {
        gather(squares_in(self.targets(pc, s), 0), self.out_entry(put, pc, s)) + (if ray {
            self.ray_list(put, pc, s)
        } else {
            seq![]
        }) + gather(squares_in(self.attackers(ray, s), 0), self.in_entry(put, pc, s))
    }
}

impl Position {
    /// `t` is a threat between pieces: each of its squares is on the board
    /// and holds its piece, or is `s` with the piece `pc`.
    pub open spec fn threat_entry_ok(&self, pc: Piece, s: int, t: DirtyThreat) -> bool {
        &&& t.attacker_sq() < 90
        &&& t.victim_sq() < 90
        &&& (t.attacker_sq() == s && t.attacker_id() == pc.id()) || (self.board[t.attacker_sq()]
            != Piece::NONE && t.attacker_id() == self.board[t.attacker_sq()].id())
        &&& (t.victim_sq() == s && t.victim_id() == pc.id()) || (self.board[t.victim_sq()]
            != Piece::NONE && t.victim_id() == self.board[t.victim_sq()].id())
    }

    /// The threats of `d` before `start` are `prefix`, and those from
    /// `start` on are threats between pieces (see `threat_entry_ok`).
    pub open spec fn entries_ok(&self, pc: Piece, s: int, d: DirtyThreats, start: int, prefix: Seq<DirtyThreat>) -> bool {
        &&& d.count <= MAX_DIRTY_THREATS
        &&& 0 <= start <= d.count
        &&& d.threats@.subrange(0, start) == prefix
        &&& forall|i: int| start <= i < d.count ==> self.threat_entry_ok(pc, s, #[trigger] d.threats[i])
    }

    fn push_entry(
        &self,
        pc: Piece,
        s: Square,
        dts: &mut DirtyThreats,
        t: DirtyThreat,
        Ghost(start): Ghost<int>,
        Ghost(prefix): Ghost<Seq<DirtyThreat>>,
    )
        requires
            self.entries_ok(pc, s.id(), *old(dts), start, prefix),
            self.threat_entry_ok(pc, s.id(), t),
        ensures
            self.entries_ok(pc, s.id(), *final(dts), start, prefix),
            final(dts).requires_refresh == old(dts).requires_refresh,
            final(dts).recorded() == capped(old(dts).recorded().push(t)),
    {
        let ghost before = *dts;
        dts.push(t);
        proof {
            broadcast use vstd::array::group_array_axioms;

            if before.count < MAX_DIRTY_THREATS {
                assert(dts.recorded() == before.recorded().push(t));
                assert forall|i: int| 0 <= i < before.count implies #[trigger] dts.threats[i] == before.threats[i] by {
                    assert(dts.recorded()[i] == before.recorded()[i]);
                }
                assert(dts.threats[before.count as int] == dts.recorded()[before.count as int]);
                assert(dts.threats@.subrange(0, start) =~= before.threats@.subrange(0, start));
                assert(before.recorded().len() == before.count);
            } else {
                assert(before.count == MAX_DIRTY_THREATS);
                assert(dts.recorded() == before.recorded());
                assert(dts.recorded().len() == dts.count);
                assert(dts.count == before.count);
                assert forall|i: int| 0 <= i < before.count implies #[trigger] dts.threats[i] == before.threats[i] by {
                    assert(dts.recorded()[i] == before.recorded()[i]);
                }
                assert(dts.threats@.subrange(0, start) =~= before.threats@.subrange(0, start));
                assert(before.recorded().push(t).take(MAX_DIRTY_THREATS as int) =~= before.recorded());
            }
        }
    }

    /// Records the threats that change when `pc` is put on (`put_piece`) or
    /// taken off `s`: the pieces `pc` attacks from `s`, the pieces attacking
    /// `s`, and, with `COMPUTE_RAY`, the threats of rooks, cannons, knights
    /// and bishops whose lines or legs run through `s`, which `pc` opens or
    /// closes (otherwise rooks and cannons only count as attacking `s`).
    /// Threats beyond the list's capacity are not recorded.
    #[verifier::spinoff_prover]
    #[verifier::rlimit(100)]
    pub fn update_piece_threats<const COMPUTE_RAY: bool>(
        &self,
        pc: Piece,
        put_piece: bool,
        s: Square,
        dts: &mut DirtyThreats,
    )
        requires
            self.valid(),
            s.valid(),
            pc != Piece::NONE,
            old(dts).count <= MAX_DIRTY_THREATS,
        ensures
            final(dts).recorded() == capped(
                old(dts).recorded() + self.piece_threats(COMPUTE_RAY, pc, put_piece, s.id()),
            ),
            final(dts).count <= MAX_DIRTY_THREATS,
            old(dts).count <= final(dts).count,
            forall|i: int| 0 <= i < old(dts).count ==> #[trigger] final(dts).threats[i] == old(dts).threats[i],
            forall|i: int|
                old(dts).count <= i < final(dts).count ==> self.threat_entry_ok(
                    pc,
                    s.id(),
                    #[trigger] final(dts).threats[i],
                ),
            final(dts).requires_refresh == old(dts).requires_refresh,
    {
        let ghost start = dts.count as int;
        let ghost prefix = dts.threats@.subrange(0, start);
        let ghost rr = dts.requires_refresh;
        let ghost base = dts.recorded();
        let pseudo = pseudo_attacks();
        let occupied = self.all_pieces();
        let r_attacks = attacks_bb_rook(s, occupied);
        let c_attacks = attacks_bb_cannon(s, occupied);
        let pt = pc.piece_type();
        let attacks = match pt {
            PieceType::Pawn => pawn_attacks_bb(pc.color(), s),
            PieceType::Rook => r_attacks,
            PieceType::Cannon => c_attacks,
            PieceType::Knight => attacks_bb_knight(s, occupied),
            PieceType::Bishop => attacks_bb_bishop(s, occupied),
            PieceType::King => pseudo.get(PieceType::King, s),
            PieceType::Advisor => pseudo.get(PieceType::Advisor, s),
        };
        proof {
            assert forall|t: int| #[trigger] attacks.has(t) == reaches(pc, s.id(), occupied, t) by {}
        }
        let threatened = attacks.and(occupied);
        let ghost out_all = board_squares(threatened, 0);
        proof {
            lemma_board_pred(threatened, self.targets(pc, s.id()), 0);
            assert(capped(base) == base);
            assert(base + gather(seq![], self.out_entry(put_piece, pc, s.id())) =~= base);
        }
        let mut bb = threatened;
        let ghost mut done: Seq<int> = seq![];
        while bb.is_not_empty()
            invariant
                self.valid(),
                s.valid(),
                bb.wf(),
                occupied == self.occ(),
                forall|t: int| #[trigger] bb.has(t) ==> occupied.has(t),
                self.entries_ok(pc, s.id(), *dts, start, prefix),
                dts.requires_refresh == rr,
                done + board_squares(bb, 0) == out_all,
                dts.recorded() == capped(base + gather(done, self.out_entry(put_piece, pc, s.id()))),
            decreases bb@.len(),
        {
            let ghost before = bb;
            let ghost rec = dts.recorded();
            let tsq = bb.pop_lsb();
            let tpc = self.piece_on(tsq);
            let t = DirtyThreat::new(put_piece, pc, tpc, s, tsq);
            self.push_entry(pc, s, dts, t, Ghost(start), Ghost(prefix));
            proof {
                let f = self.out_entry(put_piece, pc, s.id());
                lemma_board_pop(before, bb, tsq.id());
                lemma_record(base, gather(done, f), t);
                lemma_gather_push(done, tsq.id(), f);
                assert(f(tsq.id()) == seq![t]);
                assert(gather(done, f) + seq![t] =~= gather(done, f).push(t));
                assert(done.push(tsq.id()) + board_squares(bb, 0) =~= done + board_squares(before, 0));
                done = done.push(tsq.id());
            }
        }
        proof {
            bb.lemma_empty_iff();
            lemma_board_none(bb);
            assert(done + board_squares(bb, 0) =~= done);
        }
        let ghost out_list = gather(squares_in(self.targets(pc, s.id()), 0), self.out_entry(put_piece, pc, s.id()));
        let mut incoming = pawn_attacks_to_bb(Color::White, s).and(self.pieces(Color::White, PieceType::Pawn)).or(
            pawn_attacks_to_bb(Color::Black, s).and(self.pieces(Color::Black, PieceType::Pawn)),
        ).or(attacks_bb_knight_to(s, occupied).and(self.pieces_by_type(PieceType::Knight))).or(
            attacks_bb_bishop(s, occupied).and(self.pieces_by_type(PieceType::Bishop)),
        ).or(pseudo.get(PieceType::Advisor, s).and(self.pieces_by_type(PieceType::Advisor))).or(
            pseudo.get(PieceType::King, s).and(self.pieces_by_type(PieceType::King)),
        );
        if COMPUTE_RAY {
            self.ray_threats(pc, put_piece, s, r_attacks, c_attacks, occupied, dts, Ghost(start), Ghost(prefix));
            proof {
                lemma_capped_concat(base + out_list, self.ray_list(put_piece, pc, s.id()));
            }
        } else {
            incoming = incoming.or(r_attacks.and(self.pieces_by_type(PieceType::Rook))).or(
                c_attacks.and(self.pieces_by_type(PieceType::Cannon)),
            );
        }
        let ghost mid = base + out_list + (if COMPUTE_RAY {
            self.ray_list(put_piece, pc, s.id())
        } else {
            seq![]
        });
        proof {
            assert(dts.recorded() == capped(mid));
            assert forall|t: int| #[trigger] incoming.has(t) implies 0 <= t < 90 && self.board[t] != Piece::NONE by {
                crate::bitboard::bitboard::lemma_board_bits(incoming.0, t);
            }
            assert forall|t: int| 0 <= t < 90 implies #[trigger] incoming.has(t) == self.attackers(COMPUTE_RAY, s.id())(t) by {}
            lemma_board_pred(incoming, self.attackers(COMPUTE_RAY, s.id()), 0);
            assert(mid + gather(seq![], self.in_entry(put_piece, pc, s.id())) =~= mid);
        }
        let ghost in_all = board_squares(incoming, 0);
        let ghost mut done_in: Seq<int> = seq![];
        while incoming.is_not_empty()
            invariant
                self.valid(),
                s.valid(),
                incoming.wf(),
                forall|t: int| #[trigger] incoming.has(t) ==> 0 <= t < 90 && self.board[t] != Piece::NONE,
                self.entries_ok(pc, s.id(), *dts, start, prefix),
                dts.requires_refresh == rr,
                done_in + board_squares(incoming, 0) == in_all,
                dts.recorded() == capped(mid + gather(done_in, self.in_entry(put_piece, pc, s.id()))),
            decreases incoming@.len(),
        {
            let ghost before = incoming;
            let src_sq = incoming.pop_lsb();
            let src_pc = self.piece_on(src_sq);
            let t = DirtyThreat::new(put_piece, src_pc, pc, src_sq, s);
            self.push_entry(pc, s, dts, t, Ghost(start), Ghost(prefix));
            proof {
                let f = self.in_entry(put_piece, pc, s.id());
                lemma_board_pop(before, incoming, src_sq.id());
                lemma_record(mid, gather(done_in, f), t);
                lemma_gather_push(done_in, src_sq.id(), f);
                assert(f(src_sq.id()) == seq![t]);
                assert(gather(done_in, f) + seq![t] =~= gather(done_in, f).push(t));
                assert(done_in.push(src_sq.id()) + board_squares(incoming, 0) =~= done_in + board_squares(before, 0));
                done_in = done_in.push(src_sq.id());
            }
        }
        proof {
            incoming.lemma_empty_iff();
            lemma_board_none(incoming);
            assert(done_in + board_squares(incoming, 0) =~= done_in);
            assert(mid + gather(done_in, self.in_entry(put_piece, pc, s.id())) =~= base
                + self.piece_threats(COMPUTE_RAY, pc, put_piece, s.id()));
            assert forall|i: int| 0 <= i < start implies #[trigger] dts.threats[i] == old(dts).threats[i] by {
                assert(dts.threats@.subrange(0, start)[i] == prefix[i]);
            }
        }
    }

    /// The threats through `s` of sliders and leapers (see
    /// `update_piece_threats`).
    #[verifier::spinoff_prover]
    #[verifier::rlimit(50)]
    fn ray_threats(
        &self,
        pc: Piece,
        put_piece: bool,
        s: Square,
        r_attacks: Bitboard,
        c_attacks: Bitboard,
        occupied: Bitboard,
        dts: &mut DirtyThreats,
        Ghost(start): Ghost<int>,
        Ghost(prefix): Ghost<Seq<DirtyThreat>>,
    )
        requires
            self.valid(),
            s.valid(),
            pc != Piece::NONE,
            r_attacks.wf(),
            c_attacks.wf(),
            occupied == self.occ(),
            forall|t: int| #[trigger] r_attacks.has(t) == rook_attack_has(s.id(), occupied, t),
            forall|t: int| #[trigger] c_attacks.has(t) == cannon_attack_has(s.id(), occupied, t),
            self.entries_ok(pc, s.id(), *old(dts), start, prefix),
        ensures
            self.entries_ok(pc, s.id(), *final(dts), start, prefix),
            final(dts).requires_refresh == old(dts).requires_refresh,
            final(dts).recorded() == capped(old(dts).recorded() + self.ray_list(put_piece, pc, s.id())),
    {
        let ghost rr = dts.requires_refresh;
        let ghost base = dts.recorded();
        let pseudo = pseudo_attacks();
        let mut pass: usize = 0;
        proof {
            assert(base + seq![] =~= base);
        }
        while pass < 3
            invariant
                self.valid(),
                s.valid(),
                pc != Piece::NONE,
                r_attacks.wf(),
                c_attacks.wf(),
                occupied == self.occ(),
                forall|t: int| #[trigger] r_attacks.has(t) == rook_attack_has(s.id(), occupied, t),
                forall|t: int| #[trigger] c_attacks.has(t) == cannon_attack_has(s.id(), occupied, t),
                self.entries_ok(pc, s.id(), *dts, start, prefix),
                dts.requires_refresh == rr,
                pass <= 3,
                dts.recorded() == capped(base + self.passes_before(pass as int, put_piece, pc, s.id())),
            decreases 3 - pass,
        {
            let mut sliders = if pass == 0 {
                r_attacks.and(self.pieces_by_type(PieceType::Rook))
            } else if pass == 1 {
                c_attacks.and(self.pieces_by_type(PieceType::Cannon))
            } else {
                r_attacks.and(self.pieces_by_type(PieceType::Cannon))
            };
            let ghost pre = base + self.passes_before(pass as int, put_piece, pc, s.id());
            proof {
                assert forall|t: int| #[trigger] sliders.has(t) implies 0 <= t < 90 && self.board[t] != Piece::NONE by {
                    crate::bitboard::bitboard::lemma_board_bits(sliders.0, t);
                }
                assert forall|t: int| 0 <= t < 90 implies #[trigger] sliders.has(t) == self.sliders(pass as int, s.id())(t) by {}
                lemma_board_pred(sliders, self.sliders(pass as int, s.id()), 0);
                assert(pre + gather(seq![], self.slider_entry(pass as int, put_piece, pc, s.id())) =~= pre);
            }
            let ghost all = board_squares(sliders, 0);
            let ghost mut done: Seq<int> = seq![];
            while sliders.is_not_empty()
                invariant
                    self.valid(),
                    s.valid(),
                    pc != Piece::NONE,
                    pass < 3,
                    sliders.wf(),
                    r_attacks.wf(),
                    c_attacks.wf(),
                    occupied == self.occ(),
                    forall|t: int| #[trigger] r_attacks.has(t) == rook_attack_has(s.id(), occupied, t),
                    forall|t: int| #[trigger] c_attacks.has(t) == cannon_attack_has(s.id(), occupied, t),
                    forall|t: int| #[trigger] sliders.has(t) ==> 0 <= t < 90 && self.board[t] != Piece::NONE,
                    self.entries_ok(pc, s.id(), *dts, start, prefix),
                    dts.requires_refresh == rr,
                    done + board_squares(sliders, 0) == all,
                    dts.recorded() == capped(pre + gather(done, self.slider_entry(pass as int, put_piece, pc, s.id()))),
                decreases sliders@.len(),
            {
                let ghost before = sliders;
                let ghost acc = pre + gather(done, self.slider_entry(pass as int, put_piece, pc, s.id()));
                let slider_sq = sliders.pop_lsb();
                let slider = self.piece_on(slider_sq);
                let ghost mut step: Seq<DirtyThreat> = seq![];
                proof {
                    assert(acc + step =~= acc);
                }
                let add = if pass == 2 {
                    put_piece
                } else {
                    !put_piece
                };
                self.discover(pc, s, slider_sq, add, false, r_attacks, occupied, dts, Ghost(start), Ghost(prefix), Ghost(acc));
                proof {
                    step = step + self.discovered(add, slider_sq.id(), s.id(), false);
                }
                if pass < 2 {
                    let t = DirtyThreat::new(put_piece, slider, pc, slider_sq, s);
                    self.push_entry(pc, s, dts, t, Ghost(start), Ghost(prefix));
                    proof {
                        lemma_record(acc, step, t);
                        assert(step.push(t) =~= step + seq![t]);
                        step = step.push(t);
                    }
                } else {
                    proof {
                        assert((acc + step) + seq![] =~= acc + step);
                    }
                    self.discover(pc, s, slider_sq, !put_piece, true, c_attacks, occupied, dts, Ghost(start), Ghost(prefix), Ghost(acc + step));
                    proof {
                        assert((acc + step) + self.discovered(!put_piece, slider_sq.id(), s.id(), true) =~= acc + (step
                            + self.discovered(!put_piece, slider_sq.id(), s.id(), true)));
                        step = step + self.discovered(!put_piece, slider_sq.id(), s.id(), true);
                    }
                }
                proof {
                    let f = self.slider_entry(pass as int, put_piece, pc, s.id());
                    lemma_board_pop(before, sliders, slider_sq.id());
                    lemma_gather_push(done, slider_sq.id(), f);
                    assert(f(slider_sq.id()) == step);
                    assert(acc + step =~= pre + gather(done.push(slider_sq.id()), f));
                    assert(done.push(slider_sq.id()) + board_squares(sliders, 0) =~= done + board_squares(before, 0));
                    done = done.push(slider_sq.id());
                }
            }
            proof {
                sliders.lemma_empty_iff();
                lemma_board_none(sliders);
                assert(done + board_squares(sliders, 0) =~= done);
                assert(pre + self.slider_threats(pass as int, put_piece, pc, s.id()) =~= base + self.passes_before(
                    pass + 1,
                    put_piece,
                    pc,
                    s.id(),
                ));
            }
            pass = pass + 1;
        }
        let ghost pre = base + self.passes_before(3, put_piece, pc, s.id());
        let mut leapers = pseudo.unconstrained_king(s).and(self.pieces_by_type(PieceType::Knight)).or(
            pseudo.unconstrained_advisor(s).and(self.pieces_by_type(PieceType::Bishop)),
        );
        proof {
            assert forall|t: int| #[trigger] leapers.has(t) implies 0 <= t < 90 && self.board[t] != Piece::NONE by {
                crate::bitboard::bitboard::lemma_board_bits(leapers.0, t);
            }
            assert forall|t: int| 0 <= t < 90 implies #[trigger] leapers.has(t) == self.leapers(s.id())(t) by {}
            lemma_board_pred(leapers, self.leapers(s.id()), 0);
            assert(pre + gather(seq![], self.leap_entry(put_piece, s.id())) =~= pre);
        }
        let ghost all = board_squares(leapers, 0);
        let ghost mut done: Seq<int> = seq![];
        while leapers.is_not_empty()
            invariant
                self.valid(),
                s.valid(),
                pc != Piece::NONE,
                leapers.wf(),
                occupied == self.occ(),
                forall|t: int| #[trigger] leapers.has(t) ==> 0 <= t < 90 && self.board[t] != Piece::NONE,
                self.entries_ok(pc, s.id(), *dts, start, prefix),
                dts.requires_refresh == rr,
                done + board_squares(leapers, 0) == all,
                dts.recorded() == capped(pre + gather(done, self.leap_entry(put_piece, s.id()))),
            decreases leapers@.len(),
        {
            let ghost before = leapers;
            let ghost acc = pre + gather(done, self.leap_entry(put_piece, s.id()));
            let leaper_sq = leapers.pop_lsb();
            let leaper = self.piece_on(leaper_sq);
            let mut discovered = leaper_pass_bb(leaper_sq, s).and(occupied);
            proof {
                assert forall|t: int| 0 <= t < 90 implies #[trigger] discovered.has(t) == self.leap_victims(
                    leaper_sq.id(),
                    s.id(),
                )(t) by {}
                lemma_board_pred(discovered, self.leap_victims(leaper_sq.id(), s.id()), 0);
                assert(acc + gather(seq![], self.leap_hit(put_piece, leaper_sq.id())) =~= acc);
            }
            let ghost hits = board_squares(discovered, 0);
            let ghost mut hit: Seq<int> = seq![];
            while discovered.is_not_empty()
                invariant
                    self.valid(),
                    s.valid(),
                    discovered.wf(),
                    occupied == self.occ(),
                    leaper_sq.valid(),
                    leaper == self.board[leaper_sq.id()],
                    leaper != Piece::NONE,
                    forall|t: int| #[trigger] discovered.has(t) ==> occupied.has(t),
                    self.entries_ok(pc, s.id(), *dts, start, prefix),
                    dts.requires_refresh == rr,
                    hit + board_squares(discovered, 0) == hits,
                    dts.recorded() == capped(acc + gather(hit, self.leap_hit(put_piece, leaper_sq.id()))),
                decreases discovered@.len(),
            {
                let ghost before_d = discovered;
                let tsq = discovered.pop_lsb();
                let tpc = self.piece_on(tsq);
                let t = DirtyThreat::new(!put_piece, leaper, tpc, leaper_sq, tsq);
                self.push_entry(pc, s, dts, t, Ghost(start), Ghost(prefix));
                proof {
                    let f = self.leap_hit(put_piece, leaper_sq.id());
                    lemma_board_pop(before_d, discovered, tsq.id());
                    lemma_record(acc, gather(hit, f), t);
                    lemma_gather_push(hit, tsq.id(), f);
                    assert(f(tsq.id()) == seq![t]);
                    assert(gather(hit, f) + seq![t] =~= gather(hit, f).push(t));
                    assert(hit.push(tsq.id()) + board_squares(discovered, 0) =~= hit + board_squares(before_d, 0));
                    hit = hit.push(tsq.id());
                }
            }
            proof {
                let f = self.leap_entry(put_piece, s.id());
                discovered.lemma_empty_iff();
                lemma_board_none(discovered);
                assert(hit + board_squares(discovered, 0) =~= hit);
                lemma_board_pop(before, leapers, leaper_sq.id());
                lemma_gather_push(done, leaper_sq.id(), f);
                assert(f(leaper_sq.id()) == gather(hit, self.leap_hit(put_piece, leaper_sq.id())));
                assert(acc + gather(hit, self.leap_hit(put_piece, leaper_sq.id())) =~= pre + gather(
                    done.push(leaper_sq.id()),
                    f,
                ));
                assert(done.push(leaper_sq.id()) + board_squares(leapers, 0) =~= done + board_squares(before, 0));
                done = done.push(leaper_sq.id());
            }
        }
        proof {
            leapers.lemma_empty_iff();
            lemma_board_none(leapers);
            assert(done + board_squares(leapers, 0) =~= done);
            reveal_with_fuel(Position::passes_before, 4);
            assert(pre + gather(done, self.leap_entry(put_piece, s.id())) =~= base + self.ray_list(put_piece, pc, s.id()));
        }
    }

    /// Records the threat of the slider on `q` against the first occupied
    /// square past `s` on its line that `line` reaches from `s` (see
    /// `discovered`), if there is one.
    fn discover(
        &self,
        pc: Piece,
        s: Square,
        q: Square,
        add: bool,
        cannon_line: bool,
        line: Bitboard,
        occupied: Bitboard,
        dts: &mut DirtyThreats,
        Ghost(start): Ghost<int>,
        Ghost(prefix): Ghost<Seq<DirtyThreat>>,
        Ghost(acc): Ghost<Seq<DirtyThreat>>,
    )
        requires
            self.valid(),
            s.valid(),
            q.valid(),
            self.board[q.id()] != Piece::NONE,
            line.wf(),
            occupied == self.occ(),
            forall|t: int| #[trigger] line.has(t) == (if cannon_line {
                cannon_attack_has(s.id(), occupied, t)
            } else {
                rook_attack_has(s.id(), occupied, t)
            }),
            self.entries_ok(pc, s.id(), *old(dts), start, prefix),
            old(dts).recorded() == capped(acc),
        ensures
            self.entries_ok(pc, s.id(), *final(dts), start, prefix),
            final(dts).requires_refresh == old(dts).requires_refresh,
            final(dts).recorded() == capped(acc + self.discovered(add, q.id(), s.id(), cannon_line)),
    {
        let slider = self.piece_on(q);
        let found = ray_pass_bb(q, s).and(line).and(occupied);
        proof {
            assert forall|t: int| 0 <= t < 90 implies #[trigger] found.has(t) == self.beyond(q.id(), s.id(), cannon_line)(t) by {}
            lemma_board_pred(found, self.beyond(q.id(), s.id(), cannon_line), 0);
        }
        if found.is_not_empty() {
            let tsq = found.lsb();
            let tpc = self.piece_on(tsq);
            proof {
                lemma_board_first(found, tsq.id());
            }
            let t = DirtyThreat::new(add, slider, tpc, q, tsq);
            self.push_entry(pc, s, dts, t, Ghost(start), Ghost(prefix));
            proof {
                lemma_record(acc, seq![], t);
                assert(acc + seq![] =~= acc);
                assert(seq![].push(t) =~= self.discovered(add, q.id(), s.id(), cannon_line));
            }
        } else {
            proof {
                found.lemma_empty_iff();
                lemma_board_none(found);
                assert(acc + self.discovered(add, q.id(), s.id(), cannon_line) =~= acc);
            }
        }
    }
}

} // verus!
