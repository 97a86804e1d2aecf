//! Game-ending rules: repetitions (with chasing and perpetual check), the
//! sixty-move rule and insufficient material.

use vstd::prelude::*;

use super::do_move::lemma_undo_move_restores;
use super::movegen::{GenType, generate};
use super::chase::{chase_walk_ruling, numbered};
use super::position::Position;
use super::state::{StateInfo, bloom_slot};
use crate::bitboard::Bitboard;
use crate::types::{
    CANNON_VALUE, Color, Move, Piece, PieceType, VALUE_DRAW, VALUE_MATE, Value, make_piece,
    mate_in, mate_in_spec, mated_in, mated_in_spec,
};

verus! {

/// What `rule_judge` finds.
#[derive(Debug, Clone, Copy, PartialEq, Eq, Structural)]
pub enum RuleJudgeResult {
    /// Nothing decides the game here.
    NoResult,
    /// A final ruling: a third occurrence, a draw, or a second occurrence
    /// that the Bloom filter confirms.
    Definitive(Value),
    /// A first ruling on a second occurrence, to be confirmed.
    TwoFold(Value),
}

/// How far the material left on the board decides a draw.
#[derive(Clone, Copy, PartialEq, Eq, Structural)]
pub enum DrawLevel {
    /// Enough material to win.
    NoDraw,
    /// A draw outright.
    Direct,
    /// A draw unless the side to move can mate at once.
    RequiresMateCheck,
}

/// A ruling score: a draw, or a mate either way `ply` half-moves from the root.
pub open spec fn ruling_value(v: int, ply: int) -> bool {
    v == VALUE_DRAW || v == mate_in_spec(ply) || v == mated_in_spec(ply)
}

/// The result carries a ruling score.
pub open spec fn result_ok(r: RuleJudgeResult, ply: int) -> bool {
    match r {
        RuleJudgeResult::NoResult => true,
        RuleJudgeResult::Definitive(v) => ruling_value(v as int, ply),
        RuleJudgeResult::TwoFold(v) => ruling_value(v as int, ply),
    }
}

/// Making `m` in `p` leads to a position where the side to move has no
/// legal move exactly when `mate` holds.
pub open spec fn mate_after(p: Position, m: Move, mate: bool) -> bool {
    exists|q: Position|
        #[trigger] p.do_move_post(&q, m, p.gives_check_spec(m)) && (mate <==> forall|m2: Move|
            !q.generated(GenType::Legal, m2))
}

/// `q` is `p` as chase detection may leave it: board, counts, side to
/// move, ply, state and history unchanged.
pub open spec fn judged_same(p: Position, q: Position) -> bool {
    &&& q.valid()
    &&& q.ids_in_range()
    &&& q.board == p.board
    &&& q.by_type_bb == p.by_type_bb
    &&& q.by_color_bb == p.by_color_bb
    &&& q.piece_count == p.piece_count
    &&& q.side_to_move == p.side_to_move
    &&& q.game_ply == p.game_ply
    &&& q.state == p.state
    &&& q.state_stack@ == p.state_stack@
    &&& q.bloom_filter.table@ == p.bloom_filter.table@
    &&& q.same_keys(&p)
}

/// `v` is the chase ruling (see `detect_chases`) of a repetition `d` plies
/// long found from `p`.
pub open spec fn chase_value(p: Position, d: int, ply: int, v: int) -> bool {
    exists|q: Position, q1: Position|
        #![trigger judged_same(p, q), numbered(q, q1)]
        judged_same(p, q) && numbered(q, q1) && chase_walk_ruling(
            q1,
            q.state_stack@.len() as int,
            d,
            (0xFFFFu16, 0xFFFFu16),
            q.side_to_move,
            ply,
            v,
        )
}

/// The ruling on a repetition found: the chase ruling `v` when neither
/// side checked all the way, otherwise perpetual check loses, and checks by
/// both sides draw.
pub open spec fn hit_result(ply: int, check_them: bool, check_us: bool, v: int) -> int {
    if !check_them && !check_us {
        v
    } else if !check_us {
        mate_in_spec(ply)
    } else if !check_them {
        mated_in_spec(ply)
    } else {
        VALUE_DRAW as int
    }
}

/// At a repetition, the side to move having checked on every move while
/// the opponent did not loses (perpetual check), the opponent alone having
/// checked loses for the opponent, both having checked is a draw, and with
/// no perpetual check the chase ruling `v` stands.
pub proof fn lemma_hit_result_sides(ply: int, v: int)
    requires
        0 <= ply <= crate::types::MAX_PLY,
    ensures
        hit_result(ply, false, true, v) < VALUE_DRAW,
        hit_result(ply, true, false, v) > VALUE_DRAW,
        hit_result(ply, false, true, v) == -hit_result(ply, true, false, v),
        hit_result(ply, true, false, v) >= VALUE_MATE - crate::types::MAX_PLY,
        hit_result(ply, true, true, v) == VALUE_DRAW,
        hit_result(ply, false, false, v) == v,
{
}

/// How the repetition scan ends: with a ruling, or handing on a two-fold
/// ruling (if any) to the sixty-move and material rules.
pub enum ScanEnd {
    Ruled(RuleJudgeResult),
    Fold(Option<Value>),
}

/// What the sixty-move and material rules make of `p`, with the two-fold
/// ruling `tf` found before (see `check_rule60_and_material_rj`).
pub open spec fn rule60_ruling(p: Position, ply: int, tf: Option<Value>, r: RuleJudgeResult) -> bool {
    &&& result_ok(r, ply)
    &&& p.state.rule60 >= 120 ==> r is Definitive
    &&& p.state.rule60 >= 120 && p.state.checkers_bb.0 == 0 ==> r == RuleJudgeResult::Definitive(
        if p.legal_count() == 0 {
            mated_in_spec(ply) as Value
        } else {
            VALUE_DRAW
        },
    )
    &&& p.state.rule60 < 120 && (p.cnt(Color::White, PieceType::Pawn) != 0 || p.cnt(
        Color::Black,
        PieceType::Pawn,
    ) != 0 || p.draw_level() == DrawLevel::NoDraw) ==> r == match tf {
        Some(v) => RuleJudgeResult::TwoFold(v),
        None => RuleJudgeResult::NoResult,
    }
    &&& p.state.rule60 < 120 && p.cnt(Color::White, PieceType::Pawn) == 0 && p.cnt(
        Color::Black,
        PieceType::Pawn,
    ) == 0 && p.draw_level() == DrawLevel::Direct ==> r == RuleJudgeResult::Definitive(VALUE_DRAW)
}

/// Marks the chase ruling taken at a repetition (see `rep_scan_rel`), so
/// that a proof can name it; it holds of every value.
pub open spec fn ruling_pick(v: int) -> bool {
    true
}

impl Position {
    /// The number of pieces of color `c` and type `pt`, as counted.
    pub open spec fn cnt(&self, c: Color, pt: PieceType) -> int {
        self.piece_count[make_piece(c, pt).id()] as int
    }

    /// Both sides' major material fits an `i32` when added.
    pub open spec fn material_fits(&self) -> bool {
        i32::MIN <= self.state.major_material[0] + self.state.major_material[1] <= i32::MAX
    }

    /// How the major material and the advisors and bishops left decide a
    /// draw: nothing left is a draw; a lone cannon draws against bare
    /// defence but needs a mate check against one advisor with its own
    /// bishops, or two advisors without them; a cannon each without advisors
    /// draws, needing a mate check when bishops remain.
    pub open spec fn draw_level(&self) -> DrawLevel {
        let total = self.state.major_material[0] + self.state.major_material[1];
        let cannon = CANNON_VALUE as int;
        if total == 0 {
            DrawLevel::Direct
        } else if total == cannon {
            let side = if self.state.major_material[0] == cannon {
                Color::White
            } else {
                Color::Black
            };
            if self.cnt(side, PieceType::Advisor) == 0 {
                let adv_other = self.cnt(side.opp(), PieceType::Advisor);
                let bishops = self.cnt(side, PieceType::Bishop);
                if adv_other == 0 {
                    DrawLevel::Direct
                } else if adv_other == 1 {
                    if bishops == 0 {
                        DrawLevel::Direct
                    } else {
                        DrawLevel::RequiresMateCheck
                    }
                } else if bishops == 0 {
                    DrawLevel::RequiresMateCheck
                } else {
                    DrawLevel::NoDraw
                }
            } else {
                DrawLevel::NoDraw
            }
        } else if self.state.major_material[0] == cannon && self.state.major_material[1] == cannon
            && self.cnt(Color::White, PieceType::Advisor) == 0 && self.cnt(
            Color::Black,
            PieceType::Advisor,
        ) == 0 {
            if self.cnt(Color::White, PieceType::Bishop) + self.cnt(Color::Black, PieceType::Bishop)
                == 0 {
                DrawLevel::Direct
            } else {
                DrawLevel::RequiresMateCheck
            }
        } else {
            DrawLevel::NoDraw
        }
    }

    /// The material draw table, side by side: with no major material it is
    /// a draw. A side `c` whose major material is one cannon, against none,
    /// and which has no advisor draws outright against at most one advisor
    /// when it has no bishop (and against no advisor in any case), needs a
    /// mate check against one advisor when it has a bishop or against two
    /// advisors when it has none, and has winning chances against two
    /// advisors with a bishop of its own; with an advisor of its own it has
    /// winning chances. A cannon each without advisors is a draw, needing a
    /// mate check when a bishop is left; any other material has winning
    /// chances.
    pub proof fn lemma_draw_table(&self, c: Color)
        ensures
            self.state.major_material[0] == 0 && self.state.major_material[1] == 0 ==> self.draw_level()
                == DrawLevel::Direct,
            ({
                let lone = self.state.major_material[c.id()] == CANNON_VALUE && self.state.major_material[c.opp().id()]
                    == 0;
                let adv_own = self.cnt(c, PieceType::Advisor);
                let adv = self.cnt(c.opp(), PieceType::Advisor);
                let bis = self.cnt(c, PieceType::Bishop);
                &&& lone && adv_own == 0 && adv == 0 ==> self.draw_level() == DrawLevel::Direct
                &&& lone && adv_own == 0 && adv == 1 && bis == 0 ==> self.draw_level() == DrawLevel::Direct
                &&& lone && adv_own == 0 && adv == 1 && bis > 0 ==> self.draw_level()
                    == DrawLevel::RequiresMateCheck
                &&& lone && adv_own == 0 && adv >= 2 && bis == 0 ==> self.draw_level()
                    == DrawLevel::RequiresMateCheck
                &&& lone && adv_own == 0 && adv >= 2 && bis > 0 ==> self.draw_level() == DrawLevel::NoDraw
                &&& lone && adv_own > 0 ==> self.draw_level() == DrawLevel::NoDraw
            }),
            ({
                let both = self.state.major_material[0] == CANNON_VALUE && self.state.major_material[1]
                    == CANNON_VALUE;
                let no_adv = self.cnt(Color::White, PieceType::Advisor) == 0 && self.cnt(
                    Color::Black,
                    PieceType::Advisor,
                ) == 0;
                let bis = self.cnt(Color::White, PieceType::Bishop) + self.cnt(Color::Black, PieceType::Bishop);
                &&& both && no_adv && bis == 0 ==> self.draw_level() == DrawLevel::Direct
                &&& both && no_adv && bis > 0 ==> self.draw_level() == DrawLevel::RequiresMateCheck
                &&& both && !no_adv ==> self.draw_level() == DrawLevel::NoDraw
            }),
            ({
                let total = self.state.major_material[0] + self.state.major_material[1];
                total != 0 && total != CANNON_VALUE && !(self.state.major_material[0] == CANNON_VALUE
                    && self.state.major_material[1] == CANNON_VALUE) ==> self.draw_level() == DrawLevel::NoDraw
            }),
    {
    }

    /// The state `k` plies back: the current one at 0, then the saved ones.
    pub open spec fn state_back(&self, k: int) -> Option<StateInfo> {
        if k == 0 {
            Some(self.state)
        } else if 0 < k <= self.state_stack@.len() {
            Some(self.state_stack@[self.state_stack@.len() - k])
        } else {
            None
        }
    }

    /// How far back a repetition may be sought: the plies since the last
    /// capture or pawn move, stretched by the checks beyond ten of each
    /// side, and no further than the last null move.
    pub open spec fn repetition_reach(&self) -> int {
        let extra = (if self.state.check10[0] > 10 {
            self.state.check10[0] - 10
        } else {
            0
        }) + (if self.state.check10[1] > 10 {
            self.state.check10[1] - 10
        } else {
            0
        });
        let e = self.state.rule60 + extra;
        if e < self.state.plies_from_null {
            e
        } else {
            self.state.plies_from_null as int
        }
    }

    /// The key of the state `k` plies back, or `none` when there is none.
    pub open spec fn key_back(&self, k: int, none: u64) -> u64 {
        match self.state_back(k) {
            Some(st) => st.key,
            None => none,
        }
    }

    /// Whether the state `k` plies back exists and records a check.
    pub open spec fn check_back(&self, k: int) -> bool {
        match self.state_back(k) {
            Some(st) => st.checkers_bb.0 != 0,
            None => false,
        }
    }

    /// The filter has seen, more than once, the key of a state among those
    /// saved from `steps` plies back up to the last but one.
    pub open spec fn found_repeat(&self, steps: int) -> bool {
        let len = self.state_stack@.len() as int;
        let rs = if len >= steps { len - steps } else { 0 };
        let re = if len >= 1 { len - 1 } else { 0 };
        exists|idx: int|
            rs <= idx < re && self.bloom_filter.table@[bloom_slot(#[trigger] self.state_stack@[idx].key)] > 1
    }

    /// The repetition scan from `i` plies back (stepping by two) up to
    /// `end`, with `cnt` repetitions found so far and whether each side has
    /// checked on every move so far, may end as `e`. At a repetition (the
    /// second one, or any one closer than `ply`) the ruling is
    /// `hit_result`: a draw or a second repetition is definitive; a first
    /// one the filter has seen once is definitive when the sixty-move rule
    /// allows, the same move led to it and no state in between was seen
    /// twice, and is otherwise handed on as two-fold.
    pub open spec fn rep_scan_rel(
        &self,
        ply: int,
        end: int,
        i: int,
        cnt: int,
        check_them: bool,
        check_us: bool,
        e: ScanEnd,
    ) -> bool
        decreases end + 2 - i,
    {
        if i > end {
            e == ScanEnd::Fold(None)
        } else {
            match self.state_back(i) {
                None => e == ScanEnd::Fold(None),
                Some(stp) => {
                    let ct1 = check_them && stp.checkers_bb.0 != 0;
                    let hit = stp.key == self.state.key;
                    let cnt1 = if hit {
                        cnt + 1
                    } else {
                        cnt
                    };
                    let cu1 = if i < end {
                        match self.state_back(i + 1) {
                            Some(o) => check_us && o.checkers_bb.0 != 0,
                            None => check_us,
                        }
                    } else {
                        check_us
                    };
                    if hit && (cnt1 == 2 || ply > i) {
                        exists|v: int|
                            #[trigger] ruling_pick(v) && ((!ct1 && !check_us) ==> chase_value(*self, i, ply, v)) && {
                                let res = hit_result(ply, ct1, check_us, v);
                                if res == VALUE_DRAW as int || cnt1 == 2 {
                                    e == ScanEnd::Ruled(RuleJudgeResult::Definitive(res as Value))
                                } else if self.bloom_filter.table@[bloom_slot(self.state.key)] <= 1 {
                                    if self.state.rule60 < 120 && self.key_back(1, 0) == self.key_back(
                                        i + 1,
                                        u64::MAX,
                                    ) && !self.found_repeat(i) {
                                        e == ScanEnd::Ruled(RuleJudgeResult::Definitive(res as Value))
                                    } else {
                                        e == ScanEnd::Fold(Some(res as Value))
                                    }
                                } else {
                                    self.rep_scan_rel(ply, end, i + 2, cnt1, ct1, cu1, e)
                                }
                            }
                    } else {
                        self.rep_scan_rel(ply, end, i + 2, cnt1, ct1, cu1, e)
                    }
                },
            }
        }
    }

    /// How the repetition scan of `rule_judge` may end (see `rep_scan_rel`):
    /// it runs when a repetition is within reach and the filter has seen the
    /// key, starting four plies back, with each side counted as checking
    /// when it gave the last two checks.
    pub open spec fn rep_judge_rel(&self, ply: int, e: ScanEnd) -> bool {
        let end = self.repetition_reach();
        if !(end >= 4 && self.bloom_filter.table@[bloom_slot(self.state.key)] >= 1) {
            e == ScanEnd::Fold(None)
        } else {
            match self.state_back(2) {
                None => e == ScanEnd::Fold(None),
                Some(s2) => self.rep_scan_rel(
                    ply,
                    end,
                    4,
                    0,
                    self.state.checkers_bb.0 != 0 && s2.checkers_bb.0 != 0,
                    self.check_back(1) && self.check_back(3),
                    e,
                ),
            }
        }
    }

    /// No repetition can be on the board: it would lie too far back, the
    /// filter has never seen the key, or fewer than two states are saved.
    pub open spec fn no_repetition_scan(&self) -> bool {
        ||| self.repetition_reach() < 4
        ||| self.bloom_filter.table@[bloom_slot(self.state.key)] == 0
        ||| self.state_stack@.len() < 2
    }

    /// Classifies the material left (see `draw_level`), given both sides'
    /// major material and a cannon's value.
    fn classify_material(&self, total_major: i32, cannon_val: i32) -> (l: DrawLevel)
        requires
            self.material_fits(),
            total_major == self.state.major_material[0] + self.state.major_material[1],
            cannon_val == CANNON_VALUE,
        ensures
            l == self.draw_level(),
    {
        if total_major == 0 {
            return DrawLevel::Direct;
        }
        if total_major == cannon_val {
            let cannon_side = if self.major_material(Color::White) == cannon_val {
                Color::White
            } else {
                Color::Black
            };
            if self.count_type(cannon_side, PieceType::Advisor) == 0 {
                let adv_other = self.count_type(cannon_side.flip(), PieceType::Advisor);
                let bish_cannon = self.count_type(cannon_side, PieceType::Bishop);
                return match adv_other {
                    0 => DrawLevel::Direct,
                    1 => {
                        if bish_cannon == 0 {
                            DrawLevel::Direct
                        } else {
                            DrawLevel::RequiresMateCheck
                        }
                    },
                    _ => {
                        if bish_cannon == 0 {
                            DrawLevel::RequiresMateCheck
                        } else {
                            DrawLevel::NoDraw
                        }
                    },
                };
            }
            return DrawLevel::NoDraw;
        }
        let major_w = self.major_material(Color::White);
        let major_b = self.major_material(Color::Black);
        if major_w == cannon_val && major_b == cannon_val && self.count_type(
            Color::White,
            PieceType::Advisor,
        ) == 0 && self.count_type(Color::Black, PieceType::Advisor) == 0 {
            let total_bish = self.count_type(Color::White, PieceType::Bishop) as u16
                + self.count_type(Color::Black, PieceType::Bishop) as u16;
            return if total_bish == 0 {
                DrawLevel::Direct
            } else {
                DrawLevel::RequiresMateCheck
            };
        }
        DrawLevel::NoDraw
    }

    /// Whether the legal move `m` leaves the opponent without a legal move.
    /// The position is left as it was.
    fn gives_mate(&mut self, m: Move) -> (r: bool)
        requires
            old(self).searchable(),
            old(self).room_for(1),
            old(self).generated(GenType::Legal, m),
            old(self).board[m.to_id()] == Piece::NONE || old(self).board[m.to_id()].type_of()
                != PieceType::King,
        ensures
            final(self).same_position(old(self)),
            mate_after(*old(self), m, r),
    {
        let ghost p0: Position = *self;
        let gc = self.gives_check(m);
        self.do_move(m, gc);
        let ghost q: Position = *self;
        proof {
            if !gc {
                assert(0u128 >> 90u128 == 0) by (bit_vector);
            }
        }
        let opp_moves = generate(self, GenType::Legal);
        let is_mate = opp_moves.is_empty();
        proof {
            if gc {
                assert(q.checkers_from_board());
            }
            assert(is_mate <==> forall|m2: Move| !q.generated(GenType::Legal, m2)) by {
                if !is_mate {
                    let m2 = opp_moves@[0];
                    assert(opp_moves@.contains(m2));
                } else {
                    assert forall|m2: Move| !q.generated(GenType::Legal, m2) by {
                        if q.generated(GenType::Legal, m2) {
                            assert(opp_moves@.contains(m2));
                        }
                    }
                }
            }
        }
        self.undo_move(m);
        proof {
            lemma_undo_move_restores(p0, q, *self, m, gc);
            assert(p0.do_move_post(&q, m, p0.gives_check_spec(m)));
        }
        is_mate
    }

    /// The ruling of insufficient material, with no pawns left: `None`
    /// while enough material is left; otherwise a draw, except that where a
    /// mate check is needed, a side to move without a legal move is mated,
    /// and one that can mate at once has no draw. The position is left as
    /// it was.
    fn check_insufficient_material(&mut self, ply: i32) -> (r: Option<Value>)
        requires
            old(self).searchable(),
            old(self).room_for(1),
            old(self).material_fits(),
            VALUE_MATE - i32::MAX <= ply,
        ensures
            final(self).same_position(old(self)),
            old(self).draw_level() == DrawLevel::NoDraw ==> r is None,
            old(self).draw_level() == DrawLevel::Direct ==> r == Some(VALUE_DRAW),
            r == None::<Value> || r == Some(VALUE_DRAW) || r == Some(mated_in_spec(ply as int) as Value),
    {
        let total_major = self.total_major_material();
        let cannon_val = CANNON_VALUE;
        let level = self.classify_material(total_major, cannon_val);
        if level == DrawLevel::NoDraw {
            return None;
        }
        if level == DrawLevel::RequiresMateCheck {
            let moves = generate(self, GenType::Legal);
            if moves.is_empty() {
                return Some(mated_in(ply));
            }
            let ghost p0: Position = *self;
            let mut idx: usize = 0;
            while idx < moves.len()
                invariant
                    idx <= moves@.len(),
                    self.same_position(&p0),
                    p0.searchable(),
                    p0.room_for(1),
                    p0 == *old(self),
                    p0.draw_level() == DrawLevel::RequiresMateCheck,
                    forall|m: Move| #[trigger] moves@.contains(m) ==> p0.generated(GenType::Legal, m),
                decreases moves@.len() - idx,
            {
                let m = moves.get(idx);
                proof {
                    assert(moves@.contains(m));
                }
                let target = self.piece_on(m.to_sq());
                if target == Piece::NONE || target.piece_type() != PieceType::King {
                    if self.gives_mate(m) {
                        return None;
                    }
                }
                idx = idx + 1;
            }
        }
        Some(VALUE_DRAW)
    }

    /// The ruling of the sixty-move rule and of insufficient material:
    /// once the rule's count reaches 120 the side to move is mated if it has
    /// no legal move, and the game is drawn otherwise; with no pawns left,
    /// see `check_insufficient_material`; `None` otherwise.
    fn check_rule60_and_material(&mut self, ply: i32) -> (r: Option<Value>)
        requires
            old(self).searchable(),
            old(self).room_for(1),
            old(self).material_fits(),
            VALUE_MATE - i32::MAX <= ply,
        ensures
            final(self).same_position(old(self)),
            r == None::<Value> || r == Some(VALUE_DRAW) || r == Some(mated_in_spec(ply as int) as Value),
            old(self).state.rule60 >= 120 ==> r is Some,
            old(self).state.rule60 >= 120 && old(self).state.checkers_bb.0 == 0 ==> r == Some(
                if old(self).legal_count() == 0 {
                    mated_in_spec(ply as int) as Value
                } else {
                    VALUE_DRAW
                },
            ),
            old(self).state.rule60 < 120 && (old(self).cnt(Color::White, PieceType::Pawn) != 0
                || old(self).cnt(Color::Black, PieceType::Pawn) != 0) ==> r is None,
            old(self).state.rule60 < 120 && old(self).cnt(Color::White, PieceType::Pawn) == 0
                && old(self).cnt(Color::Black, PieceType::Pawn) == 0 && old(self).draw_level()
                == DrawLevel::NoDraw ==> r is None,
            old(self).state.rule60 < 120 && old(self).cnt(Color::White, PieceType::Pawn) == 0
                && old(self).cnt(Color::Black, PieceType::Pawn) == 0 && old(self).draw_level()
                == DrawLevel::Direct ==> r == Some(VALUE_DRAW),
    {
        if self.state.rule60 >= 120 {
            let moves = generate(self, GenType::Legal);
            proof {
                if self.state.checkers_bb.0 == 0 {
                    moves@.unique_seq_to_set();
                    assert(moves@.to_set() =~= Set::new(
                        |m: Move| self.generated(GenType::Legal, m),
                    ));
                }
            }
            return if moves.is_empty() {
                Some(mated_in(ply))
            } else {
                Some(VALUE_DRAW)
            };
        }
        if self.count_type(Color::White, PieceType::Pawn) == 0 && self.count_type(
            Color::Black,
            PieceType::Pawn,
        ) == 0 {
            return self.check_insufficient_material(ply);
        }
        None
    }

    /// The ruling of `check_rule60_and_material`, or else the two-fold
    /// ruling found before, if any.
    fn check_rule60_and_material_rj(&mut self, ply: i32, two_fold_result: Option<Value>) -> (r:
        RuleJudgeResult)
        requires
            old(self).searchable(),
            old(self).room_for(1),
            old(self).material_fits(),
            VALUE_MATE - i32::MAX <= ply,
            two_fold_result matches Some(v) ==> ruling_value(v as int, ply as int),
        ensures
            final(self).same_position(old(self)),
            result_ok(r, ply as int),
            old(self).state.rule60 >= 120 ==> r is Definitive,
            old(self).state.rule60 >= 120 && old(self).state.checkers_bb.0 == 0 ==> r
                == RuleJudgeResult::Definitive(
                if old(self).legal_count() == 0 {
                    mated_in_spec(ply as int) as Value
                } else {
                    VALUE_DRAW
                },
            ),
            old(self).state.rule60 < 120 && (old(self).cnt(Color::White, PieceType::Pawn) != 0
                || old(self).cnt(Color::Black, PieceType::Pawn) != 0 || old(self).draw_level()
                == DrawLevel::NoDraw) ==> r == match two_fold_result {
                Some(v) => RuleJudgeResult::TwoFold(v),
                None => RuleJudgeResult::NoResult,
            },
            old(self).state.rule60 < 120 && old(self).cnt(Color::White, PieceType::Pawn) == 0
                && old(self).cnt(Color::Black, PieceType::Pawn) == 0 && old(self).draw_level()
                == DrawLevel::Direct ==> r == RuleJudgeResult::Definitive(VALUE_DRAW),
    {
        match self.check_rule60_and_material(ply) {
            Some(v) => RuleJudgeResult::Definitive(v),
            None => match two_fold_result {
                Some(v) => RuleJudgeResult::TwoFold(v),
                None => RuleJudgeResult::NoResult,
            },
        }
    }

    /// Judges the position by the game-ending rules. A repetition of the
    /// current position within reach is judged as perpetual check (the
    /// checking side loses), as a chase (see `detect_chases`), or as a draw;
    /// a third occurrence, a draw, or a second one that the Bloom filter
    /// confirms is definitive, another second occurrence a two-fold ruling
    /// that the sixty-move rule and insufficient material override.
    /// Without a repetition, the ruling is theirs. Board, counts, side to
    /// move, ply, state and history are left as they were.
    #[verifier::spinoff_prover]
    #[verifier::rlimit(100)]
    pub fn rule_judge(&mut self, ply: i32) -> (r: RuleJudgeResult)
        requires
            old(self).searchable(),
            old(self).room_for(1),
            old(self).material_fits(),
            old(self).ids_in_range(),
            old(self).sides_fit(),
            VALUE_MATE - i32::MAX <= ply,
        ensures
            final(self).valid(),
            final(self).ids_in_range(),
            final(self).board == old(self).board,
            final(self).by_type_bb == old(self).by_type_bb,
            final(self).by_color_bb == old(self).by_color_bb,
            final(self).piece_count == old(self).piece_count,
            final(self).side_to_move == old(self).side_to_move,
            final(self).game_ply == old(self).game_ply,
            final(self).state == old(self).state,
            final(self).state_stack@ == old(self).state_stack@,
            final(self).bloom_filter.table@ == old(self).bloom_filter.table@,
            final(self).same_keys(old(self)),
            result_ok(r, ply as int),
            old(self).state.rule60 >= 120 ==> r is Definitive,
            old(self).no_repetition_scan() && old(self).state.rule60 >= 120
                && old(self).state.checkers_bb.0 == 0 ==> r == RuleJudgeResult::Definitive(
                if old(self).legal_count() == 0 {
                    mated_in_spec(ply as int) as Value
                } else {
                    VALUE_DRAW
                },
            ),
            old(self).no_repetition_scan() && old(self).state.rule60 < 120 && (old(self).cnt(
                Color::White,
                PieceType::Pawn,
            ) != 0 || old(self).cnt(Color::Black, PieceType::Pawn) != 0 || old(self).draw_level()
                == DrawLevel::NoDraw) ==> r == RuleJudgeResult::NoResult,
            old(self).no_repetition_scan() && old(self).state.rule60 < 120 && old(self).cnt(
                Color::White,
                PieceType::Pawn,
            ) == 0 && old(self).cnt(Color::Black, PieceType::Pawn) == 0 && old(self).draw_level()
                == DrawLevel::Direct ==> r == RuleJudgeResult::Definitive(VALUE_DRAW),
            old(self).no_repetition_scan() ==> final(self).mid_encoding_val == old(self).mid_encoding_val
                && final(self).id_board == old(self).id_board,
            exists|e: ScanEnd|
                #[trigger] old(self).rep_judge_rel(ply as int, e) && match e {
                    ScanEnd::Ruled(x) => r == x,
                    ScanEnd::Fold(tf) => exists|q: Position|
                        #[trigger] judged_same(*old(self), q) && rule60_ruling(q, ply as int, tf, r),
                },
    {
        let ghost p0: Position = *self;
        let c10w = self.state.check10[0] as i64;
        let c10b = self.state.check10[1] as i64;
        let extra_checks: i64 = (if c10w > 10 {
            c10w - 10
        } else {
            0
        }) + (if c10b > 10 {
            c10b - 10
        } else {
            0
        });
        let e = self.state.rule60 as i64 + extra_checks;
        let end: i64 = if e < self.state.plies_from_null as i64 {
            e
        } else {
            self.state.plies_from_null as i64
        };
        assert(end == self.repetition_reach());
        let mut two_fold_result: Option<Value> = None;
        proof {
            assert(judged_same(p0, *self));
        }
        if end >= 4 && self.bloom_filter.count(self.state.key) >= 1 {
            let mut cnt: i64 = 0;
            let checkers_2 = match self.state_at(2) {
                Some(st) => st.checkers_bb,
                None => {
                    let c = self.check_rule60_and_material(ply);
                    let r = match c {
                        Some(v) => RuleJudgeResult::Definitive(v),
                        None => RuleJudgeResult::NoResult,
                    };
                    proof {
                        assert(p0.rep_judge_rel(ply as int, ScanEnd::Fold(None)));
                        assert(rule60_ruling(p0, ply as int, None, r));
                        assert(judged_same(p0, p0));
                    }
                    return r;
                },
            };
            assert(!p0.no_repetition_scan());
            let checkers_3 = match self.state_at(3) {
                Some(st) => st.checkers_bb,
                None => Bitboard::empty(),
            };
            let checkers_1 = match self.state_at(1) {
                Some(st) => st.checkers_bb,
                None => Bitboard::empty(),
            };
            let mut check_them = self.state.checkers_bb.is_not_empty()
                && checkers_2.is_not_empty();
            let mut check_us = checkers_1.is_not_empty() && checkers_3.is_not_empty();
            let mut i: i64 = 4;
            proof {
                assert(check_us == (p0.check_back(1) && p0.check_back(3)));
                assert forall|e: ScanEnd| #[trigger] p0.rep_scan_rel(ply as int, end as int, 4, 0, check_them, check_us, e)
                    implies p0.rep_judge_rel(ply as int, e) by {}
            }
            while i <= end
                invariant_except_break
                    0 <= cnt <= i,
                    two_fold_result is None,
                    forall|e: ScanEnd| #[trigger] p0.rep_scan_rel(ply as int, end as int, i as int, cnt as int, check_them, check_us, e)
                        ==> p0.rep_judge_rel(ply as int, e),
                    p0.rep_scan_rel(ply as int, end as int, i as int, cnt as int, check_them, check_us, ScanEnd::Fold(None))
                        ==> p0.rep_judge_rel(ply as int, ScanEnd::Fold(None)),
                invariant
                    4 <= i,
                    end <= i32::MAX,
                    end == p0.repetition_reach(),
                    self.valid(),
                    self.ids_in_range(),
                    self.board == p0.board,
                    self.by_type_bb == p0.by_type_bb,
                    self.by_color_bb == p0.by_color_bb,
                    self.piece_count == p0.piece_count,
                    self.side_to_move == p0.side_to_move,
                    self.game_ply == p0.game_ply,
                    self.state == p0.state,
                    self.state_stack@ == p0.state_stack@,
                    self.bloom_filter.table@ == p0.bloom_filter.table@,
                    self.same_keys(&p0),
                    judged_same(p0, *self),
                    p0.searchable(),
                    p0.room_for(1),
                    p0.material_fits(),
                    p0.sides_fit(),
                    p0 == *old(self),
                    !p0.no_repetition_scan(),
                    VALUE_MATE - i32::MAX <= ply,
                    two_fold_result matches Some(v) ==> ruling_value(v as int, ply as int),
                ensures
                    p0.rep_judge_rel(ply as int, ScanEnd::Fold(two_fold_result)),
                decreases end + 2 - i,
            {
                let steps = i as usize;
                let stp = match self.state_at(steps) {
                    Some(st) => st,
                    None => {
                        proof {
                            assert(p0.rep_scan_rel(ply as int, end as int, i as int, cnt as int, check_them, check_us, ScanEnd::Fold(None)));
                        }
                        break;
                    },
                };
                let ghost ct0 = check_them;
                let ghost cnt0 = cnt as int;
                proof {
                    assert(p0.state_back(i as int) == Some(stp));
                    assert(p0.state.key == self.state.key);
                }
                check_them = check_them && stp.checkers_bb.is_not_empty();
                let ghost hit = stp.key == self.state.key;
                let ghost cnt1 = if hit { cnt0 + 1 } else { cnt0 };
                let ghost cu1 = if (i as int) < (end as int) {
                    match p0.state_back(i as int + 1) {
                        Some(o) => check_us && o.checkers_bb.0 != 0,
                        None => check_us,
                    }
                } else {
                    check_us
                };
                let ghost mut v_used: int = 0;
                if stp.key == self.state.key {
                    cnt = cnt + 1;
                    if cnt == 2 || (ply as i64) > i {
                        let ghost q_before: Position = *self;
                        let result = if !check_them && !check_us {
                            let dv = self.detect_chases(i as i32, ply);
                            proof {
                                v_used = dv as int;
                                let q1 = choose|q1: Position|
                                    #[trigger] numbered(q_before, q1) && chase_walk_ruling(
                                        q1,
                                        q_before.state_stack@.len() as int,
                                        i as int,
                                        (0xFFFFu16, 0xFFFFu16),
                                        q_before.side_to_move,
                                        ply as int,
                                        dv as int,
                                    );
                                assert(judged_same(p0, q_before) && numbered(q_before, q1));
                                assert(chase_value(p0, i as int, ply as int, dv as int));
                            }
                            dv
                        } else if !check_us {
                            mate_in(ply)
                        } else if !check_them {
                            mated_in(ply)
                        } else {
                            VALUE_DRAW
                        };
                        proof {
                            assert(judged_same(p0, *self));
                            assert(result as int == hit_result(ply as int, check_them, check_us, v_used));
                            assert((!check_them && !check_us) ==> chase_value(p0, i as int, ply as int, v_used));
                            assert(p0.state_back(i as int) == Some(stp));
                            assert(stp.key == p0.state.key);
                            assert(ruling_pick(v_used));
                        }
                        if result == VALUE_DRAW || cnt == 2 {
                            proof {
                                assert(p0.rep_scan_rel(ply as int, end as int, i as int, cnt0, ct0, check_us,
                                    ScanEnd::Ruled(RuleJudgeResult::Definitive(result))));
                            }
                            return RuleJudgeResult::Definitive(result);
                        }
                        if self.bloom_filter.count(self.state.key) <= 1 {
                            if self.state.rule60 < 120 {
                                let prev_key = match self.state_at(1) {
                                    Some(st) => st.key,
                                    None => 0,
                                };
                                let stp_prev_key = match self.state_at(steps + 1) {
                                    Some(st) => st.key,
                                    None => u64::MAX,
                                };
                                if prev_key == stp_prev_key {
                                    let stack_len = self.state_stack.len();
                                    let range_start = stack_len.saturating_sub(steps);
                                    let range_end = stack_len.saturating_sub(1);
                                    let mut found_repeat = false;
                                    let mut idx = range_start;
                                    while idx < range_end
                                        invariant_except_break
                                            !found_repeat,
                                            forall|k: int| range_start <= k < idx ==> self.bloom_filter.table@[bloom_slot(
                                                #[trigger] self.state_stack@[k].key)] <= 1,
                                        invariant
                                            range_end <= self.state_stack@.len(),
                                            range_start <= idx,
                                            self.bloom_filter.wf(),
                                        ensures
                                            found_repeat ==> exists|k: int| range_start <= k < range_end && self.bloom_filter.table@[bloom_slot(
                                                #[trigger] self.state_stack@[k].key)] > 1,
                                            !found_repeat ==> forall|k: int| range_start <= k < range_end ==> self.bloom_filter.table@[bloom_slot(
                                                #[trigger] self.state_stack@[k].key)] <= 1,
                                        decreases range_end - idx,
                                    {
                                        if self.bloom_filter.count(self.state_stack[idx].key) > 1 {
                                            found_repeat = true;
                                            proof {
                                                assert(self.bloom_filter.table@[bloom_slot(self.state_stack@[idx as int].key)] > 1);
                                            }
                                            break;
                                        }
                                        idx = idx + 1;
                                    }
                                    proof {
                                        assert(found_repeat == p0.found_repeat(i as int));
                                    }
                                    if !found_repeat {
                                        proof {
                                            assert(p0.key_back(1, 0) == p0.key_back(i as int + 1, u64::MAX));
                                            assert(p0.rep_scan_rel(ply as int, end as int, i as int, cnt0, ct0, check_us,
                                                ScanEnd::Ruled(RuleJudgeResult::Definitive(result))));
                                        }
                                        return RuleJudgeResult::Definitive(result);
                                    }
                                    proof {
                                        assert(p0.rep_scan_rel(ply as int, end as int, i as int, cnt0, ct0, check_us,
                                            ScanEnd::Fold(Some(result))));
                                    }
                                } else {
                                    proof {
                                        assert(p0.key_back(1, 0) != p0.key_back(i as int + 1, u64::MAX));
                                        assert(p0.rep_scan_rel(ply as int, end as int, i as int, cnt0, ct0, check_us,
                                            ScanEnd::Fold(Some(result))));
                                    }
                                }
                            } else {
                                proof {
                                    assert(p0.rep_scan_rel(ply as int, end as int, i as int, cnt0, ct0, check_us,
                                        ScanEnd::Fold(Some(result))));
                                }
                            }
                            two_fold_result = Some(result);
                            break;
                        }
                        proof {
                            assert forall|e: ScanEnd| #[trigger] p0.rep_scan_rel(ply as int, end as int, i as int + 2, cnt1, check_them, cu1, e)
                                implies p0.rep_judge_rel(ply as int, e) by {
                                assert(p0.rep_scan_rel(ply as int, end as int, i as int, cnt0, ct0, check_us, e));
                            }
                        }
                    } else {
                        proof {
                            assert forall|e: ScanEnd| #[trigger] p0.rep_scan_rel(ply as int, end as int, i as int + 2, cnt1, check_them, cu1, e)
                                implies p0.rep_judge_rel(ply as int, e) by {
                                assert(p0.rep_scan_rel(ply as int, end as int, i as int, cnt0, ct0, check_us, e));
                            }
                        }
                    }
                } else {
                    proof {
                        assert forall|e: ScanEnd| #[trigger] p0.rep_scan_rel(ply as int, end as int, i as int + 2, cnt1, check_them, cu1, e)
                            implies p0.rep_judge_rel(ply as int, e) by {
                            assert(p0.rep_scan_rel(ply as int, end as int, i as int, cnt0, ct0, check_us, e));
                        }
                    }
                }
                if i < end {
                    let odd_steps = (i + 1) as usize;
                    match self.state_at(odd_steps) {
                        Some(odd_st) => {
                            check_us = check_us && odd_st.checkers_bb.is_not_empty();
                        },
                        None => {},
                    }
                }
                proof {
                    assert(check_us == cu1);
                }
                i = i + 2;
            }
        } else {
            proof {
                assert(p0.rep_judge_rel(ply as int, ScanEnd::Fold(None)));
            }
        }
        let r = self.check_rule60_and_material_rj(ply, two_fold_result);
        proof {
            assert(p0.rep_judge_rel(ply as int, ScanEnd::Fold(two_fold_result)));
        }
        r
    }

    fn state_at(&self, steps_back: usize) -> (r: Option<StateInfo>)
        ensures
            r == self.state_back(steps_back as int),
    {
        if steps_back == 0 {
            Some(self.state)
        } else {
            let stack_len = self.state_stack.len();
            if steps_back <= stack_len {
                Some(self.state_stack[stack_len - steps_back])
            } else {
                None
            }
        }
    }
}

} // verus!
