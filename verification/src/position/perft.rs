//! Perft: counting the leaves of the tree of legal moves.

use vstd::prelude::*;

use super::do_move::{check10_after, lemma_undo_move_restores, rule60_after};
use super::movegen::{GenType, generate};
use super::position::Position;
use crate::types::{Move, Piece, PieceType, move_text};

verus! {

impl Position {
    /// Everything that making and taking back moves touches is the same in
    /// both positions.
    pub open spec fn same_position(&self, other: &Position) -> bool {
        &&& self.board == other.board
        &&& self.by_type_bb == other.by_type_bb
        &&& self.by_color_bb == other.by_color_bb
        &&& self.piece_count == other.piece_count
        &&& self.mid_encoding_val == other.mid_encoding_val
        &&& self.side_to_move == other.side_to_move
        &&& self.game_ply == other.game_ply
        &&& self.state == other.state
        &&& self.state_stack@ == other.state_stack@
        &&& self.bloom_filter.table@ == other.bloom_filter.table@
        &&& self.id_board == other.id_board
        &&& self.same_keys(other)
    }

    /// The number of legal moves.
    pub open spec fn legal_count(&self) -> nat {
        Set::new(|m: Move| self.generated(GenType::Legal, m)).len()
    }

    /// The position can be searched: it is consistent and its checkers are
    /// squares of the board.
    pub open spec fn searchable(&self) -> bool {
        self.valid() && self.state.checkers_bb.wf()
    }
}

/// The sum of the first `n` counts, stopping at `u64::MAX`.
pub open spec fn sat_sum(cs: Seq<int>, n: int) -> int
    decreases n,
{
    if n <= 0 {
        0
    } else {
        let s = sat_sum(cs, n - 1) + cs[n - 1];
        if s > u64::MAX {
            u64::MAX as int
        } else {
            s
        }
    }
}

/// Pairs a list of moves with a list of counts, one per move.
pub open spec fn listing(ms: Seq<Move>, cs: Seq<int>) -> bool {
    ms.len() == cs.len()
}

/// The legal moves of `p` as `ms` lists them: only legal moves; every one
/// of them when the checkers are known from the board or are not a single
/// piece; and each once when they are not a single piece.
pub open spec fn lists_legal(p: Position, ms: Seq<Move>) -> bool {
    &&& forall|m: Move| #[trigger] ms.contains(m) ==> p.generated(GenType::Legal, m)
    &&& (p.state.checkers_bb@.len() != 1 || (p.check_info_ok() && p.checkers_from_board())) ==> forall|m: Move|
        p.generated(GenType::Legal, m) ==> #[trigger] ms.contains(m)
    &&& p.state.checkers_bb@.len() != 1 ==> ms.no_duplicates()
}

/// `m` takes a king in `p`.
pub open spec fn takes_king(p: Position, m: Move) -> bool {
    p.board[m.to_id()] != Piece::NONE && p.board[m.to_id()].type_of() == PieceType::King
}

/// `r` counts the leaves of the tree of legal moves of `p` to `depth`
/// plies: one at depth 0; otherwise the sum, over the legal moves, of one
/// per move at depth 1 and, deeper, of the leaves to `depth - 1` below the
/// position each move leads to (none below a move that takes a king).
pub open spec fn perft_count(p: Position, depth: int, r: int) -> bool
    decreases depth, 1int,
{
    if depth <= 0 {
        r == 1
    } else {
        exists|ms: Seq<Move>, cs: Seq<int>|
            #[trigger] listing(ms, cs) && lists_legal(p, ms) && r == sat_sum(cs, cs.len() as int) && forall|i: int|
                0 <= i < ms.len() ==> if depth == 1 {
                    #[trigger] cs[i] == 1
                } else {
                    child_count(p, ms[i], depth - 1, cs[i])
                }
    }
}

/// `c` counts the leaves to `depth` plies below the position the legal
/// move `m` of `p` leads to (none when `m` takes a king).
pub open spec fn child_count(p: Position, m: Move, depth: int, c: int) -> bool
    decreases depth + 1, 0int,
{
    if takes_king(p, m) {
        c == 0
    } else {
        exists|q: Position|
            #[trigger] p.do_move_post(&q, m, p.gives_check_spec(m)) && depth >= 0 && perft_count(q, depth, c)
    }
}

/// A listing of the legal moves with the leaves below each gives the count
/// to one ply more.
proof fn lemma_perft_count_intro(p: Position, depth: int, ms: Seq<Move>, cs: Seq<int>, r: int)
    requires
        depth >= 2,
        listing(ms, cs),
        lists_legal(p, ms),
        r == sat_sum(cs, cs.len() as int),
        forall|i: int| 0 <= i < ms.len() ==> child_count(p, ms[i], depth - 1, #[trigger] cs[i]),
    ensures
        perft_count(p, depth, r),
{
}

proof fn lemma_sat_sum_ones(cs: Seq<int>, n: int)
    requires
        0 <= n <= cs.len(),
        cs.len() <= u64::MAX,
        forall|i: int| 0 <= i < cs.len() ==> cs[i] == 1,
    ensures
        sat_sum(cs, n) == n,
    decreases n,
{
    if n > 0 {
        lemma_sat_sum_ones(cs, n - 1);
    }
}

proof fn lemma_sat_sum_push(cs: Seq<int>, c: int, n: int)
    requires
        0 <= n <= cs.len(),
    ensures
        sat_sum(cs.push(c), n) == sat_sum(cs, n),
    decreases n,
{
    if n > 0 {
        lemma_sat_sum_push(cs, c, n - 1);
    }
}

/// What `generate` gives for the legal moves of a searchable position.
proof fn lemma_generated_list(p: Position, ms: Seq<Move>)
    requires
        p.searchable(),
        forall|m: Move| #[trigger] ms.contains(m) ==> p.generated(GenType::Legal, m),
        (p.state.checkers_bb.0 == 0 || p.state.checkers_bb@.len() > 1) ==> (forall|m: Move|
            #[trigger] ms.contains(m) <==> p.generated(GenType::Legal, m)) && ms.no_duplicates(),
        p.check_info_ok() && p.checkers_from_board() ==> forall|m: Move|
            p.generated(GenType::Legal, m) ==> #[trigger] ms.contains(m),
    ensures
        lists_legal(p, ms),
{
    if p.state.checkers_bb@.len() != 1 {
        if p.state.checkers_bb.0 != 0 {
            p.state.checkers_bb.lemma_empty_iff();
            assert(p.state.checkers_bb@.len() > 0) by {
                p.state.checkers_bb.lemma_finite();
                let t = choose|t: int| p.state.checkers_bb.has(t);
                assert(p.state.checkers_bb@.contains(t));
            }
        }
    }
}

/// A move leaves room for one ply less in the counters.
pub proof fn lemma_room_after_move(p: &Position, q: &Position, m: Move, gives_check: bool, k: int)
    requires
        p.room_for(k + 1),
        k >= 0,
        p.do_move_post(q, m, gives_check),
    ensures
        q.room_for(k),
{
    let us = p.side_to_move;
    let cap = p.board[m.to_id()] != Piece::NONE;
    assert(p.state_after(m, gives_check, q.state));
    assert(q.state.major_material[us.id()] == p.state.major_material[us.id()]);
    assert(q.state.major_material[us.opp().id()] >= p.state.major_material[us.opp().id()] - 1305);
    assert(q.state.check10[us.id()] == check10_after(p.state, us, gives_check, cap, us));
    assert(q.state.check10[us.opp().id()] == check10_after(p.state, us, gives_check, cap, us.opp()));
    assert(q.state.rule60 == rule60_after(p.state, us, gives_check, cap));
    assert(q.state.check10[us.id()] <= p.state.check10[us.id()] + 1 || q.state.check10[us.id()]
        == 0);
    assert(q.state.check10[us.opp().id()] <= p.state.check10[us.opp().id()] + 1
        || q.state.check10[us.opp().id()] == 0);
    if us == crate::types::Color::White {
        assert(us.id() == 0 && us.opp().id() == 1);
    } else {
        assert(us.id() == 1 && us.opp().id() == 0);
    }
}

/// Makes the legal move `m`, counts the leaves below it to `depth`, and
/// takes it back.
fn perft_child(pos: &mut Position, m: Move, depth: i32) -> (r: u64)
    requires
        depth >= 0,
        old(pos).searchable(),
        old(pos).room_for(depth + 1),
        old(pos).generated(GenType::Legal, m),
        old(pos).board[m.to_id()] == Piece::NONE || old(pos).board[m.to_id()].type_of()
            != PieceType::King,
    ensures
        final(pos).same_position(old(pos)),
        depth == 0 ==> r == 1,
        depth == 1 ==> move_leaves(*old(pos), m, r),
        exists|q: Position|
            #[trigger] old(pos).do_move_post(&q, m, old(pos).gives_check_spec(m)) && perft_count(q, depth as int, r as int),
    decreases depth, 3int,
{
    let ghost p0: Position = *pos;
    let gives_check = pos.gives_check(m);
    pos.do_move(m, gives_check);
    let ghost q: Position = *pos;
    proof {
        lemma_room_after_move(&p0, &q, m, gives_check, depth as int);
        if !gives_check {
            assert(0u128 >> 90u128 == 0) by (bit_vector);
        }
    }
    let n = perft(pos, depth);
    pos.undo_move(m);
    proof {
        let q1 = *old(pos);
        assert(q.undo_move_post(pos, m));
        lemma_undo_move_restores(p0, q, *pos, m, gives_check);
        assert(p0.do_move_post(&q, m, p0.gives_check_spec(m)));
        if depth == 1 {
            assert(q.state.checkers_bb@.len() != 1 ==> n == q.legal_count());
            assert(move_leaves(p0, m, n));
        }
        assert(perft_count(q, depth as int, n as int));
    }
    n
}

/// A move made from a position that is the same as `p0` is made from `p0`.
proof fn lemma_post_same(p: Position, p0: Position, q: Position, m: Move)
    requires
        p.same_position(&p0),
        p.do_move_post(&q, m, p.gives_check_spec(m)),
    ensures
        p0.do_move_post(&q, m, p0.gives_check_spec(m)),
{
    assert(p.board@ == p0.board@);
    assert(p.state_after(m, p.gives_check_spec(m), q.state) == p0.state_after(m, p0.gives_check_spec(m), q.state));
}

/// Counts the leaves of the tree of legal moves `depth` plies deep: 1 at
/// depth 0, the number of legal moves at depth 1. The position is left as
/// it was. Moves that would take a king are not followed.
#[verifier::spinoff_prover]
#[verifier::rlimit(60)]
pub fn perft(pos: &mut Position, depth: i32) -> (r: u64)
    requires
        depth >= 0,
        old(pos).searchable(),
        old(pos).room_for(depth as int),
    ensures
        final(pos).same_position(old(pos)),
        depth == 0 ==> r == 1,
        depth == 1 && old(pos).state.checkers_bb@.len() != 1 ==> r == old(pos).legal_count(),
        perft_count(*old(pos), depth as int, r as int),
    decreases depth, 2int,
{
    if depth == 0 {
        return 1;
    }
    let ml = generate(pos, GenType::Legal);
    proof {
        lemma_generated_list(*pos, ml@);
    }
    let len = ml.len();
    if depth == 1 {
        proof {
            let cs = Seq::new(ml@.len(), |i: int| 1int);
            lemma_sat_sum_ones(cs, cs.len() as int);
            assert(listing(ml@, cs));
            assert(perft_count(*pos, depth as int, ml@.len() as int));
            if pos.state.checkers_bb@.len() != 1 {
                if pos.state.checkers_bb.0 != 0 {
                    pos.state.checkers_bb.lemma_empty_iff();
                    assert(pos.state.checkers_bb@.len() > 0) by {
                        pos.state.checkers_bb.lemma_finite();
                        let t = choose|t: int| pos.state.checkers_bb.has(t);
                        assert(pos.state.checkers_bb@.contains(t));
                    }
                }
                ml@.unique_seq_to_set();
                assert(ml@.to_set() =~= Set::new(|m: Move| pos.generated(GenType::Legal, m)));
            }
        }
        return len as u64;
    }
    let ghost p0: Position = *pos;
    let ghost mut cs: Seq<int> = Seq::empty();
    let mut nodes: u64 = 0;
    let mut i: usize = 0;
    while i < ml.len()
        invariant
            depth >= 2,
            i <= ml@.len(),
            pos.same_position(&p0),
            p0.searchable(),
            p0.room_for(depth as int),
            forall|m: Move| #[trigger] ml@.contains(m) ==> p0.generated(GenType::Legal, m),
            cs.len() == i,
            nodes == sat_sum(cs, i as int),
            forall|j: int| 0 <= j < i ==> child_count(p0, ml@[j], depth - 1, #[trigger] cs[j]),
        decreases ml@.len() - i,
    {
        let m = ml.get(i);
        proof {
            assert(ml@.contains(m));
        }
        let ghost pc = *pos;
        let to = m.to_sq();
        let target = pos.piece_on(to);
        if target == Piece::NONE || target.piece_type() != PieceType::King {
            let n = perft_child(pos, m, depth - 1);
            proof {
                let q = choose|q: Position|
                    #[trigger] pc.do_move_post(&q, m, pc.gives_check_spec(m)) && perft_count(q, depth - 1, n as int);
                lemma_post_same(pc, p0, q, m);
                lemma_sat_sum_push(cs, n as int, i as int);
                cs = cs.push(n as int);
                assert(cs[i as int] == n as int);
                assert(ml@[i as int] == m);
                assert(child_count(p0, m, depth - 1, n as int));
            }
            nodes = nodes.saturating_add(n);
        } else {
            proof {
                lemma_sat_sum_push(cs, 0, i as int);
                cs = cs.push(0);
                assert(ml@[i as int] == m);
                assert(takes_king(p0, m));
                assert(child_count(p0, m, depth - 1, 0));
            }
        }
        i = i + 1;
    }
    proof {
        lemma_perft_count_intro(p0, depth as int, ml@, cs, nodes as int);
    }
    nodes
}

/// `n` counts the legal replies after `m` is made in `p` (when that
/// position has not exactly one checker).
pub open spec fn move_leaves(p: Position, m: Move, n: u64) -> bool {
    exists|q: Position|
        #[trigger] p.do_move_post(&q, m, p.gives_check_spec(m)) && (q.state.checkers_bb@.len() != 1
            ==> n == q.legal_count())
}

/// What `perft_divide` reports for the legal move `m` of `p`: one leaf at
/// depth 1 or less; none for a move that would take a king; at depth 2 the
/// legal replies after it (when that position has not exactly one checker);
/// deeper, the leaves below it to one ply less (see `child_count`).
pub open spec fn divide_count(p: Position, m: Move, depth: int, n: u64) -> bool {
    if depth <= 1 {
        n == 1
    } else if p.board[m.to_id()] != Piece::NONE && p.board[m.to_id()].type_of() == PieceType::King {
        n == 0
    } else if depth == 2 {
        move_leaves(p, m, n) && child_count(p, m, 1, n as int)
    } else {
        child_count(p, m, depth - 1, n as int)
    }
}

/// `e` names a legal move `m` of `p` and reports for it as `divide_count`
/// says.
pub open spec fn divide_entry(p: Position, depth: int, e: (String, u64)) -> bool {
    exists|m: Move|
        #[trigger] p.generated(GenType::Legal, m) && e.0@ == move_text(m) && divide_count(p, m, depth, e.1)
}

/// For each legal move, its text and the leaves below it to `depth` plies
/// in all (one per move at depth 1 or less).
#[verifier::spinoff_prover]
#[verifier::rlimit(60)]
pub fn perft_divide(pos: &mut Position, depth: i32) -> (r: Vec<(String, u64)>)
    requires
        old(pos).searchable(),
        old(pos).room_for(if depth > 1 { depth as int } else { 1 }),
    ensures
        final(pos).same_position(old(pos)),
        forall|i: int| 0 <= i < r@.len() ==> (#[trigger] r@[i]).0@.len() == 4,
        forall|i: int| 0 <= i < r@.len() ==> divide_entry(*old(pos), depth as int, #[trigger] r@[i]),
        old(pos).check_info_ok() && old(pos).checkers_from_board() ==> forall|m: Move|
            old(pos).generated(GenType::Legal, m) ==> exists|i: int|
                0 <= i < r@.len() && (#[trigger] r@[i]).0@ == move_text(m),
        old(pos).state.checkers_bb@.len() != 1 ==> r@.len() == old(pos).legal_count(),
{
    let ml = generate(pos, GenType::Legal);
    proof {
        if pos.state.checkers_bb@.len() != 1 {
            if pos.state.checkers_bb.0 != 0 {
                pos.state.checkers_bb.lemma_empty_iff();
                assert(pos.state.checkers_bb@.len() > 0) by {
                    pos.state.checkers_bb.lemma_finite();
                    let t = choose|t: int| pos.state.checkers_bb.has(t);
                    assert(pos.state.checkers_bb@.contains(t));
                }
            }
            ml@.unique_seq_to_set();
            assert(ml@.to_set() =~= Set::new(|m: Move| pos.generated(GenType::Legal, m)));
        }
    }
    let ghost p0: Position = *pos;
    let mut results: Vec<(String, u64)> = Vec::new();
    let mut i: usize = 0;
    while i < ml.len()
        invariant
            i <= ml@.len(),
            pos.same_position(&p0),
            p0.searchable(),
            p0.room_for(if depth > 1 { depth as int } else { 1 }),
            forall|m: Move| #[trigger] ml@.contains(m) ==> p0.generated(GenType::Legal, m),
            forall|k: int| 0 <= k < results@.len() ==> (#[trigger] results@[k]).0@.len() == 4,
            results@.len() == i,
            forall|k: int|
                0 <= k < i ==> (#[trigger] results@[k]).0@ == move_text(ml@[k]) && divide_count(
                    p0,
                    ml@[k],
                    depth as int,
                    results@[k].1,
                ),
            p0.check_info_ok() && p0.checkers_from_board() ==> forall|m: Move|
                p0.generated(GenType::Legal, m) ==> #[trigger] ml@.contains(m),
            p0.state.checkers_bb@.len() != 1 ==> ml@.len() == p0.legal_count(),
        decreases ml@.len() - i,
    {
        let m = ml.get(i);
        proof {
            assert(ml@.contains(m));
        }
        let to = m.to_sq();
        let target = pos.piece_on(to);
        let ghost pc = *pos;
        let nodes = if depth <= 1 {
            1
        } else if target == Piece::NONE || target.piece_type() != PieceType::King {
            let n = perft_child(pos, m, depth - 1);
            proof {
                if depth == 2 {
                    let q = choose|q: Position|
                        #[trigger] pc.do_move_post(&q, m, pc.gives_check_spec(m)) && (q.state.checkers_bb@.len()
                            != 1 ==> n == q.legal_count());
                    lemma_post_same(pc, p0, q, m);
                    assert(move_leaves(p0, m, n));
                }
                let q2 = choose|q: Position|
                    #[trigger] pc.do_move_post(&q, m, pc.gives_check_spec(m)) && perft_count(q, depth - 1, n as int);
                lemma_post_same(pc, p0, q2, m);
                assert(child_count(p0, m, depth - 1, n as int));
            }
            n
        } else {
            0
        };
        results.push((m.to_text(), nodes));
        proof {
            assert(ml@[i as int] == m);
        }
        i = i + 1;
    }
    proof {
        assert forall|k: int| 0 <= k < results@.len() implies divide_entry(p0, depth as int, #[trigger] results@[k]) by {
            assert(ml@.contains(ml@[k]));
            assert(p0.generated(GenType::Legal, ml@[k]));
        }
        if p0.check_info_ok() && p0.checkers_from_board() {
            assert forall|m: Move| p0.generated(GenType::Legal, m) implies exists|k: int|
                0 <= k < results@.len() && (#[trigger] results@[k]).0@ == move_text(m) by {
                assert(ml@.contains(m));
                let k = choose|k: int| 0 <= k < ml@.len() && ml@[k] == m;
                assert(results@[k].0@ == move_text(m));
            }
        }
    }
    results
}

} // verus!
