//! Making a move keeps the hash keys and the major material that the state
//! records equal to those computed from the board.

use vstd::prelude::*;

use super::do_move::{board_after_move, is_major, is_minor, toggle_if, zk};
use super::fen::{
    any_sel, board_sum, key_fold, lemma_board_sum_update, major_sum, major_w, minor_sel,
    non_pawn_sel, pawn_sel,
};
use super::position::Position;
use super::state::StateInfo;
use super::zobrist::{no_pawns_key, side_key};
use crate::types::{Color, Move, Piece, PieceType, piece_value_spec};

verus! {

/// What the piece `x` on `s` adds (by XOR) to a key over the pieces `sel`
/// selects.
pub open spec fn key_part(x: Piece, sel: spec_fn(Piece) -> bool, s: int) -> u64 {
    if x != Piece::NONE && sel(x) {
        zk(x, s)
    } else {
        0
    }
}

proof fn lemma_xor_swap(a: u64, d: u64, z: u64)
    by (bit_vector)
    ensures
        (a ^ d) ^ z == (a ^ z) ^ d,
        a ^ 0 == a,
        (a ^ z) ^ (d ^ z) == a ^ d,
{
}

/// Changing square `k` of a board changes a key over it by the parts of
/// the old and the new piece there.
pub proof fn lemma_key_fold_update(
    board: Seq<Piece>,
    sel: spec_fn(Piece) -> bool,
    init: u64,
    k: int,
    p: Piece,
    n: int,
)
    requires
        0 <= k < board.len(),
        n <= board.len(),
    ensures
        key_fold(board.update(k, p), sel, init, n) == key_fold(board, sel, init, n) ^ (if 0 <= k < n {
            key_part(p, sel, k) ^ key_part(board[k], sel, k)
        } else {
            0
        }),
    decreases n,
{
    let b2 = board.update(k, p);
    if n <= 0 {
        lemma_xor_swap(init, 0, 0);
    } else {
        lemma_key_fold_update(board, sel, init, k, p, n - 1);
        let f1 = key_fold(board, sel, init, n - 1);
        let f2 = key_fold(b2, sel, init, n - 1);
        if n - 1 == k {
            lemma_xor_swap(f1, 0, 0);
            let t1 = key_part(board[k], sel, k);
            let t2 = key_part(p, sel, k);
            assert(key_fold(board, sel, init, n) == f1 ^ t1) by {
                lemma_xor_swap(f1, 0, 0);
            }
            assert(key_fold(b2, sel, init, n) == f1 ^ t2) by {
                lemma_xor_swap(f1, 0, 0);
            }
            lemma_xor_swap(f1, t2, t1);
            assert((f1 ^ t1) ^ (t2 ^ t1) == f1 ^ t2) by (bit_vector);
        } else {
            let d = if 0 <= k < n - 1 {
                key_part(p, sel, k) ^ key_part(board[k], sel, k)
            } else {
                0
            };
            assert(b2[n - 1] == board[n - 1]);
            let z = key_part(board[n - 1], sel, n - 1);
            lemma_xor_swap(f1, d, z);
            lemma_xor_swap(f1, 0, 0);
            lemma_xor_swap(f1 ^ d, 0, 0);
            assert(key_fold(b2, sel, init, n) == f2 ^ z);
            assert(key_fold(board, sel, init, n) == f1 ^ z);
        }
    }
}

/// The key change of a move: the moved piece leaves `from` and lands on
/// `to`, where it takes what stood there.
proof fn lemma_key_fold_move(board: Seq<Piece>, sel: spec_fn(Piece) -> bool, init: u64, from: int, to: int)
    requires
        board.len() == 90,
        0 <= from < 90,
        0 <= to < 90,
        from != to,
    ensures
        key_fold(board_after_move(board, from, to), sel, init, 90) == key_fold(board, sel, init, 90) ^ key_part(
            board[from],
            sel,
            from,
        ) ^ (key_part(board[from], sel, to) ^ key_part(board[to], sel, to)),
{
    let b1 = board.update(from, Piece::NONE);
    lemma_key_fold_update(board, sel, init, from, Piece::NONE, 90);
    lemma_key_fold_update(b1, sel, init, to, board[from], 90);
    assert(b1[to] == board[to]);
    let f = key_fold(board, sel, init, 90);
    let a = key_part(board[from], sel, from);
    assert(key_part(Piece::NONE, sel, from) == 0);
    assert(0u64 ^ a == a) by (bit_vector);
}

proof fn lemma_side_flip(fa: u64, side: u64, c: bool, z: u64, a: u64, b: u64)
    by (bit_vector)
    ensures
        toggle_if((fa ^ side) ^ side, c, z) ^ (a ^ b) == toggle_if(toggle_if(fa, c, z), true, a ^ b),
        toggle_if(fa ^ side, c, z) ^ (a ^ b) == toggle_if(toggle_if(fa, c, z), true, a ^ b) ^ side,
{
}

proof fn lemma_two_toggles(f: u64, c1: bool, z1: u64, c2: bool, a: u64, b: u64)
    by (bit_vector)
    ensures
        toggle_if(toggle_if(f, c1, z1), c2, a ^ b) == f ^ (if c2 { a } else { 0u64 }) ^ ((if c2 {
            b
        } else {
            0u64
        }) ^ (if c1 { z1 } else { 0u64 })),
{
}

/// A key over the pieces `sel` selects, toggled by a capture on `to` (when
/// `c1`) and by the path of the moved piece (when `c2`), is the key of the
/// board after the move, when `c1` and `c2` say what `sel` selects.
proof fn lemma_fold_after_move(
    b: Seq<Piece>,
    sel: spec_fn(Piece) -> bool,
    init: u64,
    from: int,
    to: int,
    c1: bool,
    c2: bool,
)
    requires
        b.len() == 90,
        0 <= from < 90,
        0 <= to < 90,
        from != to,
        b[from] != Piece::NONE,
        c1 == (b[to] != Piece::NONE && sel(b[to])),
        c2 == sel(b[from]),
    ensures
        key_fold(board_after_move(b, from, to), sel, init, 90) == toggle_if(
            toggle_if(key_fold(b, sel, init, 90), c1, zk(b[to], to)),
            c2,
            zk(b[from], from) ^ zk(b[from], to),
        ),
{
    lemma_key_fold_move(b, sel, init, from, to);
    lemma_two_toggles(key_fold(b, sel, init, 90), c1, zk(b[to], to), c2, zk(b[from], from), zk(b[from], to));
}

/// A move of a piece of the side to move that takes nothing or an enemy
/// piece.
pub open spec fn mover_ok(p: Position, m: Move) -> bool {
    &&& p.can_make(m)
    &&& p.board[m.from_id()].color_of() == p.side_to_move
    &&& (p.board[m.to_id()] == Piece::NONE || p.board[m.to_id()].color_of() == p.side_to_move.opp())
}

proof fn lemma_state_key(p: Position, ns: StateInfo, b2: Seq<Piece>, m: Move, gives_check: bool)
    requires
        p.keys_from_board(),
        mover_ok(p, m),
        p.state_after(m, gives_check, ns),
        b2 == board_after_move(p.board@, m.from_id(), m.to_id()),
    ensures
        ns.key == toggle_if(key_fold(b2, any_sel(), 0, 90), p.side_to_move.opp() == Color::Black, side_key()),
{
    let b = p.board@;
    let from = m.from_id();
    let to = m.to_id();
    let pc = b[from];
    let cap = b[to];
    let capture = cap != Piece::NONE;
    lemma_fold_after_move(b, any_sel(), 0, from, to, capture, true);
    let fa = key_fold(b, any_sel(), 0, 90);
    lemma_side_flip(fa, side_key(), capture, zk(cap, to), zk(pc, from), zk(pc, to));
}

proof fn lemma_state_pawn_minor(p: Position, ns: StateInfo, b2: Seq<Piece>, m: Move, gives_check: bool)
    requires
        p.keys_from_board(),
        mover_ok(p, m),
        p.state_after(m, gives_check, ns),
        b2 == board_after_move(p.board@, m.from_id(), m.to_id()),
    ensures
        ns.pawn_key == key_fold(b2, pawn_sel(), no_pawns_key(), 90),
        ns.minor_piece_key == key_fold(b2, minor_sel(), 0, 90),
{
    let b = p.board@;
    let from = m.from_id();
    let to = m.to_id();
    let pc = b[from];
    let cap = b[to];
    let capture = cap != Piece::NONE;
    lemma_fold_after_move(b, pawn_sel(), no_pawns_key(), from, to, capture && cap.type_of() == PieceType::Pawn, pc.type_of() == PieceType::Pawn);
    lemma_fold_after_move(b, minor_sel(), 0, from, to, capture && is_minor(cap.type_of()), is_minor(pc.type_of()));
}

proof fn lemma_state_non_pawn(p: Position, ns: StateInfo, b2: Seq<Piece>, m: Move, gives_check: bool)
    requires
        p.keys_from_board(),
        mover_ok(p, m),
        p.state_after(m, gives_check, ns),
        b2 == board_after_move(p.board@, m.from_id(), m.to_id()),
    ensures
        ns.non_pawn_key[0] == key_fold(b2, non_pawn_sel(Color::White), 0, 90),
        ns.non_pawn_key[1] == key_fold(b2, non_pawn_sel(Color::Black), 0, 90),
{
    let b = p.board@;
    let from = m.from_id();
    let to = m.to_id();
    let pc = b[from];
    let cap = b[to];
    let capture = cap != Piece::NONE;
    let us = p.side_to_move;
    let them = us.opp();
    lemma_fold_after_move(b, non_pawn_sel(them), 0, from, to, capture && cap.type_of() != PieceType::Pawn, false);
    lemma_fold_after_move(b, non_pawn_sel(us), 0, from, to, false, pc.type_of() != PieceType::Pawn);
    if us == Color::White {
        assert(them == Color::Black);
    } else {
        assert(them == Color::White);
    }
}

proof fn lemma_state_major(p: Position, ns: StateInfo, b2: Seq<Piece>, m: Move, gives_check: bool)
    requires
        p.keys_from_board(),
        mover_ok(p, m),
        p.state_after(m, gives_check, ns),
        b2 == board_after_move(p.board@, m.from_id(), m.to_id()),
    ensures
        ns.major_material[0] == major_sum(b2, Color::White, 90),
        ns.major_material[1] == major_sum(b2, Color::Black, 90),
{
    let b = p.board@;
    let from = m.from_id();
    let to = m.to_id();
    let pc = b[from];
    let cap = b[to];
    let us = p.side_to_move;
    let them = us.opp();
    let b1 = b.update(from, Piece::NONE);
    lemma_board_sum_update(b, major_w(Color::White), from, Piece::NONE, 90);
    lemma_board_sum_update(b1, major_w(Color::White), to, pc, 90);
    lemma_board_sum_update(b, major_w(Color::Black), from, Piece::NONE, 90);
    lemma_board_sum_update(b1, major_w(Color::Black), to, pc, 90);
    assert(b1[to] == cap);
    if us == Color::White {
        assert(them == Color::Black);
    } else {
        assert(them == Color::White);
    }
}

/// Making a move of a piece of the side to move, taking nothing or an
/// enemy piece, from a position whose recorded keys and major material are
/// those of its board gives a position of which the same holds.
pub proof fn lemma_keys_after_move(p: Position, q: Position, m: Move, gives_check: bool)
    requires
        p.keys_from_board(),
        mover_ok(p, m),
        p.do_move_post(&q, m, gives_check),
    ensures
        q.keys_from_board(),
{
    assert(p.state_after(m, gives_check, q.state));
    assert(q.board@ == board_after_move(p.board@, m.from_id(), m.to_id()));
    lemma_state_key(p, q.state, q.board@, m, gives_check);
    lemma_state_pawn_minor(p, q.state, q.board@, m, gives_check);
    lemma_state_non_pawn(p, q.state, q.board@, m, gives_check);
    lemma_state_major(p, q.state, q.board@, m, gives_check);
}

} // verus!
