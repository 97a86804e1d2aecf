//! Making and unmaking moves, full and light.

use vstd::prelude::*;

use super::legality::piece_checks;
use super::position::Position;
use super::state::{
    StateInfo, bloom_inserted, bloom_removed, lemma_bloom_insert_remove,
};
use super::zobrist::{psq_key, side_key};
use crate::bitboard::Bitboard;
use crate::nnue::features::half_ka_v2_hm::mid_mirror_spec;
use crate::types::{Color, Move, Piece, PieceType, Value, make_piece, piece_value, piece_value_spec};

verus! {

/// 2^64, the modulus of the wrapping mid-mirror sums.
pub open spec fn word() -> int {
    0x1_0000_0000_0000_0000int
}

/// The board after the piece on `from` goes to `to`, replacing what stood there.
pub open spec fn board_after_move(b: Seq<Piece>, from: int, to: int) -> Seq<Piece> {
    b.update(from, Piece::NONE).update(to, b[from])
}

/// The board after the piece on `to` goes back to `from` and `captured`
/// reappears on `to`.
pub open spec fn board_after_unmove(b: Seq<Piece>, from: int, to: int, captured: Piece) -> Seq<
    Piece,
> {
    b.update(from, b[to]).update(to, captured)
}

/// Piece counts after one `p` leaves the board (wrapping at zero).
pub open spec fn count_removed(n: Seq<u8>, p: Piece) -> Seq<u8> {
    n.update(p.id(), ((n[p.id()] + 255) % 256) as u8)
}

/// Piece counts after one more `p` comes onto the board (wrapping at 255).
pub open spec fn count_added(n: Seq<u8>, p: Piece) -> Seq<u8> {
    n.update(p.id(), ((n[p.id()] + 1) % 256) as u8)
}

/// Mid-mirror sums after `p` leaves square `s`.
pub open spec fn mid_removed(v: Seq<u64>, p: Piece, s: int) -> Seq<u64> {
    v.update(
        p.color_of().id(),
        ((v[p.color_of().id()] as int - mid_mirror_spec(p, s) as int + word()) % word()) as u64,
    )
}

/// Mid-mirror sums after `p` comes onto square `s`.
pub open spec fn mid_added(v: Seq<u64>, p: Piece, s: int) -> Seq<u64> {
    v.update(
        p.color_of().id(),
        ((v[p.color_of().id()] as int + mid_mirror_spec(p, s) as int) % word()) as u64,
    )
}

/// Mid-mirror sums after `p` goes from `from` to `to`.
pub open spec fn mid_moved(v: Seq<u64>, p: Piece, from: int, to: int) -> Seq<u64> {
    v.update(
        p.color_of().id(),
        ((v[p.color_of().id()] as int - mid_mirror_spec(p, from) as int + mid_mirror_spec(
            p,
            to,
        ) as int + word()) % word()) as u64,
    )
}

/// The Zobrist key of piece `p` on square `s`.
pub open spec fn zk(p: Piece, s: int) -> u64 {
    psq_key(p.id(), s)
}

/// `k`, toggled by `x` when `cond` holds.
pub open spec fn toggle_if(k: u64, cond: bool, x: u64) -> u64 {
    if cond {
        k ^ x
    } else {
        k
    }
}

/// Rooks, cannons and knights make up the major material.
pub open spec fn is_major(pt: PieceType) -> bool {
    pt == PieceType::Rook || pt == PieceType::Cannon || pt == PieceType::Knight
}

/// Cannons and knights enter the minor-piece key.
pub open spec fn is_minor(pt: PieceType) -> bool {
    pt == PieceType::Cannon || pt == PieceType::Knight
}

/// The check counter of `us` after a move by `us` that gives check or not.
pub open spec fn check10_bumped(s: StateInfo, us: Color, gives_check: bool) -> int {
    if gives_check {
        s.check10[us.id()] + 1
    } else {
        s.check10[us.id()] as int
    }
}

/// Whether the move counts toward the opponent's check run or the rule-60
/// counter at all: it does unless the mover's check run passes ten.
pub open spec fn move_counts(s: StateInfo, us: Color, gives_check: bool) -> bool {
    !gives_check || check10_bumped(s, us, gives_check) <= 10
}

/// The move escapes a check from an opponent whose check run passed ten.
pub open spec fn extends_their_run(s: StateInfo, us: Color, gives_check: bool) -> bool {
    move_counts(s, us, gives_check) && s.check10[us.opp().id()] > 10 && s.checkers_bb.0 != 0
}

/// The check counter of `c` after a move by `us`.
pub open spec fn check10_after(
    s: StateInfo,
    us: Color,
    gives_check: bool,
    capture: bool,
    c: Color,
) -> int {
    if capture {
        0
    } else if c == us {
        check10_bumped(s, us, gives_check)
    } else if extends_their_run(s, us, gives_check) {
        s.check10[c.id()] + 1
    } else {
        s.check10[c.id()] as int
    }
}

/// The rule-60 counter after a move by `us`.
pub open spec fn rule60_after(s: StateInfo, us: Color, gives_check: bool, capture: bool) -> int {
    if capture {
        0
    } else if move_counts(s, us, gives_check) && !extends_their_run(s, us, gives_check) {
        s.rule60 + 1
    } else {
        s.rule60 as int
    }
}

impl Position {
    /// Room for `k` more plies in the counters that a move advances.
    pub open spec fn room_for(&self, k: int) -> bool {
        &&& k <= i16::MAX
        &&& self.game_ply + k <= u16::MAX
        &&& self.state.rule60 + k <= i32::MAX
        &&& self.state.plies_from_null + k <= i32::MAX
        &&& self.state.check10[0] + k <= i16::MAX
        &&& self.state.check10[1] + k <= i16::MAX
        &&& self.state.major_material[0] - k * 1305 >= i32::MIN
        &&& self.state.major_material[1] - k * 1305 >= i32::MIN
    }

    /// Both positions use the same Zobrist keys.
    pub open spec fn same_keys(&self, other: &Position) -> bool {
        &&& self.zob.psq@ == other.zob.psq@
        &&& self.zob.side == other.zob.side
        &&& self.zob.no_pawns == other.zob.no_pawns
    }

    /// `m` can be made here: it moves a piece to another square, and does not
    /// take a king.
    pub open spec fn can_make(&self, m: Move) -> bool {
        &&& m.well_formed()
        &&& m.from_id() != m.to_id()
        &&& self.board[m.from_id()] != Piece::NONE
        &&& (self.board[m.to_id()] == Piece::NONE || self.board[m.to_id()].type_of()
            != PieceType::King)
    }

    /// Board, bitboards, counts and mid-mirror sums of `new` are those of
    /// `self` after the piece on `from` went to `to`, taking what stood there.
    pub open spec fn pieces_moved(&self, new: &Position, from: int, to: int) -> bool {
        let pc = self.board[from];
        let cap = self.board[to];
        &&& new.wf()
        &&& new.board@ == board_after_move(self.board@, from, to)
        &&& new.piece_count@ == (if cap != Piece::NONE {
            count_removed(self.piece_count@, cap)
        } else {
            self.piece_count@
        })
        &&& new.mid_encoding_val@ == mid_moved(
            (if cap != Piece::NONE {
                mid_removed(self.mid_encoding_val@, cap, to)
            } else {
                self.mid_encoding_val@
            }),
            pc,
            from,
            to,
        )
    }

    /// Board, bitboards, counts and mid-mirror sums of `new` are those of
    /// `self` after the piece on `to` went back to `from` and `captured`
    /// came back on `to`.
    pub open spec fn pieces_unmoved(&self, new: &Position, from: int, to: int, captured: Piece) -> bool {
        let pc = self.board[to];
        &&& new.wf()
        &&& new.board@ == board_after_unmove(self.board@, from, to, captured)
        &&& new.piece_count@ == (if captured != Piece::NONE {
            count_added(self.piece_count@, captured)
        } else {
            self.piece_count@
        })
        &&& new.mid_encoding_val@ == (if captured != Piece::NONE {
            mid_added(mid_moved(self.mid_encoding_val@, pc, to, from), captured, to)
        } else {
            mid_moved(self.mid_encoding_val@, pc, to, from)
        })
    }

    /// The new per-ply state after `m` (giving check or not), before the check
    /// information is recomputed.
    pub open spec fn state_after(&self, m: Move, gives_check: bool, new: StateInfo) -> bool {
        let s = self.state;
        let us = self.side_to_move;
        let them = us.opp();
        let from = m.from_id();
        let to = m.to_id();
        let pc = self.board[from];
        let cap = self.board[to];
        let capture = cap != Piece::NONE;
        let pawn_cap = capture && cap.type_of() == PieceType::Pawn;
        let other_cap = capture && cap.type_of() != PieceType::Pawn;
        let path = zk(pc, from) ^ zk(pc, to);
        &&& new.key == toggle_if(s.key ^ side_key(), capture, zk(cap, to)) ^ path
        &&& new.pawn_key == toggle_if(
            toggle_if(s.pawn_key, pawn_cap, zk(cap, to)),
            pc.type_of() == PieceType::Pawn,
            path,
        )
        &&& new.non_pawn_key[them.id()] == toggle_if(
            s.non_pawn_key[them.id()],
            other_cap,
            zk(cap, to),
        )
        &&& new.non_pawn_key[us.id()] == toggle_if(
            s.non_pawn_key[us.id()],
            pc.type_of() != PieceType::Pawn,
            path,
        )
        &&& new.minor_piece_key == toggle_if(
            toggle_if(s.minor_piece_key, capture && is_minor(cap.type_of()), zk(cap, to)),
            is_minor(pc.type_of()),
            path,
        )
        &&& new.major_material[them.id()] == s.major_material[them.id()] - (if capture
            && is_major(cap.type_of()) {
            piece_value_spec(cap)
        } else {
            0
        })
        &&& new.major_material[us.id()] == s.major_material[us.id()]
        &&& new.check10[us.id()] == check10_after(s, us, gives_check, capture, us)
        &&& new.check10[them.id()] == check10_after(s, us, gives_check, capture, them)
        &&& new.rule60 == rule60_after(s, us, gives_check, capture)
        &&& new.plies_from_null == s.plies_from_null + 1
        &&& new.captured_piece == cap
        &&& new.last_move == m
    }

    /// What `do_move(m, gives_check)` makes of `self`.
    pub open spec fn do_move_post(&self, new: &Position, m: Move, gives_check: bool) -> bool {
        let us = self.side_to_move;
        let them = us.opp();
        &&& new.valid()
        &&& self.pieces_moved(new, m.from_id(), m.to_id())
        &&& new.side_to_move == them
        &&& new.game_ply == self.game_ply + 1
        &&& new.state_stack@ == self.state_stack@.push(self.state)
        &&& new.bloom_filter.table@ == bloom_inserted(self.bloom_filter.table@, self.state.key)
        &&& new.id_board == self.id_board
        &&& new.same_keys(self)
        &&& self.state_after(m, gives_check, new.state)
        &&& gives_check ==> new.state.checkers_bb.wf() && forall|t: int|
            0 <= t < 90 ==> (#[trigger] new.state.checkers_bb.has(t) == piece_checks(
                new.board[t],
                us,
                t,
                new.king_sq(them),
                new.occ(),
            ))
        &&& !gives_check ==> new.state.checkers_bb.0 == 0
        &&& new.check_info_ok()
    }

    /// What `undo_move(m)` makes of `self`.
    pub open spec fn undo_move_post(&self, new: &Position, m: Move) -> bool {
        &&& self.pieces_unmoved(new, m.from_id(), m.to_id(), self.state.captured_piece)
        &&& new.valid()
        &&& new.side_to_move == self.side_to_move.opp()
        &&& new.game_ply == self.game_ply - 1
        &&& new.state == self.state_stack@.last()
        &&& new.state_stack@ == self.state_stack@.drop_last()
        &&& new.bloom_filter.table@ == bloom_removed(self.bloom_filter.table@, new.state.key)
        &&& new.id_board == self.id_board
        &&& new.same_keys(self)
    }

    /// `m` can be taken back here: its destination holds a piece, its origin
    /// is empty, a state is saved and the captured piece is not a king.
    pub open spec fn can_unmake(&self, m: Move) -> bool {
        &&& m.well_formed()
        &&& m.from_id() != m.to_id()
        &&& self.board[m.to_id()] != Piece::NONE
        &&& self.board[m.from_id()] == Piece::NONE
        &&& self.state_stack@.len() > 0
        &&& self.game_ply > 0
        &&& (self.state.captured_piece == Piece::NONE || self.state.captured_piece.type_of()
            != PieceType::King)
    }
}

/// What a move does to the position: the moving piece stands on the
/// destination, the origin is empty, every other square keeps its piece,
/// the side to move changes, the game ply advances by one, the state
/// records the captured piece, and a capture resets the sixty-move counter
/// and takes one piece of its kind off the count.
pub proof fn lemma_move_effects(p: &Position, q: &Position, m: Move, gives_check: bool)
    requires
        p.do_move_post(q, m, gives_check),
        p.can_make(m),
    ensures
        q.board[m.to_id()] == p.board[m.from_id()],
        q.board[m.from_id()] == Piece::NONE,
        forall|s: int| 0 <= s < 90 && s != m.from_id() && s != m.to_id() ==> #[trigger] q.board[s] == p.board[s],
        q.side_to_move == p.side_to_move.opp(),
        q.game_ply == p.game_ply + 1,
        q.state.captured_piece == p.board[m.to_id()],
        p.board[m.to_id()] != Piece::NONE ==> q.state.rule60 == 0,
        p.board[m.to_id()] != Piece::NONE && p.piece_count@[p.board[m.to_id()].id()] >= 1
            ==> q.piece_count@[p.board[m.to_id()].id()] == p.piece_count@[p.board[m.to_id()].id()] - 1,
{
    let from = m.from_id();
    let to = m.to_id();
    assert(q.board@ == board_after_move(p.board@, from, to));
    assert(q.board@[to] == q.board[to]);
    assert(q.board@[from] == q.board[from]);
    assert forall|s: int| 0 <= s < 90 && s != from && s != to implies #[trigger] q.board[s] == p.board[s] by {
        assert(q.board@[s] == q.board[s]);
        assert(p.board@[s] == p.board[s]);
    }
}

/// Moving a piece that does not capture a king keeps one king of each color.
pub proof fn lemma_kings_after_move(p: &Position, q: &Position, from: int, to: int)
    requires
        p.kings_present(),
        0 <= from < 90,
        0 <= to < 90,
        from != to,
        p.board[from] != Piece::NONE,
        p.board[to] == Piece::NONE || p.board[to].type_of() != PieceType::King,
        q.board@ == board_after_move(p.board@, from, to),
    ensures
        q.kings_present(),
{
    assert(forall|s: int| 0 <= s < 90 ==> #[trigger] q.board[s] == q.board@[s]);
    assert(forall|s: int| 0 <= s < 90 ==> #[trigger] p.board[s] == p.board@[s]);
    let ws = choose|s: int| 0 <= s < 90 && #[trigger] p.board[s] == Piece::W_KING;
    let bs = choose|s: int| 0 <= s < 90 && #[trigger] p.board[s] == Piece::B_KING;
    let wq = if ws == from {
        to
    } else {
        ws
    };
    let bq = if bs == from {
        to
    } else {
        bs
    };
    assert(q.board[wq] == Piece::W_KING);
    assert(q.board[bq] == Piece::B_KING);
    assert forall|s: int, t: int|
        0 <= s < 90 && 0 <= t < 90 && #[trigger] q.board[s] == Piece::W_KING && #[trigger] q.board[t]
            == Piece::W_KING implies s == t by {
        let s0 = if s == to {
            from
        } else {
            s
        };
        let t0 = if t == to {
            from
        } else {
            t
        };
        assert(p.board[s0] == Piece::W_KING);
        assert(p.board[t0] == Piece::W_KING);
    }
    assert forall|s: int, t: int|
        0 <= s < 90 && 0 <= t < 90 && #[trigger] q.board[s] == Piece::B_KING && #[trigger] q.board[t]
            == Piece::B_KING implies s == t by {
        let s0 = if s == to {
            from
        } else {
            s
        };
        let t0 = if t == to {
            from
        } else {
            t
        };
        assert(p.board[s0] == Piece::B_KING);
        assert(p.board[t0] == Piece::B_KING);
    }
}

/// Putting a piece other than a king on an empty square keeps one king of
/// each color.
pub proof fn lemma_kings_after_put(p: &Position, q: &Position, s0: int, pc: Piece)
    requires
        p.kings_present(),
        0 <= s0 < 90,
        p.board[s0] == Piece::NONE,
        pc.type_of() != PieceType::King,
        q.board@ == p.board@.update(s0, pc),
    ensures
        q.kings_present(),
{
    assert(forall|s: int| 0 <= s < 90 ==> #[trigger] q.board[s] == q.board@[s]);
    assert(forall|s: int| 0 <= s < 90 ==> #[trigger] p.board[s] == p.board@[s]);
    let ws = choose|s: int| 0 <= s < 90 && #[trigger] p.board[s] == Piece::W_KING;
    let bs = choose|s: int| 0 <= s < 90 && #[trigger] p.board[s] == Piece::B_KING;
    assert(q.board[ws] == Piece::W_KING);
    assert(q.board[bs] == Piece::B_KING);
    assert forall|s: int, t: int|
        0 <= s < 90 && 0 <= t < 90 && #[trigger] q.board[s] == Piece::W_KING && #[trigger] q.board[t]
            == Piece::W_KING implies s == t by {
        assert(p.board[s] == Piece::W_KING);
        assert(p.board[t] == Piece::W_KING);
    }
    assert forall|s: int, t: int|
        0 <= s < 90 && 0 <= t < 90 && #[trigger] q.board[s] == Piece::B_KING && #[trigger] q.board[t]
            == Piece::B_KING implies s == t by {
        assert(p.board[s] == Piece::B_KING);
        assert(p.board[t] == Piece::B_KING);
    }
}

impl Position {
    /// Makes the move `m`; `gives_check` tells whether it checks the
    /// opponent. The previous state is saved for `undo_move`.
    #[verifier::rlimit(100)]
    pub fn do_move(&mut self, m: Move, gives_check: bool)
        requires
            old(self).valid(),
            old(self).can_make(m),
            old(self).room_for(1),
        ensures
            old(self).do_move_post(final(self), m, gives_check),
    {
        let ghost p0: Position = *self;
        let key0 = self.state.key;
        self.bloom_filter.insert(key0);
        let mut new_state = StateInfo::new();
        new_state.copy_from_previous(&self.state);
        new_state.last_move = m;
        let mut k = key0 ^ self.zob.side;
        self.game_ply = self.game_ply + 1;
        let us = self.side_to_move;
        let them = us.flip();
        let ui = us.index();
        let ti = them.index();
        let mut counts = true;
        if gives_check {
            new_state.check10[ui] = new_state.check10[ui] + 1;
            counts = new_state.check10[ui] <= 10;
        }
        if counts {
            if new_state.check10[ti] > 10 && self.state.checkers_bb.is_not_empty() {
                new_state.check10[ti] = new_state.check10[ti] + 1;
            } else {
                new_state.rule60 = new_state.rule60 + 1;
            }
        }
        new_state.plies_from_null = new_state.plies_from_null + 1;
        let from = m.from_sq();
        let to = m.to_sq();
        let pc = self.piece_on(from);
        let captured = self.piece_on(to);
        if captured != Piece::NONE {
            let ptc = captured.piece_type();
            let kc = self.zob.psq_of(captured, to);
            if ptc == PieceType::Pawn {
                new_state.pawn_key = new_state.pawn_key ^ kc;
            } else {
                new_state.non_pawn_key[ti] = new_state.non_pawn_key[ti] ^ kc;
                if ptc == PieceType::Rook || ptc == PieceType::Cannon || ptc == PieceType::Knight {
                    new_state.major_material[ti] = new_state.major_material[ti] - piece_value(
                        captured,
                    );
                    if ptc != PieceType::Rook {
                        new_state.minor_piece_key = new_state.minor_piece_key ^ kc;
                    }
                }
            }
            k = k ^ kc;
            new_state.check10 = [0, 0];
            new_state.rule60 = 0;
            self.remove_piece(to);
        }
        let kf = self.zob.psq_of(pc, from);
        let kt = self.zob.psq_of(pc, to);
        let path = kf ^ kt;
        k = k ^ path;
        let pt = pc.piece_type();
        if pt == PieceType::Pawn {
            new_state.pawn_key = new_state.pawn_key ^ path;
        } else {
            new_state.non_pawn_key[ui] = new_state.non_pawn_key[ui] ^ path;
            if pt == PieceType::Knight || pt == PieceType::Cannon {
                new_state.minor_piece_key = new_state.minor_piece_key ^ path;
            }
        }
        self.move_piece(from, to);
        new_state.captured_piece = captured;
        proof {
            assert(self.board@ =~= board_after_move(p0.board@, from.id(), to.id()));
            lemma_kings_after_move(&p0, self, from.id(), to.id());
        }
        if gives_check {
            let ksq = self.king_square(them);
            new_state.checkers_bb = self.checkers_to(us, ksq, self.all_pieces());
        } else {
            new_state.checkers_bb = Bitboard::empty();
        }
        new_state.key = k;
        let old_state = self.state;
        self.state = new_state;
        self.state_stack.push(old_state);
        self.side_to_move = them;
        self.set_check_info();
    }

    /// Takes back the move `m`, made last by `do_move`.
    pub fn undo_move(&mut self, m: Move)
        requires
            old(self).valid(),
            old(self).can_unmake(m),
        ensures
            old(self).undo_move_post(final(self), m),
    {
        let ghost p0: Position = *self;
        self.side_to_move = self.side_to_move.flip();
        let from = m.from_sq();
        let to = m.to_sq();
        let captured = self.state.captured_piece;
        self.move_piece(to, from);
        let ghost p1: Position = *self;
        proof {
            assert(self.board@ =~= board_after_move(p0.board@, to.id(), from.id()));
            lemma_kings_after_move(&p0, self, to.id(), from.id());
        }
        if captured != Piece::NONE {
            self.put_piece(captured, to);
            proof {
                lemma_kings_after_put(&p1, self, to.id(), captured);
            }
        }
        proof {
            assert(self.board@ =~= board_after_unmove(p0.board@, from.id(), to.id(), captured));
        }
        match self.state_stack.pop() {
            Some(prev) => {
                self.state = prev;
            },
            None => {},
        }
        self.game_ply = self.game_ply - 1;
        let key = self.state.key;
        self.bloom_filter.remove(key);
    }

    /// Passes the move to the opponent without moving a piece.
    pub fn do_null_move(&mut self)
        requires
            old(self).valid(),
        ensures
            final(self).valid(),
            final(self).board == old(self).board,
            final(self).by_type_bb == old(self).by_type_bb,
            final(self).by_color_bb == old(self).by_color_bb,
            final(self).piece_count == old(self).piece_count,
            final(self).mid_encoding_val == old(self).mid_encoding_val,
            final(self).id_board == old(self).id_board,
            final(self).same_keys(old(self)),
            final(self).side_to_move == old(self).side_to_move.opp(),
            final(self).game_ply == old(self).game_ply,
            final(self).state_stack@ == old(self).state_stack@.push(old(self).state),
            final(self).bloom_filter.table@ == bloom_inserted(
                old(self).bloom_filter.table@,
                old(self).state.key,
            ),
            final(self).state == (StateInfo {
                key: old(self).state.key ^ side_key(),
                plies_from_null: 0,
                last_move: Move(0),
                blockers_for_king: final(self).state.blockers_for_king,
                pinners: final(self).state.pinners,
                need_full_check: final(self).state.need_full_check,
                check_squares: final(self).state.check_squares,
                ..old(self).state
            }),
            final(self).check_info_ok(),
    {
        let key0 = self.state.key;
        self.bloom_filter.insert(key0);
        let mut new_state = self.state;
        new_state.key = key0 ^ self.zob.side;
        new_state.plies_from_null = 0;
        new_state.last_move = Move::none();
        let old_state = self.state;
        self.state = new_state;
        self.state_stack.push(old_state);
        self.side_to_move = self.side_to_move.flip();
        self.set_check_info();
    }

    /// Takes back a null move.
    pub fn undo_null_move(&mut self)
        requires
            old(self).valid(),
            old(self).state_stack@.len() > 0,
        ensures
            final(self).valid(),
            final(self).board == old(self).board,
            final(self).by_type_bb == old(self).by_type_bb,
            final(self).by_color_bb == old(self).by_color_bb,
            final(self).piece_count == old(self).piece_count,
            final(self).mid_encoding_val == old(self).mid_encoding_val,
            final(self).id_board == old(self).id_board,
            final(self).same_keys(old(self)),
            final(self).side_to_move == old(self).side_to_move.opp(),
            final(self).game_ply == old(self).game_ply,
            final(self).state == old(self).state_stack@.last(),
            final(self).state_stack@ == old(self).state_stack@.drop_last(),
            final(self).bloom_filter.table@ == bloom_removed(
                old(self).bloom_filter.table@,
                final(self).state.key,
            ),
    {
        match self.state_stack.pop() {
            Some(prev) => {
                self.state = prev;
            },
            None => {},
        }
        self.side_to_move = self.side_to_move.flip();
        let key = self.state.key;
        self.bloom_filter.remove(key);
    }

    /// Makes the capture `m` for chase detection: only the pieces, their
    /// ids and the side to move change. Returns the captured piece and its id.
    pub fn do_move_for_chase(&mut self, m: Move) -> (r: (Piece, i32))
        requires
            old(self).valid(),
            old(self).can_make(m),
            old(self).board[m.to_id()] != Piece::NONE,
        ensures
            r == (old(self).board[m.to_id()], old(self).id_board[m.to_id()]),
            old(self).pieces_moved(final(self), m.from_id(), m.to_id()),
            final(self).valid(),
            final(self).id_board@ == old(self).id_board@.update(
                m.to_id(),
                old(self).id_board[m.from_id()],
            ).update(m.from_id(), 0),
            final(self).side_to_move == old(self).side_to_move.opp(),
            final(self).game_ply == old(self).game_ply,
            final(self).state == old(self).state,
            final(self).state_stack@ == old(self).state_stack@,
            final(self).bloom_filter.table@ == old(self).bloom_filter.table@,
            final(self).same_keys(old(self)),
    {
        let ghost p0: Position = *self;
        let from = m.from_sq();
        let to = m.to_sq();
        let captured = self.piece_on(to);
        let id = self.id_board[to.index()];
        self.id_board[to.index()] = self.id_board[from.index()];
        self.id_board[from.index()] = 0;
        self.remove_piece(to);
        self.move_piece(from, to);
        proof {
            assert(self.board@ =~= board_after_move(p0.board@, from.id(), to.id()));
            lemma_kings_after_move(&p0, self, from.id(), to.id());
        }
        self.side_to_move = self.side_to_move.flip();
        (captured, id)
    }

    /// Takes back a capture made by `do_move_for_chase`, given what it
    /// returned.
    pub fn undo_move_for_chase(&mut self, m: Move, captured: Piece, id: i32)
        requires
            old(self).valid(),
            m.well_formed(),
            m.from_id() != m.to_id(),
            old(self).board[m.to_id()] != Piece::NONE,
            old(self).board[m.from_id()] == Piece::NONE,
            captured == Piece::NONE || captured.type_of() != PieceType::King,
        ensures
            old(self).pieces_unmoved(final(self), m.from_id(), m.to_id(), captured),
            final(self).valid(),
            final(self).id_board@ == old(self).id_board@.update(
                m.from_id(),
                old(self).id_board[m.to_id()],
            ).update(m.to_id(), id),
            final(self).side_to_move == old(self).side_to_move.opp(),
            final(self).game_ply == old(self).game_ply,
            final(self).state == old(self).state,
            final(self).state_stack@ == old(self).state_stack@,
            final(self).bloom_filter.table@ == old(self).bloom_filter.table@,
            final(self).same_keys(old(self)),
    {
        let ghost p0: Position = *self;
        self.side_to_move = self.side_to_move.flip();
        let from = m.from_sq();
        let to = m.to_sq();
        self.id_board[from.index()] = self.id_board[to.index()];
        self.id_board[to.index()] = id;
        self.move_piece(to, from);
        let ghost p1: Position = *self;
        proof {
            assert(self.board@ =~= board_after_move(p0.board@, to.id(), from.id()));
            lemma_kings_after_move(&p0, self, to.id(), from.id());
        }
        if captured != Piece::NONE {
            self.put_piece(captured, to);
            proof {
                lemma_kings_after_put(&p1, self, to.id(), captured);
            }
        }
        proof {
            assert(self.board@ =~= board_after_unmove(p0.board@, from.id(), to.id(), captured));
        }
    }
}

/// Subtracting and adding back, modulo 2^64, in either order.
proof fn lemma_wrap_inverse(v: int, a: int, b: int)
    requires
        0 <= v < word(),
        0 <= a < word(),
        0 <= b < word(),
    ensures
        (((v - a + b + word()) % word()) - b + a + word()) % word() == v,
        (((v - a + word()) % word()) + a) % word() == v,
{
    let w = word();
    let x = v - a + b + w;
    assert(0 < x < 3 * w);
    if x < w {
        assert(x % w == x) by (nonlinear_arith)
            requires
                0 <= x < w,
        ;
    } else if x < 2 * w {
        assert(x % w == x - w) by (nonlinear_arith)
            requires
                w <= x < 2 * w,
        ;
    } else {
        assert(x % w == x - 2 * w) by (nonlinear_arith)
            requires
                2 * w <= x < 3 * w,
        ;
    }
    let y = (x % w) - b + a + w;
    assert(0 < y < 3 * w);
    if y < w {
        assert(y % w == y) by (nonlinear_arith)
            requires
                0 <= y < w,
        ;
    } else if y < 2 * w {
        assert(y % w == y - w) by (nonlinear_arith)
            requires
                w <= y < 2 * w,
        ;
    } else {
        assert(y % w == y - 2 * w) by (nonlinear_arith)
            requires
                2 * w <= y < 3 * w,
        ;
    }
    let z = v - a + w;
    if z < w {
        assert(z % w == z) by (nonlinear_arith)
            requires
                0 <= z < w,
        ;
    } else {
        assert(z % w == z - w) by (nonlinear_arith)
            requires
                w <= z < 2 * w,
        ;
    }
    let u = (z % w) + a;
    if u < w {
        assert(u % w == u) by (nonlinear_arith)
            requires
                0 <= u < w,
        ;
    } else {
        assert(u % w == u - w) by (nonlinear_arith)
            requires
                w <= u < 2 * w,
        ;
    }
}

/// Taking back a move right after making it restores the position: the
/// board and bitboards, the piece counts and mid-mirror sums, the side to
/// move, the ply, the state and the saved states, the Bloom filter and the
/// piece ids.
pub proof fn lemma_undo_move_restores(
    p: Position,
    q: Position,
    r: Position,
    m: Move,
    gives_check: bool,
)
    requires
        p.valid(),
        p.can_make(m),
        p.do_move_post(&q, m, gives_check),
        q.undo_move_post(&r, m),
    ensures
        r.board == p.board,
        r.by_type_bb == p.by_type_bb,
        r.by_color_bb == p.by_color_bb,
        r.piece_count == p.piece_count,
        r.mid_encoding_val == p.mid_encoding_val,
        r.side_to_move == p.side_to_move,
        r.game_ply == p.game_ply,
        r.state == p.state,
        r.state_stack@ == p.state_stack@,
        r.bloom_filter.table@ == p.bloom_filter.table@,
        r.id_board == p.id_board,
{
    lemma_pieces_restored(p, q, r, m.from_id(), m.to_id());
    lemma_bloom_insert_remove(p.bloom_filter.table@, p.state.key);
    assert(r.state_stack@ =~= p.state_stack@);
}

/// Moving a piece (capturing what stood on its destination) and then moving
/// it back and restoring the captured piece gives back the board, bitboards,
/// piece counts and mid-mirror sums.
pub proof fn lemma_pieces_restored(p: Position, q: Position, r: Position, from: int, to: int)
    requires
        p.wf(),
        0 <= from < 90,
        0 <= to < 90,
        from != to,
        p.board[from] != Piece::NONE,
        p.pieces_moved(&q, from, to),
        q.pieces_unmoved(&r, from, to, p.board[to]),
    ensures
        r.board == p.board,
        r.by_type_bb == p.by_type_bb,
        r.by_color_bb == p.by_color_bb,
        r.piece_count == p.piece_count,
        r.mid_encoding_val == p.mid_encoding_val,
{
    broadcast use vstd::array::group_array_axioms;

    let pc = p.board[from];
    let cap = p.board[to];
    assert(r.board@ =~= p.board@);
    assert(r.board =~= p.board);
    crate::position::position::lemma_bitboards_from_board(&r, &p);
    assert(r.piece_count@ =~= p.piece_count@);
    assert(r.piece_count =~= p.piece_count);
    let v = p.mid_encoding_val@;
    let a = mid_mirror_spec(pc, from) as int;
    let b = mid_mirror_spec(pc, to) as int;
    let cu = pc.color_of().id();
    assert(q.board@[to] == pc);
    if cap != Piece::NONE {
        let x = mid_mirror_spec(cap, to) as int;
        let ct = cap.color_of().id();
        let v1 = mid_removed(v, cap, to);
        lemma_wrap_inverse(v[ct] as int, x, 0);
        lemma_wrap_inverse(v1[cu] as int, a, b);
        assert(r.mid_encoding_val@ =~= p.mid_encoding_val@);
    } else {
        lemma_wrap_inverse(v[cu] as int, a, b);
        assert(r.mid_encoding_val@ =~= p.mid_encoding_val@);
    }
    assert(r.mid_encoding_val =~= p.mid_encoding_val);
}

/// Taking back a null move right after making it restores the side to move,
/// the state, the saved states and the Bloom filter.
pub proof fn lemma_undo_null_move_restores(p: Position, q: Position, r: Position)
    requires
        q.side_to_move == p.side_to_move.opp(),
        q.state_stack@ == p.state_stack@.push(p.state),
        q.bloom_filter.table@ == bloom_inserted(p.bloom_filter.table@, p.state.key),
        p.bloom_filter.wf(),
        r.side_to_move == q.side_to_move.opp(),
        r.state == q.state_stack@.last(),
        r.state_stack@ == q.state_stack@.drop_last(),
        r.bloom_filter.table@ == bloom_removed(q.bloom_filter.table@, r.state.key),
    ensures
        r.side_to_move == p.side_to_move,
        r.state == p.state,
        r.state_stack@ == p.state_stack@,
        r.bloom_filter.table@ == p.bloom_filter.table@,
{
    lemma_bloom_insert_remove(p.bloom_filter.table@, p.state.key);
    assert(r.state_stack@ =~= p.state_stack@);
}

/// Taking back a chase capture with what `do_move_for_chase` returned
/// restores the board, bitboards, piece counts, mid-mirror sums, piece ids
/// and side to move.
pub proof fn lemma_undo_chase_restores(
    p: Position,
    q: Position,
    r: Position,
    m: Move,
    captured: Piece,
    id: i32,
)
    requires
        p.valid(),
        p.can_make(m),
        captured == p.board[m.to_id()],
        id == p.id_board[m.to_id()],
        p.pieces_moved(&q, m.from_id(), m.to_id()),
        q.id_board@ == p.id_board@.update(m.to_id(), p.id_board[m.from_id()]).update(
            m.from_id(),
            0,
        ),
        q.side_to_move == p.side_to_move.opp(),
        q.pieces_unmoved(&r, m.from_id(), m.to_id(), captured),
        r.id_board@ == q.id_board@.update(m.from_id(), q.id_board[m.to_id()]).update(
            m.to_id(),
            id,
        ),
        r.side_to_move == q.side_to_move.opp(),
    ensures
        r.board == p.board,
        r.by_type_bb == p.by_type_bb,
        r.by_color_bb == p.by_color_bb,
        r.piece_count == p.piece_count,
        r.mid_encoding_val == p.mid_encoding_val,
        r.id_board == p.id_board,
        r.side_to_move == p.side_to_move,
{
    broadcast use vstd::array::group_array_axioms;

    lemma_pieces_restored(p, q, r, m.from_id(), m.to_id());
    assert(r.id_board@ =~= p.id_board@);
    assert(r.id_board =~= p.id_board);
}

} // verus!
