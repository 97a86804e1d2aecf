//! The position: board, bitboards, counters and the per-ply state.

use vstd::prelude::*;

use super::state::{BloomFilter, StateInfo, bloom_slot};
use super::zobrist::{ZobristKeys, zobrist};
use crate::bitboard::attacks::{
    advisor_step, bishop_attack_has, cannon_attack_has, king_step, knight_attack_has,
    pawn_attack_has, rook_attack_has,
};
use crate::bitboard::tables::in_palace;
use crate::bitboard::bitboard::{bit, lemma_bits_ext, lemma_board_bits};
use crate::bitboard::{
    Bitboard, attacks_bb_bishop, attacks_bb_cannon, attacks_bb_knight, attacks_bb_rook, palace,
    pawn_attacks_bb,
};
use crate::nnue::features::half_ka_v2_hm::{mid_mirror_encoding, mid_mirror_spec};
use crate::types::{
    Color, Key, Move, Piece, PieceType, Square, Value, make_key, make_key_spec, make_piece,
};

verus! {

/// A Xiangqi position.
pub struct Position {
    pub board: [Piece; 90],
    /// Slot 0: all pieces; slots 1..=7: pieces of each type.
    pub by_type_bb: [Bitboard; 8],
    pub by_color_bb: [Bitboard; 2],
    /// Pieces on the board, by piece index.
    pub piece_count: [u8; 16],
    pub side_to_move: Color,
    pub game_ply: u16,
    pub state: StateInfo,
    /// States of the earlier plies, oldest first.
    pub state_stack: Vec<StateInfo>,
    pub bloom_filter: BloomFilter,
    /// Per-side piece numbers used by chase detection.
    pub id_board: [i32; 90],
    /// Mid-mirror encodings of each side's pieces.
    pub mid_encoding_val: [u64; 2],
    pub zob: ZobristKeys,
}

/// `p` is the piece of color `c` and type `pt`.
pub open spec fn is_piece(p: Piece, c: Color, pt: PieceType) -> bool {
    p != Piece::NONE && p.color_of() == c && p.type_of() == pt
}

impl Position {
    /// The bitboards agree with the board.
    pub open spec fn board_ok(&self) -> bool {
        &&& forall|s: int|
            0 <= s < 90 ==> (#[trigger] self.by_type_bb[0].has(s)) == (self.board[s]
                != Piece::NONE)
        &&& forall|s: int, pt: PieceType|
            0 <= s < 90 ==> (#[trigger] self.by_type_bb[pt.id()].has(s)) == (self.board[s]
                != Piece::NONE && self.board[s].type_of() == pt)
        &&& forall|s: int, c: Color|
            0 <= s < 90 ==> (#[trigger] self.by_color_bb[c.id()].has(s)) == (self.board[s]
                != Piece::NONE && self.board[s].color_of() == c)
        &&& forall|i: int| 0 <= i < 8 ==> #[trigger] self.by_type_bb[i].wf()
        &&& self.by_color_bb[0].wf()
        &&& self.by_color_bb[1].wf()
    }

    pub open spec fn wf(&self) -> bool {
        &&& self.board_ok()
        &&& self.bloom_filter.wf()
        &&& self.zob.wf()
    }

    /// Each side has exactly one king on the board.
    pub open spec fn kings_present(&self) -> bool {
        &&& exists|s: int| 0 <= s < 90 && #[trigger] self.board[s] == Piece::W_KING
        &&& exists|s: int| 0 <= s < 90 && #[trigger] self.board[s] == Piece::B_KING
        &&& forall|s: int, t: int|
            0 <= s < 90 && 0 <= t < 90 && #[trigger] self.board[s] == Piece::W_KING
                && #[trigger] self.board[t] == Piece::W_KING ==> s == t
        &&& forall|s: int, t: int|
            0 <= s < 90 && 0 <= t < 90 && #[trigger] self.board[s] == Piece::B_KING
                && #[trigger] self.board[t] == Piece::B_KING ==> s == t
    }

    /// The square of the king of `c`.
    pub open spec fn king_sq(&self, c: Color) -> int {
        choose|s: int| 0 <= s < 90 && self.board[s] == make_piece(c, PieceType::King)
    }

    /// The piece on square `s` (empty outside the board).
    pub open spec fn at(&self, s: int) -> Piece {
        if 0 <= s < 90 {
            self.board[s]
        } else {
            Piece::NONE
        }
    }

    /// The occupancy of the board.
    pub open spec fn occ(&self) -> Bitboard {
        self.by_type_bb[0]
    }

    /// An empty board, white to move.
    pub fn new() -> (p: Self)
        ensures
            p.wf(),
            forall|s: int| 0 <= s < 90 ==> #[trigger] p.board[s] == Piece::NONE,
            forall|i: int| 0 <= i < 16 ==> #[trigger] p.piece_count[i] == 0,
            p.side_to_move == Color::White,
            p.game_ply == 0,
            p.state_stack@.len() == 0,
            p.mid_encoding_val@ == seq![0u64, 0u64],
            forall|s: int| 0 <= s < 90 ==> #[trigger] p.id_board[s] == 0,
            forall|i: int| 0 <= i < 16384 ==> #[trigger] p.bloom_filter.table@[i] == 0,
            p.state.rule60 == 0,
            p.state.check10@ == seq![0i16, 0i16],
            p.state.plies_from_null == 0,
            p.state.captured_piece == Piece::NONE,
    {
        let e = Bitboard::empty();
        Position {
            board: [Piece::NONE; 90],
            by_type_bb: [e, e, e, e, e, e, e, e],
            by_color_bb: [e, e],
            piece_count: [0; 16],
            side_to_move: Color::White,
            game_ply: 0,
            state: StateInfo::new(),
            state_stack: Vec::new(),
            bloom_filter: BloomFilter::new(),
            id_board: [0; 90],
            mid_encoding_val: [0, 0],
            zob: zobrist(),
        }
    }

    pub fn piece_on(&self, sq: Square) -> (p: Piece)
        requires
            sq.valid(),
        ensures
            p == self.board[sq.id()],
    {
        self.board[sq.index()]
    }

    pub fn is_empty(&self, sq: Square) -> (r: bool)
        requires
            sq.valid(),
        ensures
            r == (self.board[sq.id()] == Piece::NONE),
    {
        self.board[sq.index()] == Piece::NONE
    }

    /// The piece on the origin square of `m`.
    pub fn moved_piece(&self, m: Move) -> (p: Piece)
        requires
            m.well_formed(),
        ensures
            p == self.board[m.from_id()],
    {
        self.board[m.from_sq().index()]
    }

    pub fn all_pieces(&self) -> (b: Bitboard)
        requires
            self.wf(),
        ensures
            b == self.occ(),
            b.wf(),
            forall|s: int| 0 <= s < 90 ==> (#[trigger] b.has(s) == (self.board[s] != Piece::NONE)),
    {
        self.by_type_bb[0]
    }

    pub fn pieces_by_type(&self, pt: PieceType) -> (b: Bitboard)
        requires
            self.wf(),
        ensures
            b == self.by_type_bb[pt.id()],
            b.wf(),
            forall|s: int|
                0 <= s < 90 ==> (#[trigger] b.has(s) == (self.board[s] != Piece::NONE
                    && self.board[s].type_of() == pt)),
    {
        self.by_type_bb[pt.index()]
    }

    /// Pieces of any of the types in `pts`.
    pub fn pieces_by_types(&self, pts: &[PieceType]) -> (b: Bitboard)
        requires
            self.wf(),
        ensures
            b.wf(),
            forall|s: int|
                0 <= s < 90 ==> (#[trigger] b.has(s) == (self.board[s] != Piece::NONE
                    && pts@.contains(self.board[s].type_of()))),
    {
        let mut bb = Bitboard::empty();
        let mut i: usize = 0;
        while i < pts.len()
            invariant
                self.wf(),
                i <= pts@.len(),
                bb.wf(),
                forall|s: int|
                    0 <= s < 90 ==> (#[trigger] bb.has(s) == (self.board[s] != Piece::NONE && exists|
                        j: int,
                    | 0 <= j < i && pts@[j] == self.board[s].type_of())),
            decreases pts@.len() - i,
        {
            let ghost old_bb = bb;
            let pt = pts[i];
            let tb = self.by_type_bb[pt.index()];
            bb = bb.or(tb);
            proof {
                assert forall|s: int| 0 <= s < 90 implies (#[trigger] bb.has(s) == (self.board[s]
                    != Piece::NONE && exists|j: int|
                    0 <= j < i + 1 && pts@[j] == self.board[s].type_of())) by {
                    assert(tb.has(s) == (self.board[s] != Piece::NONE && self.board[s].type_of()
                        == pt));
                    if self.board[s] != Piece::NONE && pts@[i as int] == self.board[s].type_of() {
                        assert(exists|j: int| 0 <= j < i + 1 && pts@[j] == self.board[s].type_of());
                    }
                    if exists|j: int| 0 <= j < i + 1 && pts@[j] == self.board[s].type_of() {
                        let j = choose|j: int| 0 <= j < i + 1 && pts@[j] == self.board[s].type_of();
                        if j < i {
                            assert(exists|j: int| 0 <= j < i && pts@[j] == self.board[s].type_of());
                        }
                    }
                }
            }
            i = i + 1;
        }
        bb
    }

    pub fn pieces_by_color(&self, c: Color) -> (b: Bitboard)
        requires
            self.wf(),
        ensures
            b == self.by_color_bb[c.id()],
            b.wf(),
            forall|s: int|
                0 <= s < 90 ==> (#[trigger] b.has(s) == (self.board[s] != Piece::NONE
                    && self.board[s].color_of() == c)),
    {
        self.by_color_bb[c.index()]
    }

    /// Pieces of color `c` and type `pt`.
    pub fn pieces(&self, c: Color, pt: PieceType) -> (b: Bitboard)
        requires
            self.wf(),
        ensures
            b.wf(),
            forall|s: int| 0 <= s < 90 ==> (#[trigger] b.has(s) == is_piece(self.board[s], c, pt)),
    {
        self.by_color_bb[c.index()].and(self.by_type_bb[pt.index()])
    }

    /// Pieces of color `c` of any of the types in `pts`.
    pub fn pieces_multi(&self, c: Color, pts: &[PieceType]) -> (b: Bitboard)
        requires
            self.wf(),
        ensures
            b.wf(),
            forall|s: int|
                0 <= s < 90 ==> (#[trigger] b.has(s) == (self.board[s] != Piece::NONE
                    && self.board[s].color_of() == c && pts@.contains(self.board[s].type_of()))),
    {
        self.by_color_bb[c.index()].and(self.pieces_by_types(pts))
    }

    /// Where the king of `c` stands (the lowest such square).
    pub fn king_square(&self, c: Color) -> (s: Square)
        requires
            self.wf(),
            self.kings_present(),
        ensures
            s.valid(),
            is_piece(self.board[s.id()], c, PieceType::King),
            s.id() == self.king_sq(c),
    {
        let kb = self.pieces(c, PieceType::King);
        proof {
            let k = if c == Color::White {
                Piece::W_KING
            } else {
                Piece::B_KING
            };
            let w = choose|s: int| 0 <= s < 90 && #[trigger] self.board[s] == k;
            assert(kb.has(w));
            kb.lemma_empty_iff();
        }
        let s = kb.lsb();
        proof {
            let k = make_piece(c, PieceType::King);
            let w = choose|t: int| 0 <= t < 90 && #[trigger] self.board[t] == k;
            assert(self.board[s.id()] == k);
            assert(0 <= self.king_sq(c) < 90 && self.board[self.king_sq(c)] == k);
        }
        s
    }

    pub fn count(&self, pc: Piece) -> (n: u8)
        ensures
            n == self.piece_count[pc.id()],
    {
        self.piece_count[pc.index()]
    }

    pub fn piece_count_array(&self) -> (a: &[u8; 16])
        ensures
            *a == self.piece_count,
    {
        &self.piece_count
    }

    pub fn count_type(&self, c: Color, pt: PieceType) -> (n: u8)
        ensures
            n == self.piece_count[make_piece(c, pt).id()],
    {
        self.piece_count[Piece::make(c, pt).index()]
    }

    pub fn side_to_move(&self) -> (c: Color)
        ensures
            c == self.side_to_move,
    {
        self.side_to_move
    }

    pub fn game_ply(&self) -> (n: u16)
        ensures
            n == self.game_ply,
    {
        self.game_ply
    }

    pub fn state(&self) -> (s: &StateInfo)
        ensures
            *s == self.state,
    {
        &self.state
    }

    pub fn checkers(&self) -> (b: Bitboard)
        ensures
            b == self.state.checkers_bb,
    {
        self.state.checkers_bb
    }

    pub fn blockers_for_king(&self, c: Color) -> (b: Bitboard)
        ensures
            b == self.state.blockers_for_king[c.id()],
    {
        self.state.blockers_for_king[c.index()]
    }

    pub fn pinners(&self, c: Color) -> (b: Bitboard)
        ensures
            b == self.state.pinners[c.id()],
    {
        self.state.pinners[c.index()]
    }

    pub fn check_squares(&self, pt: PieceType) -> (b: Bitboard)
        ensures
            b == self.state.check_squares[pt.id()],
    {
        self.state.check_squares[pt.index()]
    }

    /// The hash key used for lookups: the position key, perturbed once the
    /// rule-60 counter reaches 14 (changing every 8 plies) and when the Bloom
    /// filter has seen the position before.
    pub open spec fn key_spec(&self) -> u64 {
        let k = self.state.key;
        let r = self.state.rule60;
        let a = if r < 14 {
            k
        } else {
            k ^ make_key_spec(((r - 14) / 8) as u64)
        };
        let b = if self.bloom_filter.table@[bloom_slot(k)] > 0 {
            make_key_spec(14)
        } else {
            0
        };
        a ^ b
    }

    pub fn key(&self) -> (k: u64)
        requires
            self.wf(),
        ensures
            k == self.key_spec(),
    {
        let k = self.state.key;
        let r = self.state.rule60;
        let a = if r < 14 {
            k
        } else {
            k ^ make_key(((r - 14) / 8) as u64)
        };
        let b = if self.bloom_filter.count(k) > 0 {
            make_key(14)
        } else {
            0
        };
        a ^ b
    }

    pub fn pawn_key(&self) -> (k: u64)
        ensures
            k == self.state.pawn_key,
    {
        self.state.pawn_key
    }

    pub fn minor_piece_key(&self) -> (k: u64)
        ensures
            k == self.state.minor_piece_key,
    {
        self.state.minor_piece_key
    }

    pub fn non_pawn_key(&self, c: Color) -> (k: u64)
        ensures
            k == self.state.non_pawn_key[c.id()],
    {
        self.state.non_pawn_key[c.index()]
    }

    pub fn major_material(&self, c: Color) -> (v: Value)
        ensures
            v == self.state.major_material[c.id()],
    {
        self.state.major_material[c.index()]
    }

    /// Both sides' major material together (wrapping at the `i32` range).
    pub fn total_major_material(&self) -> (v: Value)
        ensures
            i32::MIN <= self.state.major_material[0] + self.state.major_material[1] <= i32::MAX
                ==> v == self.state.major_material[0] + self.state.major_material[1],
    {
        self.state.major_material[0].wrapping_add(self.state.major_material[1])
    }

    pub fn rule60_count(&self) -> (n: i32)
        ensures
            n == self.state.rule60,
    {
        self.state.rule60
    }

    /// The destination of `m` is occupied.
    pub fn is_capture(&self, m: Move) -> (r: bool)
        requires
            m.well_formed(),
        ensures
            r == (self.board[m.to_id()] != Piece::NONE),
    {
        self.board[m.to_sq().index()] != Piece::NONE
    }

    pub fn captured_piece(&self) -> (p: Piece)
        ensures
            p == self.state.captured_piece,
    {
        self.state.captured_piece
    }

    pub fn mid_encoding(&self, c: Color) -> (e: u64)
        ensures
            e == self.mid_encoding_val[c.id()],
    {
        self.mid_encoding_val[c.index()]
    }

    /// Everything but the board, the bitboards, the piece counts and the
    /// mid-mirror encodings is the same in both positions.
    pub open spec fn same_context(&self, other: &Position) -> bool {
        &&& self.side_to_move == other.side_to_move
        &&& self.game_ply == other.game_ply
        &&& self.state == other.state
        &&& self.state_stack@ == other.state_stack@
        &&& self.bloom_filter.table@ == other.bloom_filter.table@
        &&& self.id_board == other.id_board
        &&& self.zob.psq@ == other.zob.psq@
        &&& self.zob.side == other.zob.side
        &&& self.zob.no_pawns == other.zob.no_pawns
    }

    /// Puts `pc` on the empty square `sq`.
    pub fn put_piece(&mut self, pc: Piece, sq: Square)
        requires
            old(self).wf(),
            sq.valid(),
            pc != Piece::NONE,
            old(self).board[sq.id()] == Piece::NONE,
        ensures
            final(self).wf(),
            final(self).board@ == old(self).board@.update(sq.id(), pc),
            final(self).piece_count@ == old(self).piece_count@.update(
                pc.id(),
                ((old(self).piece_count[pc.id()] + 1) % 256) as u8,
            ),
            final(self).mid_encoding_val@ == old(self).mid_encoding_val@.update(
                pc.color_of().id(),
                ((old(self).mid_encoding_val[pc.color_of().id()] as int + mid_mirror_spec(
                    pc,
                    sq.id(),
                ) as int) % 0x1_0000_0000_0000_0000int) as u64,
            ),
            final(self).same_context(old(self)),
    {
        let sb = Bitboard::from_square(sq);
        let t = pc.piece_type().index();
        let c = pc.color().index();
        self.board[sq.index()] = pc;
        self.by_type_bb[0] = self.by_type_bb[0].or(sb);
        self.by_type_bb[t] = self.by_type_bb[t].or(sb);
        self.by_color_bb[c] = self.by_color_bb[c].or(sb);
        self.piece_count[pc.index()] = self.piece_count[pc.index()].wrapping_add(1);
        self.mid_encoding_val[c] = self.mid_encoding_val[c].wrapping_add(mid_mirror_encoding(pc, sq));
        proof {
            assert forall|s: int, pt: PieceType|
                0 <= s < 90 implies (#[trigger] self.by_type_bb[pt.id()].has(s)) == (self.board[s]
                != Piece::NONE && self.board[s].type_of() == pt) by {
                assert(old(self).by_type_bb[pt.id()].has(s) == (old(self).board[s] != Piece::NONE
                    && old(self).board[s].type_of() == pt));
            }
            assert forall|s: int, cc: Color|
                0 <= s < 90 implies (#[trigger] self.by_color_bb[cc.id()].has(s)) == (self.board[s]
                != Piece::NONE && self.board[s].color_of() == cc) by {
                assert(old(self).by_color_bb[cc.id()].has(s) == (old(self).board[s] != Piece::NONE
                    && old(self).board[s].color_of() == cc));
            }
            assert forall|s: int|
                0 <= s < 90 implies (#[trigger] self.by_type_bb[0].has(s)) == (self.board[s]
                != Piece::NONE) by {
                assert(old(self).by_type_bb[0].has(s) == (old(self).board[s] != Piece::NONE));
            }
            assert forall|i: int| 0 <= i < 8 implies #[trigger] self.by_type_bb[i].wf() by {
                assert(old(self).by_type_bb[i].wf());
            }
        }
    }

    /// Takes the piece off the occupied square `sq`.
    pub fn remove_piece(&mut self, sq: Square)
        requires
            old(self).wf(),
            sq.valid(),
            old(self).board[sq.id()] != Piece::NONE,
        ensures
            final(self).wf(),
            final(self).board@ == old(self).board@.update(sq.id(), Piece::NONE),
            final(self).piece_count@ == old(self).piece_count@.update(
                old(self).board[sq.id()].id(),
                ((old(self).piece_count[old(self).board[sq.id()].id()] + 255) % 256) as u8,
            ),
            final(self).mid_encoding_val@ == old(self).mid_encoding_val@.update(
                old(self).board[sq.id()].color_of().id(),
                ((old(self).mid_encoding_val[old(self).board[sq.id()].color_of().id()] as int
                    - mid_mirror_spec(old(self).board[sq.id()], sq.id()) as int
                    + 0x1_0000_0000_0000_0000int) % 0x1_0000_0000_0000_0000int) as u64,
            ),
            final(self).same_context(old(self)),
    {
        let pc = self.board[sq.index()];
        let sb = Bitboard::from_square(sq);
        let t = pc.piece_type().index();
        let c = pc.color().index();
        self.by_type_bb[0] = self.by_type_bb[0].xor(sb);
        self.by_type_bb[t] = self.by_type_bb[t].xor(sb);
        self.by_color_bb[c] = self.by_color_bb[c].xor(sb);
        self.board[sq.index()] = Piece::NONE;
        self.piece_count[pc.index()] = self.piece_count[pc.index()].wrapping_sub(1);
        self.mid_encoding_val[c] = self.mid_encoding_val[c].wrapping_sub(mid_mirror_encoding(pc, sq));
        proof {
            assert forall|s: int, pt: PieceType|
                0 <= s < 90 implies (#[trigger] self.by_type_bb[pt.id()].has(s)) == (self.board[s]
                != Piece::NONE && self.board[s].type_of() == pt) by {
                assert(old(self).by_type_bb[pt.id()].has(s) == (old(self).board[s] != Piece::NONE
                    && old(self).board[s].type_of() == pt));
            }
            assert forall|s: int, cc: Color|
                0 <= s < 90 implies (#[trigger] self.by_color_bb[cc.id()].has(s)) == (self.board[s]
                != Piece::NONE && self.board[s].color_of() == cc) by {
                assert(old(self).by_color_bb[cc.id()].has(s) == (old(self).board[s] != Piece::NONE
                    && old(self).board[s].color_of() == cc));
            }
            assert forall|s: int|
                0 <= s < 90 implies (#[trigger] self.by_type_bb[0].has(s)) == (self.board[s]
                != Piece::NONE) by {
                assert(old(self).by_type_bb[0].has(s) == (old(self).board[s] != Piece::NONE));
            }
            assert forall|i: int| 0 <= i < 8 implies #[trigger] self.by_type_bb[i].wf() by {
                assert(old(self).by_type_bb[i].wf());
            }
        }
    }

    /// Moves the piece on `from` to the empty square `to`.
    #[verifier::rlimit(80)]
    pub fn move_piece(&mut self, from: Square, to: Square)
        requires
            old(self).wf(),
            from.valid(),
            to.valid(),
            from != to,
            old(self).board[from.id()] != Piece::NONE,
            old(self).board[to.id()] == Piece::NONE,
        ensures
            final(self).wf(),
            final(self).board@ == old(self).board@.update(from.id(), Piece::NONE).update(
                to.id(),
                old(self).board[from.id()],
            ),
            final(self).piece_count == old(self).piece_count,
            final(self).mid_encoding_val@ == old(self).mid_encoding_val@.update(
                old(self).board[from.id()].color_of().id(),
                ((old(self).mid_encoding_val[old(self).board[from.id()].color_of().id()] as int
                    - mid_mirror_spec(old(self).board[from.id()], from.id()) as int
                    + mid_mirror_spec(old(self).board[from.id()], to.id()) as int
                    + 0x1_0000_0000_0000_0000int) % 0x1_0000_0000_0000_0000int) as u64,
            ),
            final(self).same_context(old(self)),
    {
        let pc = self.board[from.index()];
        let ft = Bitboard::from_square(from).xor(Bitboard::from_square(to));
        let t = pc.piece_type().index();
        let c = pc.color().index();
        self.by_type_bb[0] = self.by_type_bb[0].xor(ft);
        self.by_type_bb[t] = self.by_type_bb[t].xor(ft);
        self.by_color_bb[c] = self.by_color_bb[c].xor(ft);
        self.board[from.index()] = Piece::NONE;
        self.board[to.index()] = pc;
        self.mid_encoding_val[c] = self.mid_encoding_val[c].wrapping_sub(
            mid_mirror_encoding(pc, from),
        ).wrapping_add(mid_mirror_encoding(pc, to));
        proof {
            assert forall|s: int, pt: PieceType|
                0 <= s < 90 implies (#[trigger] self.by_type_bb[pt.id()].has(s)) == (self.board[s]
                != Piece::NONE && self.board[s].type_of() == pt) by {
                assert(old(self).by_type_bb[pt.id()].has(s) == (old(self).board[s] != Piece::NONE
                    && old(self).board[s].type_of() == pt));
            }
            assert forall|s: int, cc: Color|
                0 <= s < 90 implies (#[trigger] self.by_color_bb[cc.id()].has(s)) == (self.board[s]
                != Piece::NONE && self.board[s].color_of() == cc) by {
                assert(old(self).by_color_bb[cc.id()].has(s) == (old(self).board[s] != Piece::NONE
                    && old(self).board[s].color_of() == cc));
            }
            assert forall|s: int|
                0 <= s < 90 implies (#[trigger] self.by_type_bb[0].has(s)) == (self.board[s]
                != Piece::NONE) by {
                assert(old(self).by_type_bb[0].has(s) == (old(self).board[s] != Piece::NONE));
            }
            assert forall|i: int| 0 <= i < 8 implies #[trigger] self.by_type_bb[i].wf() by {
                assert(old(self).by_type_bb[i].wf());
            }
        }
    }

    /// Replaces the piece on the occupied square `sq` by `new_pc`.
    pub fn swap_piece(&mut self, sq: Square, new_pc: Piece)
        requires
            old(self).wf(),
            sq.valid(),
            new_pc != Piece::NONE,
            old(self).board[sq.id()] != Piece::NONE,
        ensures
            final(self).wf(),
            final(self).board@ == old(self).board@.update(sq.id(), new_pc),
            final(self).same_context(old(self)),
    {
        self.remove_piece(sq);
        self.put_piece(new_pc, sq);
    }
}

/// The bitboards of a consistent position are determined by its board.
pub proof fn lemma_bitboards_from_board(p: &Position, q: &Position)
    requires
        p.wf(),
        q.wf(),
        p.board@ == q.board@,
    ensures
        p.by_type_bb == q.by_type_bb,
        p.by_color_bb == q.by_color_bb,
{
    broadcast use vstd::array::group_array_axioms;

    assert(forall|s: int| 0 <= s < 90 ==> #[trigger] p.board[s] == q.board[s]) by {
        assert(forall|s: int| 0 <= s < 90 ==> p.board[s] == #[trigger] p.board@[s]);
        assert(forall|s: int| 0 <= s < 90 ==> q.board[s] == #[trigger] q.board@[s]);
    }
    assert forall|i: int| 0 <= i < 8 implies p.by_type_bb[i] == q.by_type_bb[i] by {
        let a = p.by_type_bb[i];
        let b = q.by_type_bb[i];
        assert(a.wf() && b.wf());
        assert forall|s: int| #[trigger] bit(a.0, s) == bit(b.0, s) by {
            if 0 <= s < 90 {
                if i == 0 {
                    assert(a.has(s) == b.has(s));
                } else {
                    let pt = if i == 1 {
                        PieceType::Rook
                    } else if i == 2 {
                        PieceType::Advisor
                    } else if i == 3 {
                        PieceType::Cannon
                    } else if i == 4 {
                        PieceType::Pawn
                    } else if i == 5 {
                        PieceType::Knight
                    } else if i == 6 {
                        PieceType::Bishop
                    } else {
                        PieceType::King
                    };
                    assert(pt.id() == i);
                    assert(a.has(s) == (p.board[s] != Piece::NONE && p.board[s].type_of() == pt));
                    assert(b.has(s) == (q.board[s] != Piece::NONE && q.board[s].type_of() == pt));
                }
            } else {
                lemma_board_bits(a.0, s);
                lemma_board_bits(b.0, s);
            }
        }
        lemma_bits_ext(a.0, b.0);
    }
    assert(p.by_type_bb =~= q.by_type_bb);
    assert forall|i: int| 0 <= i < 2 implies p.by_color_bb[i] == q.by_color_bb[i] by {
        let a = p.by_color_bb[i];
        let b = q.by_color_bb[i];
        let c = if i == 0 {
            Color::White
        } else {
            Color::Black
        };
        assert(c.id() == i);
        assert forall|s: int| #[trigger] bit(a.0, s) == bit(b.0, s) by {
            if 0 <= s < 90 {
                assert(a.has(s) == (p.board[s] != Piece::NONE && p.board[s].color_of() == c));
                assert(b.has(s) == (q.board[s] != Piece::NONE && q.board[s].color_of() == c));
            } else {
                lemma_board_bits(a.0, s);
                lemma_board_bits(b.0, s);
            }
        }
        lemma_bits_ext(a.0, b.0);
    }
    assert(p.by_color_bb =~= q.by_color_bb);
}

} // verus!
