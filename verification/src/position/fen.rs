//! Reading and writing positions in Forsyth-Edwards notation.

use vstd::prelude::*;
use vstd::string::StringSliceAdditionalSpecFns;

use super::do_move::{toggle_if, zk, is_major, is_minor, word};
use super::legality::piece_checks;
use super::position::Position;
use super::zobrist::{side_key, no_pawns_key};
use crate::nnue::features::half_ka_v2_hm::{BALANCE_ENCODING, mid_mirror_spec};
use crate::types::{
    push_char, Color, Move, Piece, PieceType, Square, make_piece, piece_char, piece_value, piece_value_spec,
};

verus! {

/// Why a FEN string was refused.
#[derive(Debug)]
pub enum FenError {
    /// The text does not follow the notation.
    Invalid(String),
    /// The text is well formed but describes a position the engine does not
    /// play: too many pieces of a kind, a missing king, or a rule-60 counter
    /// out of range.
    Unsupported(String),
}

/// The piece a FEN letter stands for (upper case white, lower case black),
/// or no piece.
pub open spec fn letter_piece(t: u8) -> Piece {
    if t == 82 {
        Piece::W_ROOK
    } else if t == 65 {
        Piece::W_ADVISOR
    } else if t == 67 {
        Piece::W_CANNON
    } else if t == 80 {
        Piece::W_PAWN
    } else if t == 78 {
        Piece::W_KNIGHT
    } else if t == 66 {
        Piece::W_BISHOP
    } else if t == 75 {
        Piece::W_KING
    } else if t == 114 {
        Piece::B_ROOK
    } else if t == 97 {
        Piece::B_ADVISOR
    } else if t == 99 {
        Piece::B_CANNON
    } else if t == 112 {
        Piece::B_PAWN
    } else if t == 110 {
        Piece::B_KNIGHT
    } else if t == 98 {
        Piece::B_BISHOP
    } else if t == 107 {
        Piece::B_KING
    } else {
        Piece::NONE
    }
}

/// The empty board.
pub open spec fn empty_board() -> Seq<Piece> {
    Seq::new(90, |s: int| Piece::NONE)
}

/// Reads the piece placement from byte `i` on, with the cursor on file
/// `file` of rank `rank`, `n` pieces placed so far and `board` filled in so
/// far. A digit skips that many files, `/` goes down a rank once the rank is
/// full, a letter places a piece (at most 32 in all), and a space ends the
/// field once the last rank is full. Gives the board and the index after the
/// space, or `None` when the field is malformed.
pub open spec fn place_from(
    b: Seq<u8>,
    i: int,
    file: int,
    rank: int,
    n: int,
    board: Seq<Piece>,
) -> Option<(Seq<Piece>, int)>
    decreases b.len() - i,
{
    if i < 0 || i >= b.len() {
        None
    } else {
        let t = b[i];
        if t == 32 {
            if rank == 0 && file == 9 {
                Some((board, i + 1))
            } else {
                None
            }
        } else if 48 <= t <= 57 {
            let d = t - 48;
            if d < 1 || file + d > 9 {
                None
            } else {
                place_from(b, i + 1, file + d, rank, n, board)
            }
        } else if t == 47 {
            if file != 9 || rank == 0 {
                None
            } else {
                place_from(b, i + 1, 0, rank - 1, n, board)
            }
        } else if file >= 9 || letter_piece(t) == Piece::NONE || n + 1 > 32 {
            None
        } else {
            place_from(b, i + 1, file + 1, rank, n + 1, board.update(rank * 9 + file, letter_piece(t)))
        }
    }
}

/// The placement field of `b`.
pub open spec fn placement(b: Seq<u8>) -> Option<(Seq<Piece>, int)> {
    place_from(b, 0, 0, 9, 0, empty_board())
}

/// Where the placement field read as `place_from` reads it ends, leaving
/// the pieces aside.
pub open spec fn place_end(b: Seq<u8>, i: int, file: int, rank: int, n: int) -> Option<int>
    decreases b.len() - i,
{
    if i < 0 || i >= b.len() {
        None
    } else {
        let t = b[i];
        if t == 32 {
            if rank == 0 && file == 9 {
                Some(i + 1)
            } else {
                None
            }
        } else if 48 <= t <= 57 {
            let d = t - 48;
            if d < 1 || file + d > 9 {
                None
            } else {
                place_end(b, i + 1, file + d, rank, n)
            }
        } else if t == 47 {
            if file != 9 || rank == 0 {
                None
            } else {
                place_end(b, i + 1, 0, rank - 1, n)
            }
        } else if file >= 9 || letter_piece(t) == Piece::NONE || n + 1 > 32 {
            None
        } else {
            place_end(b, i + 1, file + 1, rank, n + 1)
        }
    }
}

/// Where the placement ends does not depend on the pieces placed.
proof fn lemma_place_end(b: Seq<u8>, i: int, file: int, rank: int, n: int, board: Seq<Piece>)
    requires
        place_end(b, i, file, rank, n) is Some,
    ensures
        place_from(b, i, file, rank, n, board) is Some,
        place_from(b, i, file, rank, n, board).unwrap().1 == place_end(b, i, file, rank, n).unwrap(),
    decreases b.len() - i,
{
    if 0 <= i < b.len() {
        let t = b[i];
        if t == 32 {
        } else if 48 <= t <= 57 {
            lemma_place_end(b, i + 1, file + (t - 48), rank, n, board);
        } else if t == 47 {
            lemma_place_end(b, i + 1, 0, rank - 1, n, board);
        } else {
            lemma_place_end(b, i + 1, file + 1, rank, n + 1, board.update(rank * 9 + file, letter_piece(t)));
        }
    }
}

/// The sum of `f(piece, square)` over the first `n` squares.
pub open spec fn board_sum(board: Seq<Piece>, f: spec_fn(Piece, int) -> int, n: int) -> int
    decreases n,
{
    if n <= 0 {
        0
    } else {
        board_sum(board, f, n - 1) + f(board[n - 1], n - 1)
    }
}

/// Weight one for each `p`.
pub open spec fn count_w(p: Piece) -> spec_fn(Piece, int) -> int {
    |x: Piece, s: int| if x == p { 1int } else { 0int }
}

/// How many times `p` stands on the board.
pub open spec fn count_on(board: Seq<Piece>, p: Piece) -> int {
    board_sum(board, count_w(p), 90)
}

/// How many pieces of one kind a side may have.
pub open spec fn max_count(pt: PieceType) -> int {
    match pt {
        PieceType::Pawn => 5,
        PieceType::King => 1,
        _ => 2,
    }
}

/// No side has more pieces of a kind than the game starts with.
pub open spec fn counts_ok(board: Seq<Piece>) -> bool {
    forall|p: Piece| p != Piece::NONE ==> #[trigger] count_on(board, p) <= max_count(p.type_of())
}

/// Both kings are on the board.
pub open spec fn kings_on(board: Seq<Piece>) -> bool {
    count_on(board, Piece::W_KING) > 0 && count_on(board, Piece::B_KING) > 0
}

/// The index after the first space at or after `i` (the end if none).
pub open spec fn skip_field(b: Seq<u8>, i: int) -> int
    decreases b.len() - i,
{
    if i < 0 || i >= b.len() {
        b.len() as int
    } else if b[i] == 32 {
        i + 1
    } else {
        skip_field(b, i + 1)
    }
}

/// The index of the first byte at or after `i` that is not a space.
pub open spec fn skip_spaces(b: Seq<u8>, i: int) -> int
    decreases b.len() - i,
{
    if 0 <= i < b.len() && b[i] == 32 {
        skip_spaces(b, i + 1)
    } else {
        i
    }
}

pub open spec fn is_digit(t: u8) -> bool {
    48 <= t <= 57
}

/// The index of the first byte at or after `i` that is not a digit.
pub open spec fn digits_end(b: Seq<u8>, i: int) -> int
    decreases b.len() - i,
{
    if 0 <= i < b.len() && is_digit(b[i]) {
        digits_end(b, i + 1)
    } else {
        i
    }
}

/// The decimal value of the digits `b[s..e]`.
pub open spec fn digits_value(b: Seq<u8>, s: int, e: int) -> int
    decreases e - s,
{
    if e <= s {
        0
    } else {
        digits_value(b, s, e - 1) * 10 + (b[e - 1] - 48)
    }
}

/// Where the optional sign of a number read from `i` stands, and whether it
/// is there.
pub open spec fn sign_at(b: Seq<u8>, i: int) -> (int, bool) {
    let j = skip_spaces(b, i);
    (j, 0 <= j < b.len() && b[j] == 45)
}

/// The start of the digits of a number read from `i`.
pub open spec fn number_start(b: Seq<u8>, i: int) -> int {
    let (j, neg) = sign_at(b, i);
    if neg {
        j + 1
    } else {
        j
    }
}

/// Reads an integer from `i`: spaces, an optional minus sign, then digits.
/// Gives the number, if there were digits, and the index after them.
pub open spec fn read_int(b: Seq<u8>, i: int) -> (Option<int>, int) {
    let k = number_start(b, i);
    let e = digits_end(b, k);
    if e > k {
        (Some(if sign_at(b, i).1 { -digits_value(b, k, e) } else { digits_value(b, k, e) }), e)
    } else {
        (None, e)
    }
}

/// The number read from `i`, or `default` when there is none.
pub open spec fn int_or(b: Seq<u8>, i: int, default: int) -> int {
    match read_int(b, i).0 {
        Some(v) => v,
        None => default,
    }
}

/// The index just after the placement field.
pub open spec fn side_index(b: Seq<u8>) -> int {
    placement(b).unwrap().1
}

/// Where the rule-60 counter is read.
pub open spec fn rule60_index(b: Seq<u8>) -> int {
    skip_field(b, skip_field(b, skip_field(b, side_index(b) + 1)))
}

/// The rule-60 counter (0 when absent).
pub open spec fn fen_rule60(b: Seq<u8>) -> int {
    int_or(b, rule60_index(b), 0)
}

/// The full-move number (1 when absent).
pub open spec fn fen_fullmove(b: Seq<u8>) -> int {
    int_or(b, read_int(b, rule60_index(b)).1, 1)
}

/// Black is to move.
pub open spec fn fen_black(b: Seq<u8>) -> bool {
    b[side_index(b)] == 98
}

/// Whether `b` is refused as malformed.
pub open spec fn fen_invalid(b: Seq<u8>) -> bool {
    ||| placement(b) is None
    ||| (counts_ok(placement(b).unwrap().0) && kings_on(placement(b).unwrap().0) && (side_index(b)
        >= b.len() || (b[side_index(b)] != 119 && b[side_index(b)] != 98)))
}

/// Whether `b` is refused as a position the engine does not play.
pub open spec fn fen_unsupported(b: Seq<u8>) -> bool {
    &&& placement(b) is Some
    &&& {
        ||| !counts_ok(placement(b).unwrap().0)
        ||| !kings_on(placement(b).unwrap().0)
        ||| (!fen_invalid(b) && !(0 <= fen_rule60(b) <= 120))
    }
}

/// The magnitude of the number read from `i`.
pub open spec fn magnitude(b: Seq<u8>, i: int) -> int {
    let k = number_start(b, i);
    digits_value(b, k, digits_end(b, k))
}

/// The placement, the piece counts, the kings and the side to move are
/// accepted, so the two counters are read.
pub open spec fn fen_reads_numbers(b: Seq<u8>) -> bool {
    &&& placement(b) is Some
    &&& counts_ok(placement(b).unwrap().0)
    &&& kings_on(placement(b).unwrap().0)
    &&& !fen_invalid(b)
}

/// `b` describes a position the engine accepts.
pub open spec fn fen_accepted(b: Seq<u8>) -> bool {
    fen_reads_numbers(b) && 0 <= fen_rule60(b) <= 120
}

/// The counters that are read fit the engine's 32-bit arithmetic.
pub open spec fn fen_numbers_fit(b: Seq<u8>) -> bool {
    fen_reads_numbers(b) ==> {
        &&& magnitude(b, rule60_index(b)) <= i32::MAX
        &&& magnitude(b, read_int(b, rule60_index(b)).1) <= i32::MAX
        &&& (0 <= fen_rule60(b) <= 120 ==> 2 * (if fen_fullmove(b) - 1 > 0 {
            fen_fullmove(b) - 1
        } else {
            0
        }) + 1 <= i32::MAX)
    }
}

/// The game ply of an accepted FEN: two per full move before the current
/// one, plus one when Black is to move (kept to 16 bits).
pub open spec fn fen_ply(b: Seq<u8>) -> u16 {
    ((2 * (if fen_fullmove(b) - 1 > 0 {
        fen_fullmove(b) - 1
    } else {
        0
    }) + if fen_black(b) {
        1int
    } else {
        0int
    }) as i32) as u16
}

/// The XOR, starting from `init`, of the keys of the pieces on the first `n`
/// squares that `sel` selects.
pub open spec fn key_fold(board: Seq<Piece>, sel: spec_fn(Piece) -> bool, init: u64, n: int) -> u64
    decreases n,
{
    if n <= 0 {
        init
    } else {
        toggle_if(
            key_fold(board, sel, init, n - 1),
            board[n - 1] != Piece::NONE && sel(board[n - 1]),
            zk(board[n - 1], n - 1),
        )
    }
}

/// Weight of a rook, cannon or knight of `c`: its value.
pub open spec fn major_w(c: Color) -> spec_fn(Piece, int) -> int {
    |x: Piece, s: int|
        if x != Piece::NONE && x.color_of() == c && is_major(x.type_of()) {
            piece_value_spec(x)
        } else {
            0int
        }
}

/// The value of the rooks, cannons and knights of `c` on the first `n` squares.
pub open spec fn major_sum(board: Seq<Piece>, c: Color, n: int) -> int {
    board_sum(board, major_w(c), n)
}

/// Weight of a piece of `c`: its mid-mirror encoding on its square.
pub open spec fn mid_w(c: Color) -> spec_fn(Piece, int) -> int {
    |x: Piece, s: int|
        if x != Piece::NONE && x.color_of() == c {
            mid_mirror_spec(x, s) as int
        } else {
            0int
        }
}

/// The sum of the mid-mirror encodings of the pieces of `c`.
pub open spec fn mid_sum(board: Seq<Piece>, c: Color) -> int {
    board_sum(board, mid_w(c), 90)
}

/// Every piece.
pub open spec fn any_sel() -> spec_fn(Piece) -> bool {
    |x: Piece| true
}

/// Pawns.
pub open spec fn pawn_sel() -> spec_fn(Piece) -> bool {
    |x: Piece| x.type_of() == PieceType::Pawn
}

/// Pieces of `c` other than pawns.
pub open spec fn non_pawn_sel(c: Color) -> spec_fn(Piece) -> bool {
    |x: Piece| x.color_of() == c && x.type_of() != PieceType::Pawn
}

/// Cannons and knights.
pub open spec fn minor_sel() -> spec_fn(Piece) -> bool {
    |x: Piece| is_minor(x.type_of())
}

/// Changing square `k` changes a board sum by the change at `k`.
pub proof fn lemma_board_sum_update(
    board: Seq<Piece>,
    f: spec_fn(Piece, int) -> int,
    k: int,
    p: Piece,
    n: int,
)
    requires
        0 <= k < board.len(),
        n <= board.len(),
    ensures
        board_sum(board.update(k, p), f, n) == board_sum(board, f, n) + (if 0 <= k < n {
            f(p, k) - f(board[k], k)
        } else {
            0
        }),
    decreases n,
{
    if n > 0 {
        lemma_board_sum_update(board, f, k, p, n - 1);
    }
}

/// A sum that is zero on every piece of the board is zero.
pub proof fn lemma_board_sum_zero(board: Seq<Piece>, f: spec_fn(Piece, int) -> int, n: int)
    requires
        n <= board.len(),
        forall|s: int| 0 <= s < n ==> f(#[trigger] board[s], s) == 0,
    ensures
        board_sum(board, f, n) == 0,
    decreases n,
{
    if n > 0 {
        lemma_board_sum_zero(board, f, n - 1);
    }
}

/// A count that is positive finds the piece.
pub proof fn lemma_count_found(board: Seq<Piece>, p: Piece, n: int)
    requires
        n <= board.len(),
        board_sum(board, count_w(p), n) > 0,
    ensures
        exists|s: int| 0 <= s < n && #[trigger] board[s] == p,
    decreases n,
{
    if n > 0 {
        if board[n - 1] != p {
            lemma_count_found(board, p, n - 1);
        }
    }
}

/// Two squares with the piece make a count of at least two.
pub proof fn lemma_count_two(board: Seq<Piece>, p: Piece, s: int, t: int, n: int)
    requires
        n <= board.len(),
        0 <= s < t < n,
        board[s] == p,
        board[t] == p,
    ensures
        board_sum(board, count_w(p), n) >= 2,
    decreases n,
{
    let f = count_w(p);
    lemma_count_nonneg(board, p, n);
    if t < n - 1 {
        lemma_count_two(board, p, s, t, n - 1);
    } else {
        assert(board_sum(board, f, n - 1) >= 1) by {
            lemma_count_at_least_one(board, p, s, n - 1);
        }
    }
}

proof fn lemma_count_nonneg(board: Seq<Piece>, p: Piece, n: int)
    requires
        n <= board.len(),
    ensures
        board_sum(board, count_w(p), n) >= 0,
    decreases n,
{
    if n > 0 {
        lemma_count_nonneg(board, p, n - 1);
    }
}

proof fn lemma_count_at_least_one(board: Seq<Piece>, p: Piece, s: int, n: int)
    requires
        n <= board.len(),
        0 <= s < n,
        board[s] == p,
    ensures
        board_sum(board, count_w(p), n) >= 1,
    decreases n,
{
    lemma_count_nonneg(board, p, n - 1);
    if s < n - 1 {
        lemma_count_at_least_one(board, p, s, n - 1);
    }
}

/// A major-material sum is at most a rook's value per square.
pub proof fn lemma_major_sum_bounds(board: Seq<Piece>, c: Color, n: int)
    requires
        0 <= n <= board.len(),
    ensures
        0 <= major_sum(board, c, n) <= 1305 * n,
    decreases n,
{
    if n > 0 {
        lemma_major_sum_bounds(board, c, n - 1);
    }
}

impl Position {
    /// The keys and the major material recorded in the state are those of
    /// the board and the side to move.
    pub open spec fn keys_from_board(&self) -> bool {
        let b = self.board@;
        &&& self.state.key == toggle_if(
            key_fold(b, any_sel(), 0, 90),
            self.side_to_move == Color::Black,
            side_key(),
        )
        &&& self.state.pawn_key == key_fold(b, pawn_sel(), no_pawns_key(), 90)
        &&& self.state.non_pawn_key[0] == key_fold(b, non_pawn_sel(Color::White), 0, 90)
        &&& self.state.non_pawn_key[1] == key_fold(b, non_pawn_sel(Color::Black), 0, 90)
        &&& self.state.minor_piece_key == key_fold(b, minor_sel(), 0, 90)
        &&& self.state.major_material[0] == major_sum(b, Color::White, 90)
        &&& self.state.major_material[1] == major_sum(b, Color::Black, 90)
    }

    /// The pieces of `c` giving check to the king of the side to move are
    /// the recorded checkers.
    pub open spec fn checkers_from_board(&self) -> bool {
        &&& self.state.checkers_bb.wf()
        &&& forall|t: int|
            0 <= t < 90 ==> (#[trigger] self.state.checkers_bb.has(t) == piece_checks(
                self.board[t],
                self.side_to_move.opp(),
                t,
                self.king_sq(self.side_to_move),
                self.occ(),
            ))
    }

    /// Recomputes the keys, the major material, the checkers and the check
    /// information from the board.
    pub fn set_state(&mut self)
        requires
            old(self).valid(),
        ensures
            final(self).valid(),
            final(self).board == old(self).board,
            final(self).by_type_bb == old(self).by_type_bb,
            final(self).by_color_bb == old(self).by_color_bb,
            final(self).piece_count == old(self).piece_count,
            final(self).mid_encoding_val == old(self).mid_encoding_val,
            final(self).side_to_move == old(self).side_to_move,
            final(self).game_ply == old(self).game_ply,
            final(self).state_stack@ == old(self).state_stack@,
            final(self).bloom_filter.table@ == old(self).bloom_filter.table@,
            final(self).id_board == old(self).id_board,
            final(self).zob == old(self).zob,
            final(self).keys_from_board(),
            final(self).checkers_from_board(),
            final(self).check_info_ok(),
            final(self).state.last_move == Move(0),
            final(self).state.check10 == old(self).state.check10,
            final(self).state.rule60 == old(self).state.rule60,
            final(self).state.plies_from_null == old(self).state.plies_from_null,
            final(self).state.captured_piece == old(self).state.captured_piece,
    {
        let mut key: u64 = 0;
        let mut pawn: u64 = self.zob.no_pawns;
        let mut npk: [u64; 2] = [0, 0];
        let mut minor: u64 = 0;
        let mut mm: [i32; 2] = [0, 0];
        let mut s: usize = 0;
        while s < 90
            invariant
                s <= 90,
                self.wf(),
                key == key_fold(self.board@, any_sel(), 0, s as int),
                pawn == key_fold(self.board@, pawn_sel(), no_pawns_key(), s as int),
                npk[0] == key_fold(self.board@, non_pawn_sel(Color::White), 0, s as int),
                npk[1] == key_fold(self.board@, non_pawn_sel(Color::Black), 0, s as int),
                minor == key_fold(self.board@, minor_sel(), 0, s as int),
                mm[0] == major_sum(self.board@, Color::White, s as int),
                mm[1] == major_sum(self.board@, Color::Black, s as int),
                0 <= mm[0] <= 1305 * s,
                0 <= mm[1] <= 1305 * s,
            decreases 90 - s,
        {
            let pc = self.board[s];
            proof {
                assert(self.board[s as int] == self.board@[s as int]);
            }
            if pc != Piece::NONE {
                let sq = Square::from_raw_unchecked(s as u8);
                let k = self.zob.psq_of(pc, sq);
                let pt = pc.piece_type();
                let ci = pc.color().index();
                key = key ^ k;
                if pt == PieceType::Pawn {
                    pawn = pawn ^ k;
                } else {
                    npk[ci] = npk[ci] ^ k;
                    if pt == PieceType::Rook || pt == PieceType::Cannon || pt == PieceType::Knight {
                        mm[ci] = mm[ci] + piece_value(pc);
                        if pt != PieceType::Rook {
                            minor = minor ^ k;
                        }
                    }
                }
            }
            s = s + 1;
        }
        if self.side_to_move == Color::Black {
            key = key ^ self.zob.side;
        }
        self.state.key = key;
        self.state.pawn_key = pawn;
        self.state.non_pawn_key = npk;
        self.state.minor_piece_key = minor;
        self.state.major_material = mm;
        self.state.last_move = Move::none();
        let stm = self.side_to_move;
        let ksq = self.king_square(stm);
        self.state.checkers_bb = self.checkers_to(stm.flip(), ksq, self.all_pieces());
        self.set_check_info();
    }
}

/// Digit values only grow as digits are added, and are never negative.
proof fn lemma_digits_monotone(b: Seq<u8>, s: int, e1: int, e2: int)
    requires
        s <= e1 <= e2 <= b.len(),
        0 <= s,
        forall|k: int| s <= k < e2 ==> is_digit(#[trigger] b[k]),
    ensures
        0 <= digits_value(b, s, e1) <= digits_value(b, s, e2),
    decreases e2 - e1,
{
    if e1 < e2 {
        lemma_digits_monotone(b, s, e1, e2 - 1);
        lemma_digits_nonneg(b, s, e2 - 1);
    } else {
        lemma_digits_nonneg(b, s, e1);
    }
}

pub proof fn lemma_digits_nonneg(b: Seq<u8>, s: int, e: int)
    requires
        0 <= s,
        e <= b.len(),
        forall|k: int| s <= k < e ==> is_digit(#[trigger] b[k]),
    ensures
        0 <= digits_value(b, s, e),
    decreases e - s,
{
    if e > s {
        lemma_digits_nonneg(b, s, e - 1);
    }
}

/// The digits from `s` to where they end are all digits.
proof fn lemma_digits_end(b: Seq<u8>, s: int, i: int)
    requires
        0 <= s <= i <= b.len(),
        digits_end(b, i) == digits_end(b, s),
        forall|k: int| s <= k < i ==> is_digit(#[trigger] b[k]),
    ensures
        forall|k: int| s <= k < digits_end(b, s) ==> is_digit(#[trigger] b[k]),
        i <= digits_end(b, s) <= b.len(),
    decreases b.len() - i,
{
    if i < b.len() && is_digit(b[i]) {
        lemma_digits_end(b, s, i + 1);
    }
}

proof fn lemma_skip_spaces_bounds(b: Seq<u8>, i: int)
    requires
        0 <= i <= b.len(),
    ensures
        i <= skip_spaces(b, i) <= b.len(),
    decreases b.len() - i,
{
    if i < b.len() && b[i] == 32 {
        lemma_skip_spaces_bounds(b, i + 1);
    }
}

proof fn lemma_number_start_bounds(b: Seq<u8>, i: int)
    requires
        0 <= i <= b.len(),
    ensures
        i <= number_start(b, i) <= b.len(),
{
    lemma_skip_spaces_bounds(b, i);
}

/// The piece a FEN letter stands for.
fn char_to_piece(ch: u8) -> (p: Option<Piece>)
    ensures
        p == (if letter_piece(ch) == Piece::NONE {
            None::<Piece>
        } else {
            Some(letter_piece(ch))
        }),
{
    match ch {
        82 => Some(Piece::W_ROOK),
        65 => Some(Piece::W_ADVISOR),
        67 => Some(Piece::W_CANNON),
        80 => Some(Piece::W_PAWN),
        78 => Some(Piece::W_KNIGHT),
        66 => Some(Piece::W_BISHOP),
        75 => Some(Piece::W_KING),
        114 => Some(Piece::B_ROOK),
        97 => Some(Piece::B_ADVISOR),
        99 => Some(Piece::B_CANNON),
        112 => Some(Piece::B_PAWN),
        110 => Some(Piece::B_KNIGHT),
        98 => Some(Piece::B_BISHOP),
        107 => Some(Piece::B_KING),
        _ => None,
    }
}

/// Skips past the next space.
fn skip_to_space(b: &[u8], i: usize) -> (j: usize)
    requires
        i <= b.len(),
    ensures
        j == skip_field(b@, i as int),
        j <= b.len(),
{
    let mut k = i;
    while k < b.len()
        invariant
            i <= k <= b.len(),
            skip_field(b@, k as int) == skip_field(b@, i as int),
        decreases b.len() - k,
    {
        if b[k] == 32 {
            return k + 1;
        }
        k = k + 1;
    }
    k
}

/// Reads an integer: spaces, an optional minus sign, then digits.
fn parse_int(b: &[u8], i: usize) -> (r: (Option<i32>, usize))
    requires
        i <= b.len(),
        magnitude(b@, i as int) <= i32::MAX,
    ensures
        (match r.0 {
            Some(v) => Some(v as int),
            None => None,
        }) == read_int(b@, i as int).0,
        r.1 == read_int(b@, i as int).1,
        r.1 <= b.len(),
{
    let mut j = i;
    while j < b.len() && b[j] == 32
        invariant
            i <= j <= b.len(),
            skip_spaces(b@, j as int) == skip_spaces(b@, i as int),
        decreases b.len() - j,
    {
        j = j + 1;
    }
    let negative = j < b.len() && b[j] == 45;
    if negative {
        j = j + 1;
    }
    let start = j;
    proof {
        assert(start == number_start(b@, i as int));
    }
    let mut result: i32 = 0;
    let mut found = false;
    while j < b.len() && 48 <= b[j] && b[j] <= 57
        invariant
            start <= j <= b.len(),
            digits_end(b@, j as int) == digits_end(b@, start as int),
            forall|k: int| start <= k < j ==> is_digit(#[trigger] b@[k]),
            result == digits_value(b@, start as int, j as int),
            0 <= result,
            found == (j > start),
            digits_value(b@, start as int, digits_end(b@, start as int)) <= i32::MAX,
        decreases b.len() - j,
    {
        proof {
            assert(digits_end(b@, j as int) == digits_end(b@, j as int + 1));
            lemma_digits_end(b@, start as int, j as int + 1);
            lemma_digits_monotone(b@, start as int, j as int + 1, digits_end(b@, start as int));
        }
        result = result * 10 + (b[j] - 48) as i32;
        found = true;
        j = j + 1;
    }
    if found {
        (Some(if negative { -result } else { result }), j)
    } else {
        (None, j)
    }
}

impl Position {
    /// `self` is the position that the accepted FEN `b` describes.
    pub open spec fn parsed_from(&self, b: Seq<u8>) -> bool {
        &&& self.valid()
        &&& self.board@ == placement(b).unwrap().0
        &&& self.side_to_move == (if fen_black(b) {
            Color::Black
        } else {
            Color::White
        })
        &&& self.state.rule60 == fen_rule60(b)
        &&& self.game_ply == fen_ply(b)
        &&& self.keys_from_board()
        &&& self.checkers_from_board()
        &&& self.check_info_ok()
        &&& self.state.check10@ == seq![0i16, 0i16]
        &&& self.state.plies_from_null == 0
        &&& self.state.captured_piece == Piece::NONE
        &&& self.state.last_move == Move(0)
        &&& forall|p: Piece|
            p != Piece::NONE ==> #[trigger] self.piece_count[p.id()] == count_on(self.board@, p)
        &&& self.mid_encoding_val[0] == ((BALANCE_ENCODING as int + mid_sum(
            self.board@,
            Color::White,
        )) % word()) as u64
        &&& self.mid_encoding_val[1] == ((BALANCE_ENCODING as int + mid_sum(
            self.board@,
            Color::Black,
        )) % word()) as u64
        &&& self.state_stack@.len() == 0
        &&& forall|i: int| 0 <= i < 16384 ==> #[trigger] self.bloom_filter.table@[i] == 0
        &&& forall|s: int| 0 <= s < 90 ==> #[trigger] self.id_board[s] == 0
    }
}


/// The starting position in FEN.
pub const START_FEN: &'static str = "rnbakabnr/9/1c5c1/p1p1p1p1p/9/9/P1P1P1P1P/1C5C1/9/RNBAKABNR w - - 0 1";

/// The bytes of the starting FEN.
pub open spec fn start_fen() -> Seq<u8> {
    seq![
        114u8, 110, 98, 97, 107, 97, 98, 110, 114, 47, 57, 47, 49, 99, 53, 99, 49, 47, 112, 49,
        112, 49, 112, 49, 112, 49, 112, 47, 57, 47, 57, 47, 80, 49, 80, 49, 80, 49, 80, 49, 80, 47,
        49, 67, 53, 67, 49, 47, 57, 47, 82, 78, 66, 65, 75, 65, 66, 78, 82, 32, 119, 32, 45, 32,
        45, 32, 48, 32, 49,
    ]
}

/// The bytes of the starting FEN.
proof fn lemma_start_fen_bytes()
    ensures
        START_FEN.spec_bytes() == start_fen(),
{
    broadcast use vstd::string::group_string_axioms;

    reveal_strlit("rnbakabnr/9/1c5c1/p1p1p1p1p/9/9/P1P1P1P1P/1C5C1/9/RNBAKABNR w - - 0 1");
    assert(START_FEN@.len() == 69);
    assert(vstd::string::is_ascii(START_FEN));
    assert(START_FEN.spec_bytes() =~= start_fen());
}

/// The counters of the starting FEN fit.
#[verifier::rlimit(100)]
proof fn lemma_start_fen_fits()
    ensures
        fen_numbers_fit(start_fen()),
{
    let b = start_fen();
    assert(place_end(b, 0, 0, 9, 0) == place_end(b, 1, 1, 9, 1));
    assert(place_end(b, 1, 1, 9, 1) == place_end(b, 2, 2, 9, 2));
    assert(place_end(b, 2, 2, 9, 2) == place_end(b, 3, 3, 9, 3));
    assert(place_end(b, 3, 3, 9, 3) == place_end(b, 4, 4, 9, 4));
    assert(place_end(b, 4, 4, 9, 4) == place_end(b, 5, 5, 9, 5));
    assert(place_end(b, 5, 5, 9, 5) == place_end(b, 6, 6, 9, 6));
    assert(place_end(b, 6, 6, 9, 6) == place_end(b, 7, 7, 9, 7));
    assert(place_end(b, 7, 7, 9, 7) == place_end(b, 8, 8, 9, 8));
    assert(place_end(b, 8, 8, 9, 8) == place_end(b, 9, 9, 9, 9));
    assert(place_end(b, 9, 9, 9, 9) == place_end(b, 10, 0, 8, 9));
    assert(place_end(b, 10, 0, 8, 9) == place_end(b, 11, 9, 8, 9));
    assert(place_end(b, 11, 9, 8, 9) == place_end(b, 12, 0, 7, 9));
    assert(place_end(b, 12, 0, 7, 9) == place_end(b, 13, 1, 7, 9));
    assert(place_end(b, 13, 1, 7, 9) == place_end(b, 14, 2, 7, 10));
    assert(place_end(b, 14, 2, 7, 10) == place_end(b, 15, 7, 7, 10));
    assert(place_end(b, 15, 7, 7, 10) == place_end(b, 16, 8, 7, 11));
    assert(place_end(b, 16, 8, 7, 11) == place_end(b, 17, 9, 7, 11));
    assert(place_end(b, 17, 9, 7, 11) == place_end(b, 18, 0, 6, 11));
    assert(place_end(b, 18, 0, 6, 11) == place_end(b, 19, 1, 6, 12));
    assert(place_end(b, 19, 1, 6, 12) == place_end(b, 20, 2, 6, 12));
    assert(place_end(b, 20, 2, 6, 12) == place_end(b, 21, 3, 6, 13));
    assert(place_end(b, 21, 3, 6, 13) == place_end(b, 22, 4, 6, 13));
    assert(place_end(b, 22, 4, 6, 13) == place_end(b, 23, 5, 6, 14));
    assert(place_end(b, 23, 5, 6, 14) == place_end(b, 24, 6, 6, 14));
    assert(place_end(b, 24, 6, 6, 14) == place_end(b, 25, 7, 6, 15));
    assert(place_end(b, 25, 7, 6, 15) == place_end(b, 26, 8, 6, 15));
    assert(place_end(b, 26, 8, 6, 15) == place_end(b, 27, 9, 6, 16));
    assert(place_end(b, 27, 9, 6, 16) == place_end(b, 28, 0, 5, 16));
    assert(place_end(b, 28, 0, 5, 16) == place_end(b, 29, 9, 5, 16));
    assert(place_end(b, 29, 9, 5, 16) == place_end(b, 30, 0, 4, 16));
    assert(place_end(b, 30, 0, 4, 16) == place_end(b, 31, 9, 4, 16));
    assert(place_end(b, 31, 9, 4, 16) == place_end(b, 32, 0, 3, 16));
    assert(place_end(b, 32, 0, 3, 16) == place_end(b, 33, 1, 3, 17));
    assert(place_end(b, 33, 1, 3, 17) == place_end(b, 34, 2, 3, 17));
    assert(place_end(b, 34, 2, 3, 17) == place_end(b, 35, 3, 3, 18));
    assert(place_end(b, 35, 3, 3, 18) == place_end(b, 36, 4, 3, 18));
    assert(place_end(b, 36, 4, 3, 18) == place_end(b, 37, 5, 3, 19));
    assert(place_end(b, 37, 5, 3, 19) == place_end(b, 38, 6, 3, 19));
    assert(place_end(b, 38, 6, 3, 19) == place_end(b, 39, 7, 3, 20));
    assert(place_end(b, 39, 7, 3, 20) == place_end(b, 40, 8, 3, 20));
    assert(place_end(b, 40, 8, 3, 20) == place_end(b, 41, 9, 3, 21));
    assert(place_end(b, 41, 9, 3, 21) == place_end(b, 42, 0, 2, 21));
    assert(place_end(b, 42, 0, 2, 21) == place_end(b, 43, 1, 2, 21));
    assert(place_end(b, 43, 1, 2, 21) == place_end(b, 44, 2, 2, 22));
    assert(place_end(b, 44, 2, 2, 22) == place_end(b, 45, 7, 2, 22));
    assert(place_end(b, 45, 7, 2, 22) == place_end(b, 46, 8, 2, 23));
    assert(place_end(b, 46, 8, 2, 23) == place_end(b, 47, 9, 2, 23));
    assert(place_end(b, 47, 9, 2, 23) == place_end(b, 48, 0, 1, 23));
    assert(place_end(b, 48, 0, 1, 23) == place_end(b, 49, 9, 1, 23));
    assert(place_end(b, 49, 9, 1, 23) == place_end(b, 50, 0, 0, 23));
    assert(place_end(b, 50, 0, 0, 23) == place_end(b, 51, 1, 0, 24));
    assert(place_end(b, 51, 1, 0, 24) == place_end(b, 52, 2, 0, 25));
    assert(place_end(b, 52, 2, 0, 25) == place_end(b, 53, 3, 0, 26));
    assert(place_end(b, 53, 3, 0, 26) == place_end(b, 54, 4, 0, 27));
    assert(place_end(b, 54, 4, 0, 27) == place_end(b, 55, 5, 0, 28));
    assert(place_end(b, 55, 5, 0, 28) == place_end(b, 56, 6, 0, 29));
    assert(place_end(b, 56, 6, 0, 29) == place_end(b, 57, 7, 0, 30));
    assert(place_end(b, 57, 7, 0, 30) == place_end(b, 58, 8, 0, 31));
    assert(place_end(b, 58, 8, 0, 31) == place_end(b, 59, 9, 0, 32));
    assert(place_end(b, 59, 9, 0, 32) == Some(60int));
    lemma_place_end(b, 0, 0, 9, 0, empty_board());
    assert(side_index(b) == 60);
    assert(skip_field(b, 61) == 62);
    assert(skip_field(b, 63) == 64);
    assert(skip_field(b, 62) == skip_field(b, 63));
    assert(skip_field(b, 65) == 66);
    assert(skip_field(b, 64) == skip_field(b, 65));
    assert(rule60_index(b) == 66);
    assert(skip_spaces(b, 66) == 66);
    assert(digits_end(b, 67) == 67);
    assert(digits_end(b, 66) == 67);
    assert(digits_value(b, 66, 66) == 0);
    assert(digits_value(b, 66, 67) == 0);
    assert(read_int(b, 66) == (Some(0int), 67int));
    assert(skip_spaces(b, 68) == 68);
    assert(skip_spaces(b, 67) == 68);
    assert(digits_end(b, 69) == 69);
    assert(digits_end(b, 68) == 69);
    assert(digits_value(b, 68, 68) == 0);
    assert(digits_value(b, 68, 69) == 1);
    assert(read_int(b, 67) == (Some(1int), 69int));
    assert(fen_fullmove(b) == 1);
}

/// How many pieces of one kind a side may have.
fn max_pieces(pt: PieceType) -> (n: u8)
    ensures
        n == max_count(pt),
{
    match pt {
        PieceType::Pawn => 5,
        PieceType::King => 1,
        _ => 2,
    }
}

/// One king of each color from counts of exactly one.
proof fn lemma_kings_from_counts(pos: &Position)
    requires
        pos.board@.len() == 90,
        count_on(pos.board@, Piece::W_KING) == 1,
        count_on(pos.board@, Piece::B_KING) == 1,
    ensures
        pos.kings_present(),
{
    let b = pos.board@;
    assert(forall|s: int| 0 <= s < 90 ==> #[trigger] pos.board[s] == b[s]);
    lemma_count_found(b, Piece::W_KING, 90);
    lemma_count_found(b, Piece::B_KING, 90);
    assert forall|s: int, t: int|
        0 <= s < 90 && 0 <= t < 90 && #[trigger] pos.board[s] == Piece::W_KING
            && #[trigger] pos.board[t] == Piece::W_KING implies s == t by {
        if s < t {
            lemma_count_two(b, Piece::W_KING, s, t, 90);
        } else if t < s {
            lemma_count_two(b, Piece::W_KING, t, s, 90);
        }
    }
    assert forall|s: int, t: int|
        0 <= s < 90 && 0 <= t < 90 && #[trigger] pos.board[s] == Piece::B_KING
            && #[trigger] pos.board[t] == Piece::B_KING implies s == t by {
        if s < t {
            lemma_count_two(b, Piece::B_KING, s, t, 90);
        } else if t < s {
            lemma_count_two(b, Piece::B_KING, t, s, 90);
        }
    }
}

impl Position {
    /// Reads a position from FEN: the placement, the side to move, two
    /// fields that are skipped, the rule-60 counter and the full-move number
    /// (the counters default to 0 and 1).
    #[verifier::rlimit(100)]
    pub fn from_fen(fen: &str) -> (r: Result<Position, FenError>)
        requires
            fen_numbers_fit(fen.spec_bytes()),
        ensures
            match r {
                Ok(pos) => fen_accepted(fen.spec_bytes()) && pos.parsed_from(fen.spec_bytes()),
                Err(FenError::Invalid(_)) => fen_invalid(fen.spec_bytes()),
                Err(FenError::Unsupported(_)) => fen_unsupported(fen.spec_bytes()) && !fen_invalid(
                    fen.spec_bytes(),
                ),
            },
    {
        let b = fen.as_bytes();
        let ghost bs = b@;
        let mut pos = Position::new();
        pos.mid_encoding_val = [BALANCE_ENCODING, BALANCE_ENCODING];
        proof {
            assert(pos.board@ =~= empty_board()) by {
                assert(forall|s: int| 0 <= s < 90 ==> pos.board@[s] == #[trigger] pos.board[s]);
            }
            assert forall|p: Piece| p != Piece::NONE implies count_on(pos.board@, p) == 0 by {
                lemma_board_sum_zero(pos.board@, count_w(p), 90);
            }
            lemma_board_sum_zero(pos.board@, mid_w(Color::White), 90);
            lemma_board_sum_zero(pos.board@, mid_w(Color::Black), 90);
            assert(BALANCE_ENCODING as int % word() == BALANCE_ENCODING as int);
        }
        let mut i: usize = 0;
        let mut file: u8 = 0;
        let mut rank: u8 = 9;
        let mut num: u32 = 0;
        loop
            invariant_except_break
                place_from(bs, i as int, file as int, rank as int, num as int, pos.board@)
                    == placement(bs),
            invariant
                pos.wf(),
                i <= b.len(),
                b@ == bs,
                bs == fen.spec_bytes(),
                file <= 9,
                rank <= 9,
                num <= 32,
                forall|r2: int, f2: int|
                    0 <= f2 < 9 && 0 <= r2 < 10 && (r2 < rank || (r2 == rank && f2 >= file))
                        ==> #[trigger] pos.board[r2 * 9 + f2] == Piece::NONE,
                forall|p: Piece|
                    p != Piece::NONE ==> #[trigger] pos.piece_count[p.id()] == count_on(
                        pos.board@,
                        p,
                    ),
                forall|p: Piece| p != Piece::NONE ==> #[trigger] count_on(pos.board@, p) <= num,
                pos.mid_encoding_val[0] == ((BALANCE_ENCODING as int + mid_sum(
                    pos.board@,
                    Color::White,
                )) % word()) as u64,
                pos.mid_encoding_val[1] == ((BALANCE_ENCODING as int + mid_sum(
                    pos.board@,
                    Color::Black,
                )) % word()) as u64,
                pos.side_to_move == Color::White,
                pos.game_ply == 0,
                pos.state_stack@.len() == 0,
                forall|k: int| 0 <= k < 16384 ==> #[trigger] pos.bloom_filter.table@[k] == 0,
                forall|s: int| 0 <= s < 90 ==> #[trigger] pos.id_board[s] == 0,
                pos.state.rule60 == 0,
                pos.state.check10@ == seq![0i16, 0i16],
                pos.state.plies_from_null == 0,
                pos.state.captured_piece == Piece::NONE,
            ensures
                placement(bs) == Some((pos.board@, i as int)),
                i <= b.len(),
            decreases b.len() - i,
        {
            if i >= b.len() {
                return Err(FenError::Invalid("unexpected end of stream".to_owned()));
            }
            let token = b[i];
            i = i + 1;
            if token == 32 {
                if rank != 0 || file != 9 {
                    return Err(FenError::Invalid("board encoding ended at wrong position".to_owned()));
                }
                break;
            }
            if 48 <= token && token <= 57 {
                let diff = token - 48;
                if diff < 1 {
                    return Err(FenError::Invalid("invalid number of squares to skip".to_owned()));
                }
                if file + diff > 9 {
                    return Err(FenError::Invalid("invalid file reached".to_owned()));
                }
                file = file + diff;
            } else if token == 47 {
                if file != 9 {
                    return Err(FenError::Invalid("rank ended before reaching file I".to_owned()));
                }
                if rank == 0 {
                    return Err(FenError::Invalid("too many ranks".to_owned()));
                }
                rank = rank - 1;
                file = 0;
            } else {
                if file >= 9 {
                    return Err(FenError::Invalid("invalid file reached".to_owned()));
                }
                let pc = match char_to_piece(token) {
                    Some(pc) => pc,
                    None => {
                        return Err(FenError::Invalid("invalid piece".to_owned()));
                    },
                };
                num = num + 1;
                if num > 32 {
                    return Err(FenError::Invalid("more than 32 pieces on the board".to_owned()));
                }
                let k = rank * 9 + file;
                let sq = Square::from_raw_unchecked(k);
                let ghost b0 = pos.board@;
                let ghost mid0 = pos.mid_encoding_val@;
                proof {
                    assert(pos.board[rank * 9 + file] == Piece::NONE);
                }
                pos.put_piece(pc, sq);
                proof {
                    assert forall|p: Piece| p != Piece::NONE implies #[trigger] count_on(
                        pos.board@,
                        p,
                    ) == count_on(b0, p) + (if p == pc {
                        1int
                    } else {
                        0int
                    }) by {
                        lemma_board_sum_update(b0, count_w(p), k as int, pc, 90);
                    }
                    lemma_board_sum_update(b0, mid_w(Color::White), k as int, pc, 90);
                    lemma_board_sum_update(b0, mid_w(Color::Black), k as int, pc, 90);
                    let c = pc.color_of();
                    vstd::arithmetic::div_mod::lemma_add_mod_noop(
                        BALANCE_ENCODING as int + mid_sum(b0, c),
                        mid_mirror_spec(pc, k as int) as int,
                        word(),
                    );
                    vstd::arithmetic::div_mod::lemma_mod_twice(
                        mid_mirror_spec(pc, k as int) as int,
                        word(),
                    );
                    assert(mid_mirror_spec(pc, k as int) as int % word() == mid_mirror_spec(
                        pc,
                        k as int,
                    ) as int);
                }
                file = file + 1;
            }
        }
        let ghost board = pos.board@;
        let mut ci: usize = 0;
        while ci < 2
            invariant
                ci <= 2,
                pos.board@ == board,
                bs == fen.spec_bytes(),
                placement(bs) == Some((board, i as int)),
                forall|p: Piece|
                    p != Piece::NONE ==> #[trigger] pos.piece_count[p.id()] == count_on(board, p),
                forall|p: Piece|
                    p != Piece::NONE && p.color_of().id() < ci ==> #[trigger] count_on(board, p)
                        <= max_count(p.type_of()),
            decreases 2 - ci,
        {
            let c = if ci == 0 {
                Color::White
            } else {
                Color::Black
            };
            let mut ti: usize = 1;
            while ti < 8
                invariant
                    1 <= ti <= 8,
                    ci < 2,
                    c.id() == ci,
                    pos.board@ == board,
                    bs == fen.spec_bytes(),
                    placement(bs) == Some((board, i as int)),
                    forall|p: Piece|
                        p != Piece::NONE ==> #[trigger] pos.piece_count[p.id()] == count_on(board, p),
                    forall|p: Piece|
                        p != Piece::NONE && (p.color_of().id() < ci || (p.color_of().id() == ci
                            && p.type_of().id() < ti)) ==> #[trigger] count_on(board, p)
                            <= max_count(p.type_of()),
                decreases 8 - ti,
            {
                let pt = PieceType::from_index(ti);
                if pos.count_type(c, pt) > max_pieces(pt) {
                    proof {
                        let p = make_piece(c, pt);
                        assert(p != Piece::NONE && p.type_of() == pt && p.color_of() == c);
                        assert(count_on(board, p) > max_count(p.type_of()));
                        assert(!counts_ok(board));
                        assert(placement(bs).unwrap().0 == board);
                    }
                    return Err(
                        FenError::Unsupported("a side has more pieces of a kind than allowed".to_owned()),
                    );
                }
                proof {
                    assert forall|p: Piece|
                        p != Piece::NONE && (p.color_of().id() < ci || (p.color_of().id() == ci
                            && p.type_of().id() < ti + 1)) implies #[trigger] count_on(board, p)
                        <= max_count(p.type_of()) by {
                        if p.color_of().id() == ci && p.type_of().id() == ti {
                            assert(p == make_piece(c, pt));
                        }
                    }
                }
                ti = ti + 1;
            }
            ci = ci + 1;
        }
        if pos.count_type(Color::White, PieceType::King) == 0 || pos.count_type(
            Color::Black,
            PieceType::King,
        ) == 0 {
            return Err(FenError::Unsupported("a king is missing".to_owned()));
        }
        proof {
            assert(counts_ok(board));
            assert(kings_on(board));
            assert(count_on(board, Piece::W_KING) <= 1);
            assert(count_on(board, Piece::B_KING) <= 1);
            assert(make_piece(Color::White, PieceType::King) == Piece::W_KING);
            assert(make_piece(Color::Black, PieceType::King) == Piece::B_KING);
            lemma_kings_from_counts(&pos);
        }
        if i >= b.len() {
            return Err(FenError::Invalid("missing side to move".to_owned()));
        }
        let token = b[i];
        i = i + 1;
        let side = if token == 119 {
            Color::White
        } else if token == 98 {
            Color::Black
        } else {
            return Err(FenError::Invalid("invalid side to move".to_owned()));
        };
        proof {
            assert(fen_reads_numbers(bs));
        }
        i = skip_to_space(b, i);
        i = skip_to_space(b, i);
        i = skip_to_space(b, i);
        let (r60, j) = parse_int(b, i);
        let rule60 = match r60 {
            Some(v) => v,
            None => 0,
        };
        let (fm, _) = parse_int(b, j);
        let fullmove = match fm {
            Some(v) => v,
            None => 1,
        };
        proof {
            assert(i as int == rule60_index(bs));
            assert(rule60 as int == fen_rule60(bs));
            assert(fullmove as int == fen_fullmove(bs));
            assert(magnitude(bs, j as int) <= i32::MAX);
            let k = number_start(bs, j as int);
            assert(magnitude(bs, j as int) == digits_value(bs, k, digits_end(bs, k)));
            if fm is Some {
                let e = digits_end(bs, k);
                assert(e > k);
                assert(0 <= k <= bs.len()) by {
                    assert(0 <= j <= bs.len());
                    lemma_number_start_bounds(bs, j as int);
                }
                lemma_digits_end(bs, k, k);
                lemma_digits_nonneg(bs, k, e);
                assert(read_int(bs, j as int).0 == Some(fullmove as int));
                assert(fullmove as int == digits_value(bs, k, e) || fullmove as int
                    == -digits_value(bs, k, e));
            }
            assert(fullmove > i32::MIN);
        }
        if rule60 < 0 || rule60 > 120 {
            return Err(FenError::Unsupported("rule60 counter out of range".to_owned()));
        }
        pos.side_to_move = side;
        pos.state.rule60 = rule60;
        let before = if fullmove - 1 > 0 {
            fullmove - 1
        } else {
            0
        };
        let black: i32 = if side == Color::Black {
            1
        } else {
            0
        };
        pos.game_ply = (2 * before + black) as u16;
        pos.set_state();
        Ok(pos)
    }

    /// The starting position.
    pub fn start_pos() -> (r: Result<Position, FenError>)
        ensures
            match r {
                Ok(pos) => fen_accepted(start_fen()) && pos.parsed_from(start_fen()),
                Err(FenError::Invalid(_)) => fen_invalid(start_fen()),
                Err(FenError::Unsupported(_)) => fen_unsupported(start_fen()) && !fen_invalid(
                    start_fen(),
                ),
            },
    {
        proof {
            lemma_start_fen_bytes();
            lemma_start_fen_fits();
        }
        Position::from_fen(START_FEN)
    }
}

/// The character of decimal digit `d`.
pub open spec fn digit_char(d: int) -> char {
    ((48 + d) as u8) as char
}

/// The decimal digits of `n`.
pub open spec fn decimal(n: nat) -> Seq<char>
    decreases n,
{
    if n < 10 {
        seq![digit_char(n as int)]
    } else {
        decimal(n / 10) + seq![digit_char((n % 10) as int)]
    }
}

/// `n` in decimal, with a minus sign when negative.
pub open spec fn int_text(n: int) -> Seq<char> {
    if n < 0 {
        seq!['-'] + decimal((-n) as nat)
    } else {
        decimal(n as nat)
    }
}

/// A run of `empty` empty squares, written as its length (nothing for none).
pub open spec fn run_text(empty: int) -> Seq<char> {
    if empty > 0 {
        seq![digit_char(empty)]
    } else {
        seq![]
    }
}

/// Rank `r` from file `f` on, after a run of `empty` empty squares.
pub open spec fn row_text(board: Seq<Piece>, r: int, f: int, empty: int) -> Seq<char>
    decreases 9 - f,
{
    if f >= 9 {
        run_text(empty)
    } else if board[r * 9 + f] == Piece::NONE {
        row_text(board, r, f + 1, empty + 1)
    } else {
        run_text(empty) + seq![piece_char(board[r * 9 + f].id())] + row_text(board, r, f + 1, 0)
    }
}

/// Ranks `r` down to 0, separated by `/`.
pub open spec fn ranks_text(board: Seq<Piece>, r: int) -> Seq<char>
    decreases r + 1,
{
    if r < 0 {
        seq![]
    } else {
        row_text(board, r, 0, 0) + (if r > 0 {
            seq!['/']
        } else {
            seq![]
        }) + ranks_text(board, r - 1)
    }
}

/// Quotient by two, rounded toward zero.
pub open spec fn half_toward_zero(x: int) -> int {
    if x >= 0 {
        x / 2
    } else {
        -((-x) / 2)
    }
}

/// Appends the decimal digits of `n`.
pub(crate) fn push_decimal(s: &mut String, n: u64)
    ensures
        final(s)@ == old(s)@ + decimal(n as nat),
    decreases n,
{
    if n >= 10 {
        push_decimal(s, n / 10);
    }
    let d = (n % 10) as u8;
    push_char(s, (48 + d) as char);
    proof {
        assert(final(s)@ =~= old(s)@ + decimal(n as nat));
    }
}

/// Appends `n` in decimal.
fn push_int(s: &mut String, n: i32)
    ensures
        final(s)@ == old(s)@ + int_text(n as int),
{
    if n < 0 {
        push_char(s, '-');
        let m = (-(n as i64)) as u64;
        push_decimal(s, m);
        proof {
            assert(final(s)@ =~= old(s)@ + int_text(n as int));
        }
    } else {
        push_decimal(s, n as u64);
    }
}

impl Position {
    /// The full-move number written in FEN: one more than half the plies
    /// before the last White move.
    pub open spec fn fullmove_spec(&self) -> int {
        1 + half_toward_zero(
            self.game_ply - (if self.side_to_move == Color::Black {
                1int
            } else {
                0int
            }),
        )
    }

    /// The position in FEN.
    pub open spec fn fen_text(&self) -> Seq<char> {
        ranks_text(self.board@, 9) + seq![
            ' ',
            if self.side_to_move == Color::White {
                'w'
            } else {
                'b'
            },
            ' ',
            '-',
            ' ',
            '-',
            ' ',
        ] + int_text(self.state.rule60 as int) + seq![' '] + int_text(self.fullmove_spec())
    }

    /// Writes the position in FEN.
    pub fn fen(&self) -> (s: String)
        ensures
            s@ == self.fen_text(),
    {
        let ghost b = self.board@;
        let mut s = String::new();
        let mut left: usize = 10;
        while left > 0
            invariant
                left <= 10,
                b == self.board@,
                s@ + ranks_text(b, left - 1) == ranks_text(b, 9),
            decreases left,
        {
            let r = left - 1;
            let ghost before = s@;
            proof {
                assert(ranks_text(b, r as int) == row_text(b, r as int, 0, 0) + (if r > 0 {
                    seq!['/']
                } else {
                    seq![]
                }) + ranks_text(b, r - 1));
            }
            let ghost rest = (if r > 0 {
                seq!['/']
            } else {
                seq![]
            }) + ranks_text(b, r - 1);
            let mut empty: u8 = 0;
            let mut f: usize = 0;
            while f < 9
                invariant
                    f <= 9,
                    r < 10,
                    empty <= f,
                    b == self.board@,
                    s@ + row_text(b, r as int, f as int, empty as int) == before + row_text(
                        b,
                        r as int,
                        0,
                        0,
                    ),
                decreases 9 - f,
            {
                let pc = self.board[r * 9 + f];
                proof {
                    assert(pc == b[r * 9 + f]);
                }
                if pc == Piece::NONE {
                    empty = empty + 1;
                } else {
                    let ghost s0 = s@;
                    let ghost e0 = empty;
                    if empty > 0 {
                        push_char(&mut s, (48 + empty) as char);
                        empty = 0;
                    }
                    push_char(&mut s, pc.to_char());
                    proof {
                        assert(s@ + row_text(b, r as int, f + 1, 0) =~= s0 + row_text(
                            b,
                            r as int,
                            f as int,
                            e0 as int,
                        ));
                    }
                }
                f = f + 1;
            }
            let ghost s_end = s@;
            proof {
                assert(row_text(b, r as int, 9, empty as int) == run_text(empty as int));
                assert(s_end + run_text(empty as int) == before + row_text(b, r as int, 0, 0));
            }
            if empty > 0 {
                push_char(&mut s, (48 + empty) as char);
            }
            if r > 0 {
                push_char(&mut s, '/');
            }
            proof {
                let slash = if r > 0 {
                    seq!['/']
                } else {
                    seq![]
                };
                assert(s@ =~= s_end + run_text(empty as int) + slash);
                assert(s@ + ranks_text(b, r - 1) =~= (s_end + run_text(empty as int)) + (slash
                    + ranks_text(b, r - 1)));
                assert(before + ranks_text(b, r as int) =~= (before + row_text(b, r as int, 0, 0))
                    + (slash + ranks_text(b, r - 1)));
                assert(s@ + ranks_text(b, r - 1) =~= ranks_text(b, 9));
            }
            left = r;
        }
        push_char(&mut s, ' ');
        push_char(
            &mut s,
            if self.side_to_move == Color::White {
                'w'
            } else {
                'b'
            },
        );
        push_char(&mut s, ' ');
        push_char(&mut s, '-');
        push_char(&mut s, ' ');
        push_char(&mut s, '-');
        push_char(&mut s, ' ');
        push_int(&mut s, self.state.rule60);
        push_char(&mut s, ' ');
        let black: i32 = if self.side_to_move == Color::Black {
            1
        } else {
            0
        };
        let fullmove = 1 + (self.game_ply as i32 - black) / 2;
        push_int(&mut s, fullmove);
        proof {
            assert(s@ =~= self.fen_text());
        }
        s
    }
}

} // verus!
