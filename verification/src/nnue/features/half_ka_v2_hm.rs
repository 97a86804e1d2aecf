//! The HalfKAv2_hm piece-square feature set: king buckets, mirroring, and
//! feature indices.

use vstd::prelude::*;

use crate::bitboard::tables::{in_half, in_palace, in_pawn_zone};
use crate::bitboard::{Bitboard, file_bb, half_bb, palace, pawn_bb, rank_bb};
use crate::position::Position;
use crate::types::{Color, Piece, PieceType, Square, file_of, make_piece, on_board, rank_of};
use super::index_list::{IndexList, MAX_ACTIVE};

verus! {

/// Hash of the feature set's layout.
pub const HASH_VALUE: u32 = 0x7f23_4cb8;

/// Number of piece-square features per bucket.
pub const PS_NB: u32 = 689;

/// Number of attack buckets.
pub const ATTACK_BUCKET_NB: u32 = 4;

/// Number of king buckets.
pub const KING_BUCKET_NB: u32 = 6;

/// Number of features: every bucket pair times the piece-square features.
pub const DIMENSIONS: u32 = KING_BUCKET_NB * ATTACK_BUCKET_NB * PS_NB;

/// Most features active at once.
pub const MAX_ACTIVE_DIMENSIONS: usize = 32;

/// The pieces in feature order: white rook to king, then black.
pub const ALL_PIECES: [Piece; 14] = [
    Piece::W_ROOK,
    Piece::W_ADVISOR,
    Piece::W_CANNON,
    Piece::W_PAWN,
    Piece::W_KNIGHT,
    Piece::W_BISHOP,
    Piece::W_KING,
    Piece::B_ROOK,
    Piece::B_ADVISOR,
    Piece::B_CANNON,
    Piece::B_PAWN,
    Piece::B_KNIGHT,
    Piece::B_BISHOP,
    Piece::B_KING,
];

/// The pieces in feature order, as a sequence.
pub open spec fn feature_pieces() -> Seq<Piece> {
    seq![
        Piece::W_ROOK,
        Piece::W_ADVISOR,
        Piece::W_CANNON,
        Piece::W_PAWN,
        Piece::W_KNIGHT,
        Piece::W_BISHOP,
        Piece::W_KING,
        Piece::B_ROOK,
        Piece::B_ADVISOR,
        Piece::B_CANNON,
        Piece::B_PAWN,
        Piece::B_KNIGHT,
        Piece::B_BISHOP,
        Piece::B_KING,
    ]
}

/// The pieces in feature order.
pub fn all_pieces() -> (a: [Piece; 14])
    ensures
        a@ == feature_pieces(),
{
    let a = [
        Piece::W_ROOK,
        Piece::W_ADVISOR,
        Piece::W_CANNON,
        Piece::W_PAWN,
        Piece::W_KNIGHT,
        Piece::W_BISHOP,
        Piece::W_KING,
        Piece::B_ROOK,
        Piece::B_ADVISOR,
        Piece::B_CANNON,
        Piece::B_PAWN,
        Piece::B_KNIGHT,
        Piece::B_BISHOP,
        Piece::B_KING,
    ];
    proof {
        assert(a@ =~= feature_pieces());
    }
    a
}

/// Squares where piece `pc` can stand, and so has a feature: anywhere for
/// rooks, cannons and knights; the pawn zones; the advisors' five and the
/// bishops' seven points of their own side; the palace for a black king,
/// and for a white king its part off the f-file.
pub open spec fn valid_sq(pc: Piece, s: int) -> bool {
    let f = file_of(s);
    let r = rank_of(s);
    on_board(s) && match pc {
        Piece::W_ROOK | Piece::B_ROOK | Piece::W_CANNON | Piece::B_CANNON | Piece::W_KNIGHT
        | Piece::B_KNIGHT => true,
        Piece::W_ADVISOR => ((r == 0 || r == 2) && (f == 3 || f == 5)) || (r == 1 && f == 4),
        Piece::B_ADVISOR => ((r == 7 || r == 9) && (f == 3 || f == 5)) || (r == 8 && f == 4),
        Piece::W_BISHOP => ((r == 0 || r == 4) && (f == 2 || f == 6)) || (r == 2 && (f == 0 || f
            == 4 || f == 8)),
        Piece::B_BISHOP => ((r == 5 || r == 9) && (f == 2 || f == 6)) || (r == 7 && (f == 0 || f
            == 4 || f == 8)),
        Piece::W_PAWN => in_pawn_zone(Color::White, s),
        Piece::B_PAWN => in_pawn_zone(Color::Black, s),
        Piece::W_KING => in_half(Color::White, s) && in_palace(s) && f != 5,
        Piece::B_KING => in_half(Color::Black, s) && in_palace(s),
        _ => false,
    }
}

/// For each piece index, the squares where that piece has a feature
/// (nothing for the unused indices).
pub fn compute_valid_bb() -> (bb: [Bitboard; 16])
    ensures
        forall|pc: Piece, s: int| pc != Piece::NONE ==> #[trigger] bb[pc.id()].has(s) == valid_sq(pc, s),
        forall|i: int| 0 <= i < 16 ==> #[trigger] bb[i].wf(),
        bb[0].0 == 0,
        bb[8].0 == 0,
{
    let full = half_bb(Color::White).or(half_bb(Color::Black));
    let w_advisor = rank_bb(0).or(rank_bb(2)).and(file_bb(3).or(file_bb(5))).or(
        rank_bb(1).and(file_bb(4)),
    );
    let b_advisor = rank_bb(7).or(rank_bb(9)).and(file_bb(3).or(file_bb(5))).or(
        rank_bb(8).and(file_bb(4)),
    );
    let w_bishop = rank_bb(0).or(rank_bb(4)).and(file_bb(2).or(file_bb(6))).or(
        rank_bb(2).and(file_bb(0).or(file_bb(4)).or(file_bb(8))),
    );
    let b_bishop = rank_bb(5).or(rank_bb(9)).and(file_bb(2).or(file_bb(6))).or(
        rank_bb(7).and(file_bb(0).or(file_bb(4)).or(file_bb(8))),
    );
    let w_king = half_bb(Color::White).and(palace()).and(file_bb(5).complement());
    let b_king = half_bb(Color::Black).and(palace());
    let e = Bitboard::empty();
    let bb = [
        e,
        full,
        w_advisor,
        full,
        pawn_bb(Color::White),
        full,
        w_bishop,
        w_king,
        e,
        full,
        b_advisor,
        full,
        pawn_bb(Color::Black),
        full,
        b_bishop,
        b_king,
    ];
    proof {
        assert forall|pc: Piece, s: int| pc != Piece::NONE implies #[trigger] bb[pc.id()].has(s)
            == valid_sq(pc, s) by {
            crate::bitboard::bitboard::lemma_board_bits(full.0, s);
        }
    }
    bb
}

/// The number of squares below `n` where `pc` has a feature.
pub open spec fn valid_count(pc: Piece, n: int) -> int
    decreases n,
{
    if n <= 0 {
        0
    } else {
        valid_count(pc, n - 1) + if valid_sq(pc, n - 1) {
            1int
        } else {
            0int
        }
    }
}

/// The features of the first `k` pieces in feature order.
pub open spec fn psq_base(k: int) -> int
    decreases k,
{
    if k <= 0 {
        0
    } else {
        psq_base(k - 1) + valid_count(feature_pieces()[k - 1], 90)
    }
}

proof fn lemma_valid_count_bounds(pc: Piece, n: int)
    requires
        0 <= n,
    ensures
        0 <= valid_count(pc, n) <= n,
    decreases n,
{
    if n > 0 {
        lemma_valid_count_bounds(pc, n - 1);
    }
}

proof fn lemma_psq_base_bounds(k: int)
    requires
        0 <= k,
    ensures
        0 <= psq_base(k) <= 90 * k,
    decreases k,
{
    if k > 0 {
        lemma_psq_base_bounds(k - 1);
        lemma_valid_count_bounds(feature_pieces()[k - 1], 90);
    }
}

/// The feature offset of the `k`-th piece (in feature order) on `s`:
/// features are numbered piece by piece, square by square.
pub open spec fn psq_rank(k: int, s: int) -> int {
    psq_base(k) + valid_count(feature_pieces()[k], s)
}

/// The feature offset of `pc` on `s`, or 0 where `pc` has no feature.
pub open spec fn psq_offset(pc: Piece, s: int) -> int {
    if pc != Piece::NONE && valid_sq(pc, s) {
        psq_rank(feature_index(pc), s)
    } else {
        0
    }
}

/// The place of a piece in feature order.
pub open spec fn feature_index(pc: Piece) -> int {
    if pc.color_of() == Color::White {
        pc.id() - 1
    } else {
        pc.id() - 2
    }
}

/// For each piece index and square, the feature offset of that piece there
/// (see `psq_offset`).
pub fn compute_psq_offsets() -> (offsets: [[u16; 90]; 16])
    ensures
        forall|pc: Piece, s: int| 0 <= s < 90 ==> #[trigger] offsets[pc.id()][s] == psq_offset(pc, s),
{
    let pieces = all_pieces();
    let valid_bb = compute_valid_bb();
    let mut offsets = [[0u16; 90]; 16];
    let mut cumulative: u16 = 0;
    let mut k: usize = 0;
    while k < 14
        invariant
            k <= 14,
            pieces@ == feature_pieces(),
            cumulative == psq_base(k as int),
            forall|pc: Piece, s: int| pc != Piece::NONE ==> #[trigger] valid_bb[pc.id()].has(s) == valid_sq(pc, s),
            forall|pc: Piece, s: int|
                0 <= s < 90 && (pc == Piece::NONE || feature_index(pc) >= k) ==> #[trigger] offsets[pc.id()][s] == 0,
            forall|pc: Piece, s: int|
                0 <= s < 90 && pc != Piece::NONE && feature_index(pc) < k ==> #[trigger] offsets[pc.id()][s] == psq_offset(pc, s),
        decreases 14 - k,
    {
        let pc = pieces[k];
        proof {
            lemma_psq_base_bounds(k as int);
            assert(feature_index(pc) == k);
        }
        let mut row = [0u16; 90];
        let mut s: usize = 0;
        while s < 90
            invariant
                s <= 90,
                k < 14,
                pc == feature_pieces()[k as int],
                feature_index(pc) == k,
                cumulative == psq_base(k as int) + valid_count(pc, s as int),
                psq_base(k as int) <= 90 * k,
                forall|q: Piece, t: int| q != Piece::NONE ==> #[trigger] valid_bb[q.id()].has(t) == valid_sq(q, t),
                forall|t: int| 0 <= t < s ==> #[trigger] row[t] == (if valid_sq(pc, t) {
                    psq_rank(k as int, t)
                } else {
                    0
                }),
                forall|t: int| s <= t < 90 ==> #[trigger] row[t] == 0,
            decreases 90 - s,
        {
            proof {
                lemma_valid_count_bounds(pc, s as int);
            }
            let sq = Square::from_raw_unchecked(s as u8);
            if valid_bb[pc.index()].contains(sq) {
                row[s] = cumulative;
                cumulative = cumulative + 1;
            }
            s = s + 1;
        }
        offsets[pc.index()] = row;
        k = k + 1;
    }
    offsets
}

/// The raw king bucket of a king on square `s`: the bucket in the low three
/// bits, and bit 3 set on the f-file, where the board is mirrored.
pub open spec fn king_bucket_raw_spec(s: int) -> u8 {
    if s == 3 || s == 84 {
        0
    } else if s == 4 || s == 85 {
        1
    } else if s == 5 || s == 86 {
        8
    } else if s == 12 || s == 75 {
        2
    } else if s == 13 || s == 76 {
        3
    } else if s == 14 || s == 77 {
        10
    } else if s == 21 || s == 66 {
        4
    } else if s == 22 || s == 67 {
        5
    } else if s == 23 || s == 68 {
        12
    } else {
        0
    }
}

fn king_bucket_raw(s: usize) -> (r: u8)
    ensures
        r == king_bucket_raw_spec(s as int),
{
    match s {
        3 | 84 => 0,
        4 | 85 => 1,
        5 | 86 => 8,
        12 | 75 => 2,
        13 | 76 => 3,
        14 | 77 => 10,
        21 | 66 => 4,
        22 | 67 => 5,
        23 | 68 => 12,
        _ => 0,
    }
}

/// A king's bucket and whether the board is mirrored for it.
#[derive(Clone, Copy)]
pub struct KingBucketEntry {
    pub king_bucket: u8,
    pub mirror: bool,
}

/// The bucket of a king on `ksq` facing one on `oksq`: the board is
/// mirrored for a king on the f-file, and for one on an odd bucket when the
/// other king stands on the f-file, or on an odd bucket too and `midm` asks
/// for it.
pub open spec fn king_bucket_spec(ksq: int, oksq: int, midm: int) -> KingBucketEntry {
    let raw = king_bucket_raw_spec(ksq);
    let king_bucket = raw & 7u8;
    let oraw = king_bucket_raw_spec(oksq);
    let oking_bucket = oraw & 7u8;
    KingBucketEntry {
        king_bucket,
        mirror: (raw >> 3u8) != 0u8 || ((king_bucket & 1u8) != 0u8 && ((oraw >> 3u8) != 0u8 || ((
        oking_bucket & 1u8) != 0u8 && midm != 0))),
    }
}

fn king_bucket_entry(ksq: usize, oksq: usize, midm: usize) -> (e: KingBucketEntry)
    ensures
        e == king_bucket_spec(ksq as int, oksq as int, midm as int),
{
    let raw = king_bucket_raw(ksq);
    let king_bucket = raw & 0x7;
    let oking_raw = king_bucket_raw(oksq);
    let oking_bucket = oking_raw & 0x7;
    let mirror = (raw >> 3) != 0 || ((king_bucket & 1) != 0 && ((oking_raw >> 3) != 0
        || ((oking_bucket & 1) != 0 && midm != 0)));
    KingBucketEntry { king_bucket, mirror }
}

/// For each king square, opposing king square and mid-mirror flag, the
/// king bucket entry (see `king_bucket_spec`).
pub fn compute_king_buckets() -> (table: Vec<Vec<[KingBucketEntry; 2]>>)
    ensures
        table@.len() == 90,
        forall|k: int| 0 <= k < 90 ==> #[trigger] table@[k]@.len() == 90,
        forall|k: int, o: int, m: int|
            0 <= k < 90 && 0 <= o < 90 && 0 <= m < 2 ==> #[trigger] table@[k]@[o][m]
                == king_bucket_spec(k, o, m),
{
    let mut table: Vec<Vec<[KingBucketEntry; 2]>> = Vec::new();
    let mut ksq: usize = 0;
    while ksq < 90
        invariant
            ksq <= 90,
            table@.len() == ksq,
            forall|k: int| 0 <= k < ksq ==> #[trigger] table@[k]@.len() == 90,
            forall|k: int, o: int, m: int|
                0 <= k < ksq && 0 <= o < 90 && 0 <= m < 2 ==> #[trigger] table@[k]@[o][m]
                    == king_bucket_spec(k, o, m),
        decreases 90 - ksq,
    {
        let mut row: Vec<[KingBucketEntry; 2]> = Vec::new();
        let mut oksq: usize = 0;
        while oksq < 90
            invariant
                oksq <= 90,
                ksq < 90,
                row@.len() == oksq,
                forall|o: int, m: int|
                    0 <= o < oksq && 0 <= m < 2 ==> #[trigger] row@[o][m] == king_bucket_spec(
                        ksq as int,
                        o,
                        m,
                    ),
            decreases 90 - oksq,
        {
            let pair = [king_bucket_entry(ksq, oksq, 0), king_bucket_entry(ksq, oksq, 1)];
            row.push(pair);
            oksq = oksq + 1;
        }
        table.push(row);
        ksq = ksq + 1;
    }
    table
}

/// The square that feature `s` is read from: reflected across the central
/// file when `mirror`, and across the river for black's perspective.
pub open spec fn index_map_spec(mirror: bool, is_black: bool, s: int) -> int {
    let f = if mirror {
        8 - file_of(s)
    } else {
        file_of(s)
    };
    let r = if is_black {
        9 - rank_of(s)
    } else {
        rank_of(s)
    };
    r * 9 + f
}

/// For each mirror flag, perspective and square, the mapped square (see
/// `index_map_spec`).
pub fn compute_index_map() -> (v: [[[u8; 90]; 2]; 2])
    ensures
        forall|m: int, r: int, s: int|
            0 <= m < 2 && 0 <= r < 2 && 0 <= s < 90 ==> #[trigger] v[m][r][s] == index_map_spec(
                m == 1,
                r == 1,
                s,
            ),
{
    let t00 = index_map_row(false, false);
    let t01 = index_map_row(false, true);
    let t10 = index_map_row(true, false);
    let t11 = index_map_row(true, true);
    [[t00, t01], [t10, t11]]
}

fn index_map_row(mirror: bool, is_black: bool) -> (row: [u8; 90])
    ensures
        forall|s: int| 0 <= s < 90 ==> #[trigger] row[s] == index_map_spec(mirror, is_black, s),
{
    let mut row = [0u8; 90];
    let mut s: usize = 0;
    while s < 90
        invariant
            s <= 90,
            forall|t: int| 0 <= t < s ==> #[trigger] row[t] == index_map_spec(mirror, is_black, t),
        decreases 90 - s,
    {
        row[s] = index_map(mirror, is_black, Square::from_raw_unchecked(s as u8));
        s = s + 1;
    }
    row
}

/// The square that the feature of `sq` is read from (see `index_map_spec`).
pub fn index_map(mirror: bool, is_black: bool, sq: Square) -> (r: u8)
    requires
        sq.valid(),
    ensures
        r == index_map_spec(mirror, is_black, sq.id()),
        r < 90,
{
    let mut ss = sq;
    if mirror {
        ss = ss.flip_file();
    }
    if is_black {
        ss = ss.flip_rank();
    }
    ss.raw()
}

/// The mid-mirror encoding of an empty, balanced board.
pub const BALANCE_ENCODING: u64 = 0xa4a9_2a74_e989_d3a7;

/// Shift pair `(s1, s2)` of a piece type in the mid-mirror encoding.
pub open spec fn mirror_shifts(pt: PieceType) -> (u64, u64) {
    match pt {
        PieceType::Rook => (44, 0),
        PieceType::Advisor => (60, 36),
        PieceType::Cannon => (47, 7),
        PieceType::Pawn => (53, 21),
        PieceType::Knight => (50, 14),
        PieceType::Bishop => (57, 29),
        PieceType::King => (0, 0),
    }
}

/// Contribution of piece `pc` on square `s` to its side's mid-mirror
/// encoding. Nothing on the central file; the top bit for a king off it;
/// otherwise `2^s1 + v * 2^s2`, where `v` numbers the square counted from the
/// central file towards the edge and from the side's own back rank, negated
/// (modulo 2^64) on the right-hand side of the board.
pub open spec fn mid_mirror_spec(pc: Piece, s: int) -> u64 {
    let f = file_of(s);
    let r = rank_of(s);
    if f == 4 {
        0
    } else if pc.type_of() == PieceType::King {
        0x8000_0000_0000_0000u64
    } else {
        let r2 = if pc.color_of() == Color::White {
            r
        } else {
            9 - r
        };
        let f2 = if f < 4 {
            f
        } else {
            8 - f
        };
        let (s1, s2) = mirror_shifts(pc.type_of());
        let v = ((3 - f2) * 10 + r2) as u64;
        let e = (1u64 << s1) | (v << s2);
        if f < 4 {
            e
        } else {
            ((0x1_0000_0000_0000_0000int - e) % 0x1_0000_0000_0000_0000int) as u64
        }
    }
}

/// The mid-mirror contribution of `pc` on `sq`; zero for an empty square.
pub fn mid_mirror_encoding(pc: Piece, sq: Square) -> (e: u64)
    requires
        sq.valid(),
    ensures
        pc != Piece::NONE ==> e == mid_mirror_spec(pc, sq.id()),
        pc == Piece::NONE ==> e == 0,
{
    if pc == Piece::NONE {
        return 0;
    }
    let f = sq.raw() % 9;
    let r = sq.raw() / 9;
    let pt = pc.piece_type();
    if f == 4 {
        return 0;
    }
    if pt == PieceType::King {
        return 0x8000_0000_0000_0000u64;
    }
    let r2: u64 = if pc.color() == Color::White {
        r as u64
    } else {
        (9 - r) as u64
    };
    let f2: u64 = if f < 4 {
        f as u64
    } else {
        (8 - f) as u64
    };
    let (s1, s2): (u64, u64) = match pt {
        PieceType::Rook => (44, 0),
        PieceType::Advisor => (60, 36),
        PieceType::Cannon => (47, 7),
        PieceType::Pawn => (53, 21),
        PieceType::Knight => (50, 14),
        PieceType::Bishop => (57, 29),
        PieceType::King => (0, 0),
    };
    let v: u64 = (3 - f2) * 10 + r2;
    let e = (1u64 << s1) | (v << s2);
    if f < 4 {
        e
    } else {
        0u64.wrapping_sub(e)
    }
}

/// For each piece index and square, the mid-mirror contribution of that
/// piece there (zero for the unused indices).
pub fn compute_mid_mirror_encoding() -> (encodings: [[u64; 90]; 16])
    ensures
        forall|pc: Piece, s: int|
            0 <= s < 90 && pc != Piece::NONE ==> #[trigger] encodings[pc.id()][s] == mid_mirror_spec(pc, s),
        forall|s: int| 0 <= s < 90 ==> #[trigger] encodings[0][s] == 0 && encodings[8][s] == 0,
{
    let pieces = all_pieces();
    let mut encodings = [[0u64; 90]; 16];
    let mut k: usize = 0;
    while k < 14
        invariant
            k <= 14,
            pieces@ == feature_pieces(),
            forall|pc: Piece, s: int|
                0 <= s < 90 && pc != Piece::NONE && feature_index(pc) < k ==> #[trigger] encodings[pc.id()][s]
                    == mid_mirror_spec(pc, s),
            forall|s: int| 0 <= s < 90 ==> #[trigger] encodings[0][s] == 0,
            forall|s: int| 0 <= s < 90 ==> #[trigger] encodings[8][s] == 0,
        decreases 14 - k,
    {
        let pc = pieces[k];
        proof {
            assert(feature_index(pc) == k);
            assert(pc.id() != 0 && pc.id() != 8);
        }
        let mut row = [0u64; 90];
        let mut s: usize = 0;
        while s < 90
            invariant
                s <= 90,
                pc != Piece::NONE,
                forall|t: int| 0 <= t < s ==> #[trigger] row[t] == mid_mirror_spec(pc, t),
            decreases 90 - s,
        {
            row[s] = mid_mirror_encoding(pc, Square::from_raw_unchecked(s as u8));
            s = s + 1;
        }
        encodings[pc.index()] = row;
        k = k + 1;
    }
    encodings
}

/// Whether the board is mirrored for `c` when both kings stand off the
/// central file: when `c`'s mid-mirror encoding is below the balance, or
/// equal to it with the opponent's below.
pub open spec fn requires_mid_mirror_spec(my_enc: u64, opp_enc: u64) -> bool {
    (0x8000_0000_0000_0000u64 & my_enc & opp_enc) != 0 && (my_enc < BALANCE_ENCODING || (my_enc
        == BALANCE_ENCODING && opp_enc < BALANCE_ENCODING))
}

pub fn requires_mid_mirror(pos: &Position, c: Color) -> (r: bool)
    ensures
        r == requires_mid_mirror_spec(pos.mid_encoding_val[c.id()], pos.mid_encoding_val[c.opp().id()]),
{
    let my_enc = pos.mid_encoding(c);
    let opp_enc = pos.mid_encoding(c.flip());
    (0x8000_0000_0000_0000u64 & my_enc & opp_enc) != 0 && (my_enc < BALANCE_ENCODING || (my_enc
        == BALANCE_ENCODING && opp_enc < BALANCE_ENCODING))
}

/// The attack bucket of `c`: 2 with a rook, plus 1 with a knight or cannon.
pub open spec fn attack_bucket_spec(pos: &Position, c: Color) -> int {
    (if pos.cnt(c, PieceType::Rook) > 0 {
        2int
    } else {
        0int
    }) + (if pos.cnt(c, PieceType::Knight) + pos.cnt(c, PieceType::Cannon) > 0 {
        1int
    } else {
        0int
    })
}

pub fn make_attack_bucket(pos: &Position, c: Color) -> (b: u32)
    ensures
        b == attack_bucket_spec(pos, c),
        b < 4,
{
    let rook_count = pos.count_type(c, PieceType::Rook);
    let knight_count = pos.count_type(c, PieceType::Knight) as u16;
    let cannon_count = pos.count_type(c, PieceType::Cannon) as u16;
    (if rook_count > 0 {
        2u32
    } else {
        0u32
    }) + (if knight_count + cannon_count > 0 {
        1u32
    } else {
        0u32
    })
}

/// The feature bucket of `perspective`: its king bucket (see
/// `king_bucket_spec`, mid-mirrored per `requires_mid_mirror_spec`) times
/// the attack buckets, plus its attack bucket; with the mirror flag and
/// the attack bucket.
pub open spec fn feature_bucket_spec(perspective: Color, pos: &Position) -> (u32, bool, u32) {
    let midm = requires_mid_mirror_spec(
        pos.mid_encoding_val[perspective.id()],
        pos.mid_encoding_val[perspective.opp().id()],
    );
    let entry = king_bucket_spec(
        pos.king_sq(perspective),
        pos.king_sq(perspective.opp()),
        if midm {
            1
        } else {
            0
        },
    );
    let attack = attack_bucket_spec(pos, perspective);
    (
        (entry.king_bucket as int * ATTACK_BUCKET_NB + attack) as u32,
        entry.mirror,
        attack as u32,
    )
}

pub fn make_feature_bucket(perspective: Color, pos: &Position) -> (r: (u32, bool, u32))
    requires
        pos.valid(),
    ensures
        r == feature_bucket_spec(perspective, pos),
        r.0 < 32,
{
    let ksq = pos.king_square(perspective);
    let oksq = pos.king_square(perspective.flip());
    let mid_mirror = requires_mid_mirror(pos, perspective);
    let entry = king_bucket_entry(ksq.index(), oksq.index(), if mid_mirror {
        1
    } else {
        0
    });
    let king_bucket = entry.king_bucket as u32;
    let mirror = entry.mirror;
    let attack_bucket = make_attack_bucket(pos, perspective);
    proof {
        let raw = king_bucket_raw_spec(ksq.id());
        assert(raw & 7u8 <= 7u8) by (bit_vector);
    }
    let bucket = king_bucket * ATTACK_BUCKET_NB + attack_bucket;
    (bucket, mirror, attack_bucket)
}

/// The layer-stack bucket for rook counts `us_rook`, `opp_rook` and
/// knight-and-cannon counts `us_kc`, `opp_kc`: with equal rooks, four per
/// rook plus 2 for four or more minor attackers in all and 1 for equal
/// counts; otherwise 12 for two rooks against one, 13 for one against two,
/// 14 for rooks against none, 15 for none against rooks.
pub open spec fn layer_stack_bucket_spec(us_rook: int, opp_rook: int, us_kc: int, opp_kc: int) -> int {
    if us_rook == opp_rook {
        us_rook * 4 + (if us_kc + opp_kc >= 4 {
            2int
        } else {
            0int
        }) + (if us_kc == opp_kc {
            1int
        } else {
            0int
        })
    } else if us_rook == 2 && opp_rook == 1 {
        12
    } else if us_rook == 1 && opp_rook == 2 {
        13
    } else if us_rook > 0 && opp_rook == 0 {
        14
    } else {
        15
    }
}

/// One entry of the layer-stack bucket table (see `layer_stack_bucket_spec`).
pub fn layer_stack_bucket(us_rook: usize, opp_rook: usize, us_kc: usize, opp_kc: usize) -> (b: u8)
    requires
        us_rook < 3,
        opp_rook < 3,
        us_kc < 5,
        opp_kc < 5,
    ensures
        b == layer_stack_bucket_spec(us_rook as int, opp_rook as int, us_kc as int, opp_kc as int),
        b < 16,
{
    if us_rook == opp_rook {
        (us_rook * 4 + (if us_kc + opp_kc >= 4 {
            2
        } else {
            0
        }) + (if us_kc == opp_kc {
            1
        } else {
            0
        })) as u8
    } else if us_rook == 2 && opp_rook == 1 {
        12
    } else if us_rook == 1 && opp_rook == 2 {
        13
    } else if us_rook > 0 && opp_rook == 0 {
        14
    } else {
        15
    }
}

/// The layer stack used for `pos`, from the side to move's point of view.
pub fn make_layer_stack_bucket(pos: &Position) -> (b: u32)
    requires
        pos.cnt(pos.side_to_move, PieceType::Rook) < 3,
        pos.cnt(pos.side_to_move.opp(), PieceType::Rook) < 3,
        pos.cnt(pos.side_to_move, PieceType::Knight) + pos.cnt(pos.side_to_move, PieceType::Cannon) < 5,
        pos.cnt(pos.side_to_move.opp(), PieceType::Knight) + pos.cnt(
            pos.side_to_move.opp(),
            PieceType::Cannon,
        ) < 5,
    ensures
        b == layer_stack_bucket_spec(
            pos.cnt(pos.side_to_move, PieceType::Rook),
            pos.cnt(pos.side_to_move.opp(), PieceType::Rook),
            pos.cnt(pos.side_to_move, PieceType::Knight) + pos.cnt(pos.side_to_move, PieceType::Cannon),
            pos.cnt(pos.side_to_move.opp(), PieceType::Knight) + pos.cnt(
                pos.side_to_move.opp(),
                PieceType::Cannon,
            ),
        ),
{
    let us = pos.side_to_move();
    let them = us.flip();
    let us_rook = pos.count_type(us, PieceType::Rook) as usize;
    let opp_rook = pos.count_type(them, PieceType::Rook) as usize;
    let us_kc = pos.count_type(us, PieceType::Knight) as usize + pos.count_type(us, PieceType::Cannon) as usize;
    let opp_kc = pos.count_type(them, PieceType::Knight) as usize + pos.count_type(
        them,
        PieceType::Cannon,
    ) as usize;
    layer_stack_bucket(us_rook, opp_rook, us_kc, opp_kc) as u32
}

/// The piece as seen from the other side.
pub open spec fn flip_piece(pc: Piece) -> Piece {
    make_piece(pc.color_of().opp(), pc.type_of())
}

/// The feature index of `pc` on `s` for `perspective`, in `bucket`: the
/// square mapped (see `index_map_spec`), the piece seen from black's side
/// for black, its offset (see `psq_offset`), plus `PS_NB` per bucket.
pub open spec fn make_index_spec(perspective: Color, s: int, pc: Piece, bucket: int, mirror: bool) -> int {
    let black = perspective == Color::Black;
    let mapped_pc = if black {
        flip_piece(pc)
    } else {
        pc
    };
    psq_offset(mapped_pc, index_map_spec(mirror, black, s)) + PS_NB * bucket
}

pub fn make_index(perspective: Color, sq: Square, pc: Piece, bucket: u32, mirror: bool) -> (r: u32)
    requires
        sq.valid(),
        pc != Piece::NONE,
        make_index_spec(perspective, sq.id(), pc, bucket as int, mirror) <= u32::MAX,
    ensures
        r == make_index_spec(perspective, sq.id(), pc, bucket as int, mirror),
{
    let black = perspective == Color::Black;
    let mapped_sq = index_map(mirror, black, sq);
    let mapped_pc = if black {
        pc.flip_color()
    } else {
        pc
    };
    let offsets = compute_psq_offsets();
    let offset = offsets[mapped_pc.index()][mapped_sq as usize];
    offset as u32 + PS_NB * bucket
}

/// Feature offsets stay below the number of features of all pieces.
pub proof fn lemma_psq_offset_bound(pc: Piece, s: int)
    requires
        0 <= s < 90,
    ensures
        0 <= psq_offset(pc, s) <= 1260,
{
    if pc != Piece::NONE && valid_sq(pc, s) {
        let k = feature_index(pc);
        assert(0 <= k < 14);
        lemma_psq_base_bounds(k);
        lemma_valid_count_bounds(feature_pieces()[k], s);
    }
}

/// The feature indices of the pieces on the first `n` squares, square by
/// square, for `perspective` in `bucket`.
pub open spec fn active_indices(
    pos: &Position,
    perspective: Color,
    bucket: int,
    mirror: bool,
    n: int,
) -> Seq<u32>
    decreases n,
{
    if n <= 0 {
        Seq::empty()
    } else {
        let prev = active_indices(pos, perspective, bucket, mirror, n - 1);
        if pos.board[n - 1] != Piece::NONE {
            prev.push(make_index_spec(perspective, n - 1, pos.board[n - 1], bucket, mirror) as u32)
        } else {
            prev
        }
    }
}

proof fn lemma_active_skip(pos: &Position, perspective: Color, bucket: int, mirror: bool, a: int, b: int)
    requires
        0 <= a <= b <= 90,
        forall|t: int| a <= t < b ==> #[trigger] pos.board[t] == Piece::NONE,
    ensures
        active_indices(pos, perspective, bucket, mirror, b) == active_indices(
            pos,
            perspective,
            bucket,
            mirror,
            a,
        ),
    decreases b - a,
{
    if a < b {
        assert(pos.board[b - 1] == Piece::NONE);
        lemma_active_skip(pos, perspective, bucket, mirror, a, b - 1);
    }
}

/// Appends to `active` the feature index of every piece on the board, in
/// square order, for `perspective` in its feature bucket.
pub fn append_active_indices(pos: &Position, perspective: Color, active: &mut IndexList)
    requires
        pos.valid(),
        old(active).wf(),
        old(active)@.len() + pos.occ()@.len() <= MAX_ACTIVE,
    ensures
        final(active).wf(),
        final(active)@ == old(active)@ + active_indices(
            pos,
            perspective,
            feature_bucket_spec(perspective, pos).0 as int,
            feature_bucket_spec(perspective, pos).1,
            90,
        ),
{
    let (bucket, mirror, _) = make_feature_bucket(perspective, pos);
    let occupied = pos.all_pieces();
    let mut bb = occupied;
    let ghost mut next: int = 0;
    proof {
        occupied.lemma_finite();
        assert(active_indices(pos, perspective, bucket as int, mirror, 0) =~= Seq::<u32>::empty());
        assert(active@ =~= old(active)@ + active_indices(pos, perspective, bucket as int, mirror, 0));
    }
    while bb.is_not_empty()
        invariant
            pos.valid(),
            active.wf(),
            bb.wf(),
            occupied == pos.occ(),
            occupied.wf(),
            occupied@.finite(),
            0 <= next <= 90,
            bucket < 32,
            forall|t: int| #[trigger] bb.has(t) == (occupied.has(t) && t >= next),
            forall|t: int| 0 <= t < 90 ==> (#[trigger] occupied.has(t) == (pos.board[t] != Piece::NONE)),
            bb@.finite(),
            bb@.subset_of(occupied@),
            active@.len() + bb@.len() <= MAX_ACTIVE,
            active@ == old(active)@ + active_indices(pos, perspective, bucket as int, mirror, next),
        decreases bb@.len(),
    {
        let ghost prev_bb = bb;
        let sq = bb.pop_lsb();
        proof {
            assert forall|t: int| next <= t < sq.id() implies #[trigger] pos.board[t] == Piece::NONE by {
                if pos.board[t] != Piece::NONE {
                    assert(prev_bb.has(t));
                }
            }
            lemma_active_skip(pos, perspective, bucket as int, mirror, next, sq.id());
            lemma_psq_offset_bound(
                if perspective == Color::Black {
                    flip_piece(pos.board[sq.id()])
                } else {
                    pos.board[sq.id()]
                },
                index_map_spec(mirror, perspective == Color::Black, sq.id()),
            );
            assert(bb@.subset_of(occupied@));
        }
        let pc = pos.piece_on(sq);
        if pc == Piece::NONE {
            proof {
                next = sq.id() + 1;
                assert(active_indices(pos, perspective, bucket as int, mirror, next) == active_indices(
                    pos,
                    perspective,
                    bucket as int,
                    mirror,
                    sq.id(),
                ));
            }
            continue;
        }
        let idx = make_index(perspective, sq, pc, bucket, mirror);
        active.push(idx);
        proof {
            next = sq.id() + 1;
            assert(active@ =~= old(active)@ + active_indices(
                pos,
                perspective,
                bucket as int,
                mirror,
                next,
            ));
        }
    }
    proof {
        assert forall|t: int| next <= t < 90 implies #[trigger] pos.board[t] == Piece::NONE by {
            if pos.board[t] != Piece::NONE {
                assert(bb.has(t));
                bb.lemma_empty_iff();
            }
        }
        lemma_active_skip(pos, perspective, bucket as int, mirror, next, 90);
    }
}

/// Appends the feature changes of a move for `perspective` in `bucket`:
/// `pc` leaves `from`; it arrives on `to` unless `to` is `NONE`; and
/// `remove_pc` leaves `remove_sq` unless `remove_sq` is `NONE`.
pub fn append_changed_indices(
    perspective: Color,
    bucket: u32,
    mirror: bool,
    from: Square,
    to: Square,
    pc: Piece,
    remove_sq: Square,
    remove_pc: Piece,
    removed: &mut IndexList,
    added: &mut IndexList,
)
    requires
        from.valid(),
        to.id() <= 90,
        remove_sq.id() <= 90,
        pc != Piece::NONE,
        remove_sq != Square::NONE ==> remove_pc != Piece::NONE,
        bucket < 32,
        old(removed).wf(),
        old(added).wf(),
        old(removed)@.len() + 2 <= MAX_ACTIVE,
        old(added)@.len() + 1 <= MAX_ACTIVE,
    ensures
        final(removed).wf(),
        final(added).wf(),
        final(removed)@ == old(removed)@.push(
            make_index_spec(perspective, from.id(), pc, bucket as int, mirror) as u32,
        ) + if remove_sq != Square::NONE {
            seq![make_index_spec(perspective, remove_sq.id(), remove_pc, bucket as int, mirror) as u32]
        } else {
            Seq::empty()
        },
        final(added)@ == if to != Square::NONE {
            old(added)@.push(make_index_spec(perspective, to.id(), pc, bucket as int, mirror) as u32)
        } else {
            old(added)@
        },
{
    proof {
        let b = perspective == Color::Black;
        lemma_psq_offset_bound(if b { flip_piece(pc) } else { pc }, index_map_spec(mirror, b, from.id()));
        if to.id() < 90 {
            lemma_psq_offset_bound(
                if b { flip_piece(pc) } else { pc },
                index_map_spec(mirror, b, to.id()),
            );
        }
        if remove_sq.id() < 90 {
            lemma_psq_offset_bound(
                if b { flip_piece(remove_pc) } else { remove_pc },
                index_map_spec(mirror, b, remove_sq.id()),
            );
        }
    }
    removed.push(make_index(perspective, from, pc, bucket, mirror));
    if to != Square::NONE {
        added.push(make_index(perspective, to, pc, bucket, mirror));
    }
    let ghost mid = removed@;
    if remove_sq != Square::NONE {
        removed.push(make_index(perspective, remove_sq, remove_pc, bucket, mirror));
    }
    proof {
        if remove_sq != Square::NONE {
            assert(removed@ =~= mid + seq![make_index_spec(perspective, remove_sq.id(), remove_pc, bucket as int, mirror) as u32]);
        } else {
            assert(removed@ =~= mid + Seq::<u32>::empty());
        }
    }
}


} // verus!
