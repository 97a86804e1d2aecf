//! Basic board vocabulary: squares, files, ranks, colors, pieces, moves,
//! directions and evaluation constants.

use vstd::prelude::*;

verus! {

/// Internal evaluation unit.
pub type Value = i32;

/// Search depth in plies.
pub type Depth = i32;

/// Zobrist hash key.
pub type Key = u64;

pub const MAX_MOVES: usize = 128;
pub const MAX_PLY: i32 = 246;

pub const VALUE_ZERO: Value = 0;
pub const VALUE_DRAW: Value = 0;
pub const VALUE_MATE: Value = 32000;
pub const VALUE_INFINITE: Value = 32001;
pub const VALUE_MATE_IN_MAX_PLY: Value = 31754;
pub const VALUE_MATED_IN_MAX_PLY: Value = -31754;

pub const ROOK_VALUE: Value = 1305;
pub const ADVISOR_VALUE: Value = 219;
pub const CANNON_VALUE: Value = 773;
pub const PAWN_VALUE: Value = 144;
pub const KNIGHT_VALUE: Value = 720;
pub const BISHOP_VALUE: Value = 187;

/// Score of delivering mate `ply` half-moves from the root.
pub open spec fn mate_in_spec(ply: int) -> int {
    VALUE_MATE - ply
}

/// Score of being mated `ply` half-moves from the root.
pub open spec fn mated_in_spec(ply: int) -> int {
    ply - VALUE_MATE
}

pub fn mate_in(ply: i32) -> (v: Value)
    requires
        VALUE_MATE - i32::MAX <= ply,
    ensures
        v == mate_in_spec(ply as int),
{
    VALUE_MATE - ply
}

pub fn mated_in(ply: i32) -> (v: Value)
    requires
        VALUE_MATE - i32::MAX <= ply,
    ensures
        v == mated_in_spec(ply as int),
{
    ply - VALUE_MATE
}

/// A score is decisive when it announces a forced mate for either side.
pub fn is_decisive(v: Value) -> (r: bool)
    ensures
        r == (v >= VALUE_MATE_IN_MAX_PLY || v <= VALUE_MATED_IN_MAX_PLY),
{
    v >= VALUE_MATE_IN_MAX_PLY || v <= VALUE_MATED_IN_MAX_PLY
}

/// The key-derivation function used to perturb hash keys.
pub open spec fn make_key_spec(seed: u64) -> u64 {
    (((seed as nat * 6364136223846793005nat) % 0x1_0000_0000_0000_0000nat + 1442695040888963407nat)
        % 0x1_0000_0000_0000_0000nat) as u64
}

pub fn make_key(seed: u64) -> (k: Key)
    ensures
        k == make_key_spec(seed),
{
    seed.wrapping_mul(6364136223846793005u64).wrapping_add(1442695040888963407u64)
}

#[derive(Clone, Copy, PartialEq, Eq, Debug, Structural)]
pub enum Color {
    White,
    Black,
}

impl Color {
    pub const NUM: usize = 2;

    pub open spec fn id(self) -> int {
        self as int
    }

    pub open spec fn opp(self) -> Color {
        match self {
            Color::White => Color::Black,
            Color::Black => Color::White,
        }
    }

    pub fn index(self) -> (r: usize)
        ensures
            r == self.id(),
            r < 2,
    {
        self as usize
    }

    /// The other side.
    pub fn flip(self) -> (r: Color)
        ensures
            r == self.opp(),
    {
        match self {
            Color::White => Color::Black,
            Color::Black => Color::White,
        }
    }
}

#[derive(Clone, Copy, PartialEq, Eq, Debug, Structural)]
pub enum File {
    A,
    B,
    C,
    D,
    E,
    F,
    G,
    H,
    I,
}

impl File {
    pub const NUM: usize = 9;

    /// The file with index `f`, if there is one.
    pub fn from_index(f: u8) -> (r: Option<File>)
        ensures
            r matches Some(x) ==> x as int == f,
            r is Some <==> f < 9,
    {
        match f {
            0 => Some(File::A),
            1 => Some(File::B),
            2 => Some(File::C),
            3 => Some(File::D),
            4 => Some(File::E),
            5 => Some(File::F),
            6 => Some(File::G),
            7 => Some(File::H),
            8 => Some(File::I),
            _ => None,
        }
    }
}

#[derive(Clone, Copy, PartialEq, Eq, Debug, Structural)]
pub enum Rank {
    R0,
    R1,
    R2,
    R3,
    R4,
    R5,
    R6,
    R7,
    R8,
    R9,
}

impl Rank {
    pub const NUM: usize = 10;

    /// The rank with index `r`, if there is one.
    pub fn from_index(r: u8) -> (x: Option<Rank>)
        ensures
            x matches Some(y) ==> y as int == r,
            x is Some <==> r < 10,
    {
        match r {
            0 => Some(Rank::R0),
            1 => Some(Rank::R1),
            2 => Some(Rank::R2),
            3 => Some(Rank::R3),
            4 => Some(Rank::R4),
            5 => Some(Rank::R5),
            6 => Some(Rank::R6),
            7 => Some(Rank::R7),
            8 => Some(Rank::R8),
            9 => Some(Rank::R9),
            _ => None,
        }
    }
}

/// The file (0..9) of the square numbered `s`.
pub open spec fn file_of(s: int) -> int {
    s % 9
}

/// The rank (0..10) of the square numbered `s`.
pub open spec fn rank_of(s: int) -> int {
    s / 9
}

/// Whether `s` numbers one of the 90 board squares.
pub open spec fn on_board(s: int) -> bool {
    0 <= s < 90
}

/// The square numbered `r * 9 + f`, the number of file `f` and rank `r`.
pub open spec fn square_at(f: int, r: int) -> int {
    r * 9 + f
}

/// A board square, numbered rank by rank from a0 (0) to i9 (89); `NONE` (90)
/// stands for no square.
#[allow(non_camel_case_types)]
#[derive(Clone, Copy, PartialEq, Eq, Debug, Structural)]
pub enum Square {
    SQ_A0,
    SQ_B0,
    SQ_C0,
    SQ_D0,
    SQ_E0,
    SQ_F0,
    SQ_G0,
    SQ_H0,
    SQ_I0,
    SQ_A1,
    SQ_B1,
    SQ_C1,
    SQ_D1,
    SQ_E1,
    SQ_F1,
    SQ_G1,
    SQ_H1,
    SQ_I1,
    SQ_A2,
    SQ_B2,
    SQ_C2,
    SQ_D2,
    SQ_E2,
    SQ_F2,
    SQ_G2,
    SQ_H2,
    SQ_I2,
    SQ_A3,
    SQ_B3,
    SQ_C3,
    SQ_D3,
    SQ_E3,
    SQ_F3,
    SQ_G3,
    SQ_H3,
    SQ_I3,
    SQ_A4,
    SQ_B4,
    SQ_C4,
    SQ_D4,
    SQ_E4,
    SQ_F4,
    SQ_G4,
    SQ_H4,
    SQ_I4,
    SQ_A5,
    SQ_B5,
    SQ_C5,
    SQ_D5,
    SQ_E5,
    SQ_F5,
    SQ_G5,
    SQ_H5,
    SQ_I5,
    SQ_A6,
    SQ_B6,
    SQ_C6,
    SQ_D6,
    SQ_E6,
    SQ_F6,
    SQ_G6,
    SQ_H6,
    SQ_I6,
    SQ_A7,
    SQ_B7,
    SQ_C7,
    SQ_D7,
    SQ_E7,
    SQ_F7,
    SQ_G7,
    SQ_H7,
    SQ_I7,
    SQ_A8,
    SQ_B8,
    SQ_C8,
    SQ_D8,
    SQ_E8,
    SQ_F8,
    SQ_G8,
    SQ_H8,
    SQ_I8,
    SQ_A9,
    SQ_B9,
    SQ_C9,
    SQ_D9,
    SQ_E9,
    SQ_F9,
    SQ_G9,
    SQ_H9,
    SQ_I9,
    NONE,
}

impl Square {
    pub const NUM: usize = 90;

    pub open spec fn id(self) -> int {
        self as int
    }

    pub open spec fn valid(self) -> bool {
        (self as int) < 90
    }

    pub fn raw(self) -> (r: u8)
        ensures
            r == self.id(),
            r <= 90,
    {
        self as u8
    }

    pub fn index(self) -> (r: usize)
        ensures
            r == self.id(),
            r <= 90,
    {
        self as usize
    }

    /// The square with number `raw`; 90 gives `NONE`.
    pub fn from_raw_unchecked(raw: u8) -> (s: Square)
        requires
            raw <= 90,
        ensures
            s.id() == raw,
    {
        match raw {
            0 => Square::SQ_A0,
            1 => Square::SQ_B0,
            2 => Square::SQ_C0,
            3 => Square::SQ_D0,
            4 => Square::SQ_E0,
            5 => Square::SQ_F0,
            6 => Square::SQ_G0,
            7 => Square::SQ_H0,
            8 => Square::SQ_I0,
            9 => Square::SQ_A1,
            10 => Square::SQ_B1,
            11 => Square::SQ_C1,
            12 => Square::SQ_D1,
            13 => Square::SQ_E1,
            14 => Square::SQ_F1,
            15 => Square::SQ_G1,
            16 => Square::SQ_H1,
            17 => Square::SQ_I1,
            18 => Square::SQ_A2,
            19 => Square::SQ_B2,
            20 => Square::SQ_C2,
            21 => Square::SQ_D2,
            22 => Square::SQ_E2,
            23 => Square::SQ_F2,
            24 => Square::SQ_G2,
            25 => Square::SQ_H2,
            26 => Square::SQ_I2,
            27 => Square::SQ_A3,
            28 => Square::SQ_B3,
            29 => Square::SQ_C3,
            30 => Square::SQ_D3,
            31 => Square::SQ_E3,
            32 => Square::SQ_F3,
            33 => Square::SQ_G3,
            34 => Square::SQ_H3,
            35 => Square::SQ_I3,
            36 => Square::SQ_A4,
            37 => Square::SQ_B4,
            38 => Square::SQ_C4,
            39 => Square::SQ_D4,
            40 => Square::SQ_E4,
            41 => Square::SQ_F4,
            42 => Square::SQ_G4,
            43 => Square::SQ_H4,
            44 => Square::SQ_I4,
            45 => Square::SQ_A5,
            46 => Square::SQ_B5,
            47 => Square::SQ_C5,
            48 => Square::SQ_D5,
            49 => Square::SQ_E5,
            50 => Square::SQ_F5,
            51 => Square::SQ_G5,
            52 => Square::SQ_H5,
            53 => Square::SQ_I5,
            54 => Square::SQ_A6,
            55 => Square::SQ_B6,
            56 => Square::SQ_C6,
            57 => Square::SQ_D6,
            58 => Square::SQ_E6,
            59 => Square::SQ_F6,
            60 => Square::SQ_G6,
            61 => Square::SQ_H6,
            62 => Square::SQ_I6,
            63 => Square::SQ_A7,
            64 => Square::SQ_B7,
            65 => Square::SQ_C7,
            66 => Square::SQ_D7,
            67 => Square::SQ_E7,
            68 => Square::SQ_F7,
            69 => Square::SQ_G7,
            70 => Square::SQ_H7,
            71 => Square::SQ_I7,
            72 => Square::SQ_A8,
            73 => Square::SQ_B8,
            74 => Square::SQ_C8,
            75 => Square::SQ_D8,
            76 => Square::SQ_E8,
            77 => Square::SQ_F8,
            78 => Square::SQ_G8,
            79 => Square::SQ_H8,
            80 => Square::SQ_I8,
            81 => Square::SQ_A9,
            82 => Square::SQ_B9,
            83 => Square::SQ_C9,
            84 => Square::SQ_D9,
            85 => Square::SQ_E9,
            86 => Square::SQ_F9,
            87 => Square::SQ_G9,
            88 => Square::SQ_H9,
            89 => Square::SQ_I9,
            _ => Square::NONE,
        }
    }

    pub fn file(self) -> (f: File)
        requires
            self.valid(),
        ensures
            f as int == file_of(self.id()),
    {
        let r = self.raw() % 9;
        match File::from_index(r) {
            Some(f) => f,
            None => File::A,
        }
    }

    pub fn rank(self) -> (x: Rank)
        requires
            self.valid(),
        ensures
            x as int == rank_of(self.id()),
    {
        let r = self.raw() / 9;
        match Rank::from_index(r) {
            Some(x) => x,
            None => Rank::R0,
        }
    }

    pub fn make(f: File, r: Rank) -> (s: Square)
        ensures
            s.id() == square_at(f as int, r as int),
            s.valid(),
    {
        Square::from_raw_unchecked((r as u8) * 9 + (f as u8))
    }

    /// The square reflected across the central file.
    pub fn flip_file(self) -> (s: Square)
        requires
            self.valid(),
        ensures
            s.id() == square_at(8 - file_of(self.id()), rank_of(self.id())),
            s.valid(),
    {
        let r = self.raw();
        Square::from_raw_unchecked((r / 9) * 9 + (8 - r % 9))
    }

    /// The square reflected across the river.
    pub fn flip_rank(self) -> (s: Square)
        requires
            self.valid(),
        ensures
            s.id() == square_at(file_of(self.id()), 9 - rank_of(self.id())),
            s.valid(),
    {
        let r = self.raw();
        Square::from_raw_unchecked((9 - r / 9) * 9 + r % 9)
    }
}

#[derive(Clone, Copy, PartialEq, Eq, Debug, Structural)]
pub enum PieceType {
    Rook,
    Advisor,
    Cannon,
    Pawn,
    Knight,
    Bishop,
    King,
}

impl PieceType {
    /// Number of slots in per-type tables; slot 0 holds all pieces.
    pub const PIECE_TYPE_NB: usize = 8;

    /// Table slot of this type: rook 1, advisor 2, cannon 3, pawn 4,
    /// knight 5, bishop 6, king 7.
    pub open spec fn id(self) -> int {
        self as int + 1
    }

    pub fn index(self) -> (r: usize)
        ensures
            r == self.id(),
            1 <= r <= 7,
    {
        self as usize + 1
    }

    /// The type stored in table slot `i` (1..=7).
    pub fn from_index(i: usize) -> (pt: PieceType)
        requires
            1 <= i <= 7,
        ensures
            pt.id() == i,
    {
        match i {
            1 => PieceType::Rook,
            2 => PieceType::Advisor,
            3 => PieceType::Cannon,
            4 => PieceType::Pawn,
            5 => PieceType::Knight,
            6 => PieceType::Bishop,
            _ => PieceType::King,
        }
    }
}

/// A colored piece, or `NONE` for an empty square. Its table index is the
/// type's slot, plus 8 for black.
#[allow(non_camel_case_types)]
#[derive(Clone, Copy, PartialEq, Eq, Debug, Structural)]
pub enum Piece {
    NONE,
    W_ROOK,
    W_ADVISOR,
    W_CANNON,
    W_PAWN,
    W_KNIGHT,
    W_BISHOP,
    W_KING,
    B_ROOK,
    B_ADVISOR,
    B_CANNON,
    B_PAWN,
    B_KNIGHT,
    B_BISHOP,
    B_KING,
}

/// The piece of color `c` and type `pt`.
/// The piece with table index `idx`, or `NONE` for an unused index.
pub open spec fn piece_from_raw(idx: int) -> Piece {
    if idx == 1 {
        Piece::W_ROOK
    } else if idx == 2 {
        Piece::W_ADVISOR
    } else if idx == 3 {
        Piece::W_CANNON
    } else if idx == 4 {
        Piece::W_PAWN
    } else if idx == 5 {
        Piece::W_KNIGHT
    } else if idx == 6 {
        Piece::W_BISHOP
    } else if idx == 7 {
        Piece::W_KING
    } else if idx == 9 {
        Piece::B_ROOK
    } else if idx == 10 {
        Piece::B_ADVISOR
    } else if idx == 11 {
        Piece::B_CANNON
    } else if idx == 12 {
        Piece::B_PAWN
    } else if idx == 13 {
        Piece::B_KNIGHT
    } else if idx == 14 {
        Piece::B_BISHOP
    } else if idx == 15 {
        Piece::B_KING
    } else {
        Piece::NONE
    }
}

pub open spec fn make_piece(c: Color, pt: PieceType) -> Piece {
    match (c, pt) {
        (Color::White, PieceType::Rook) => Piece::W_ROOK,
        (Color::White, PieceType::Advisor) => Piece::W_ADVISOR,
        (Color::White, PieceType::Cannon) => Piece::W_CANNON,
        (Color::White, PieceType::Pawn) => Piece::W_PAWN,
        (Color::White, PieceType::Knight) => Piece::W_KNIGHT,
        (Color::White, PieceType::Bishop) => Piece::W_BISHOP,
        (Color::White, PieceType::King) => Piece::W_KING,
        (Color::Black, PieceType::Rook) => Piece::B_ROOK,
        (Color::Black, PieceType::Advisor) => Piece::B_ADVISOR,
        (Color::Black, PieceType::Cannon) => Piece::B_CANNON,
        (Color::Black, PieceType::Pawn) => Piece::B_PAWN,
        (Color::Black, PieceType::Knight) => Piece::B_KNIGHT,
        (Color::Black, PieceType::Bishop) => Piece::B_BISHOP,
        (Color::Black, PieceType::King) => Piece::B_KING,
    }
}

impl Piece {
    pub const NUM: usize = 16;

    pub open spec fn id(self) -> int {
        if (self as int) <= 7 {
            self as int
        } else {
            self as int + 1
        }
    }

    pub open spec fn color_of(self) -> Color {
        if (self as int) <= 7 {
            Color::White
        } else {
            Color::Black
        }
    }

    pub open spec fn type_of(self) -> PieceType {
        match self {
            Piece::W_ROOK | Piece::B_ROOK => PieceType::Rook,
            Piece::W_ADVISOR | Piece::B_ADVISOR => PieceType::Advisor,
            Piece::W_CANNON | Piece::B_CANNON => PieceType::Cannon,
            Piece::W_PAWN | Piece::B_PAWN => PieceType::Pawn,
            Piece::W_KNIGHT | Piece::B_KNIGHT => PieceType::Knight,
            Piece::W_BISHOP | Piece::B_BISHOP => PieceType::Bishop,
            _ => PieceType::King,
        }
    }

    pub fn index(self) -> (r: usize)
        ensures
            r == self.id(),
            r < 16,
            r != 8,
    {
        let d = self as usize;
        if d <= 7 {
            d
        } else {
            d + 1
        }
    }

    pub fn make(c: Color, pt: PieceType) -> (p: Piece)
        ensures
            p == make_piece(c, pt),
            p != Piece::NONE,
            p.color_of() == c,
            p.type_of() == pt,
            p.id() == c.id() * 8 + pt.id(),
    {
        match c {
            Color::White => match pt {
                PieceType::Rook => Piece::W_ROOK,
                PieceType::Advisor => Piece::W_ADVISOR,
                PieceType::Cannon => Piece::W_CANNON,
                PieceType::Pawn => Piece::W_PAWN,
                PieceType::Knight => Piece::W_KNIGHT,
                PieceType::Bishop => Piece::W_BISHOP,
                PieceType::King => Piece::W_KING,
            },
            Color::Black => match pt {
                PieceType::Rook => Piece::B_ROOK,
                PieceType::Advisor => Piece::B_ADVISOR,
                PieceType::Cannon => Piece::B_CANNON,
                PieceType::Pawn => Piece::B_PAWN,
                PieceType::Knight => Piece::B_KNIGHT,
                PieceType::Bishop => Piece::B_BISHOP,
                PieceType::King => Piece::B_KING,
            },
        }
    }

    /// The piece with table index `idx`; 0, 8 and values above 15 give `NONE`.
    pub fn from_raw(idx: u8) -> (p: Piece)
        ensures
            p == piece_from_raw(idx as int),
            1 <= idx <= 15 && idx != 8 ==> p.id() == idx,
            !(1 <= idx <= 15 && idx != 8) ==> p == Piece::NONE,
    {
        match idx {
            1 => Piece::W_ROOK,
            2 => Piece::W_ADVISOR,
            3 => Piece::W_CANNON,
            4 => Piece::W_PAWN,
            5 => Piece::W_KNIGHT,
            6 => Piece::W_BISHOP,
            7 => Piece::W_KING,
            9 => Piece::B_ROOK,
            10 => Piece::B_ADVISOR,
            11 => Piece::B_CANNON,
            12 => Piece::B_PAWN,
            13 => Piece::B_KNIGHT,
            14 => Piece::B_BISHOP,
            15 => Piece::B_KING,
            _ => Piece::NONE,
        }
    }

    pub fn color(self) -> (c: Color)
        requires
            self != Piece::NONE,
        ensures
            c == self.color_of(),
    {
        if (self as u8) <= 7 {
            Color::White
        } else {
            Color::Black
        }
    }

    pub fn piece_type(self) -> (pt: PieceType)
        requires
            self != Piece::NONE,
        ensures
            pt == self.type_of(),
            make_piece(self.color_of(), pt) == self,
    {
        match self {
            Piece::W_ROOK | Piece::B_ROOK => PieceType::Rook,
            Piece::W_ADVISOR | Piece::B_ADVISOR => PieceType::Advisor,
            Piece::W_CANNON | Piece::B_CANNON => PieceType::Cannon,
            Piece::W_PAWN | Piece::B_PAWN => PieceType::Pawn,
            Piece::W_KNIGHT | Piece::B_KNIGHT => PieceType::Knight,
            Piece::W_BISHOP | Piece::B_BISHOP => PieceType::Bishop,
            _ => PieceType::King,
        }
    }

    /// The same type in the other color.
    pub fn flip_color(self) -> (p: Piece)
        requires
            self != Piece::NONE,
        ensures
            p == make_piece(self.color_of().opp(), self.type_of()),
    {
        let c = self.color();
        let pt = self.piece_type();
        Piece::make(c.flip(), pt)
    }

    /// FEN letter: upper case for white, lower case for black, a space for none.
    pub fn to_char(self) -> (ch: char)
        ensures
            ch == piece_char(self.id()),
    {
        match self {
            Piece::NONE => ' ',
            Piece::W_ROOK => 'R',
            Piece::W_ADVISOR => 'A',
            Piece::W_CANNON => 'C',
            Piece::W_PAWN => 'P',
            Piece::W_KNIGHT => 'N',
            Piece::W_BISHOP => 'B',
            Piece::W_KING => 'K',
            Piece::B_ROOK => 'r',
            Piece::B_ADVISOR => 'a',
            Piece::B_CANNON => 'c',
            Piece::B_PAWN => 'p',
            Piece::B_KNIGHT => 'n',
            Piece::B_BISHOP => 'b',
            Piece::B_KING => 'k',
        }
    }
}

/// The FEN alphabet " RACPNBK racpnbk", indexed by piece table index.
pub open spec fn piece_char(i: int) -> char {
    if i == 1 { 'R' }
    else if i == 2 { 'A' }
    else if i == 3 { 'C' }
    else if i == 4 { 'P' }
    else if i == 5 { 'N' }
    else if i == 6 { 'B' }
    else if i == 7 { 'K' }
    else if i == 9 { 'r' }
    else if i == 10 { 'a' }
    else if i == 11 { 'c' }
    else if i == 12 { 'p' }
    else if i == 13 { 'n' }
    else if i == 14 { 'b' }
    else if i == 15 { 'k' }
    else { ' ' }
}

/// Material value of a piece; kings and empty squares count zero.
pub open spec fn piece_value_spec(p: Piece) -> int {
    match p.type_of() {
        PieceType::Rook => ROOK_VALUE as int,
        PieceType::Advisor => ADVISOR_VALUE as int,
        PieceType::Cannon => CANNON_VALUE as int,
        PieceType::Pawn => PAWN_VALUE as int,
        PieceType::Knight => KNIGHT_VALUE as int,
        PieceType::Bishop => BISHOP_VALUE as int,
        PieceType::King => 0,
    }
}

pub fn piece_value(p: Piece) -> (v: Value)
    ensures
        p != Piece::NONE ==> v == piece_value_spec(p),
        p == Piece::NONE ==> v == 0,
        0 <= v <= ROOK_VALUE,
{
    match p {
        Piece::NONE => 0,
        Piece::W_ROOK | Piece::B_ROOK => ROOK_VALUE,
        Piece::W_ADVISOR | Piece::B_ADVISOR => ADVISOR_VALUE,
        Piece::W_CANNON | Piece::B_CANNON => CANNON_VALUE,
        Piece::W_PAWN | Piece::B_PAWN => PAWN_VALUE,
        Piece::W_KNIGHT | Piece::B_KNIGHT => KNIGHT_VALUE,
        Piece::W_BISHOP | Piece::B_BISHOP => BISHOP_VALUE,
        _ => 0,
    }
}

/// A move, encoded as `from * 128 + to`; the value 0 is "no move".
#[derive(Clone, Copy, PartialEq, Eq, Debug, Structural)]
pub struct Move(pub u16);

impl Move {
    pub open spec fn from_id(self) -> int {
        self.0 as int / 128
    }

    pub open spec fn to_id(self) -> int {
        self.0 as int % 128
    }

    /// Both squares lie on the board.
    pub open spec fn well_formed(self) -> bool {
        self.from_id() < 90 && self.to_id() < 90
    }

    pub fn none() -> (m: Move)
        ensures
            m.0 == 0,
    {
        Move(0)
    }

    /// The null move, which passes the turn.
    pub fn null() -> (m: Move)
        ensures
            m.0 == 129,
    {
        Move(129)
    }

    /// Whether this is an actual move: neither the empty move nor the null
    /// move.
    pub fn is_ok(self) -> (r: bool)
        ensures
            r == (self.0 != 0 && self.0 != 129),
    {
        self.0 != 0 && self.0 != 129
    }

    pub fn make(from: Square, to: Square) -> (m: Move)
        requires
            from.valid(),
            to.valid(),
        ensures
            m.from_id() == from.id(),
            m.to_id() == to.id(),
            m.well_formed(),
    {
        let m = Move((from.raw() as u16) * 128 + to.raw() as u16);
        m
    }

    pub fn raw(self) -> (r: u16)
        ensures
            r == self.0,
    {
        self.0
    }

    pub fn from_sq(self) -> (s: Square)
        requires
            self.from_id() <= 90,
        ensures
            s.id() == self.from_id(),
    {
        Square::from_raw_unchecked((self.0 / 128) as u8)
    }

    pub fn to_sq(self) -> (s: Square)
        requires
            self.to_id() <= 90,
        ensures
            s.id() == self.to_id(),
    {
        Square::from_raw_unchecked((self.0 % 128) as u8)
    }
}

/// A step between square numbers: north is +9, east is +1.
#[derive(Clone, Copy, PartialEq, Eq, Debug, Structural)]
pub struct Direction(pub i8);

impl Direction {
    pub fn raw(self) -> (r: i8)
        ensures
            r == self.0,
    {
        self.0
    }

    pub fn north() -> (d: Direction)
        ensures
            d.0 == 9,
    {
        Direction(9)
    }

    pub fn south() -> (d: Direction)
        ensures
            d.0 == -9,
    {
        Direction(-9)
    }

    pub fn east() -> (d: Direction)
        ensures
            d.0 == 1,
    {
        Direction(1)
    }

    pub fn west() -> (d: Direction)
        ensures
            d.0 == -1,
    {
        Direction(-1)
    }

    pub fn north_east() -> (d: Direction)
        ensures
            d.0 == 10,
    {
        Direction(10)
    }

    pub fn north_west() -> (d: Direction)
        ensures
            d.0 == 8,
    {
        Direction(8)
    }

    pub fn south_east() -> (d: Direction)
        ensures
            d.0 == -8,
    {
        Direction(-8)
    }

    pub fn south_west() -> (d: Direction)
        ensures
            d.0 == -10,
    {
        Direction(-10)
    }
}

/// Appends `c` to `s`: std's `String::push`, which adds the character at
/// the end.
#[verifier::external_body]
pub(crate) fn push_char(s: &mut String, c: char)
    ensures
        final(s)@ == old(s)@.push(c),
{
    s.push(c);
}

/// The text of a move: origin then destination, each as a file letter `a`
/// to `i` and a rank digit `0` to `9`.
pub open spec fn move_text(m: Move) -> Seq<char> {
    seq![
        ((97 + file_of(m.from_id())) as u8) as char,
        ((48 + rank_of(m.from_id())) as u8) as char,
        ((97 + file_of(m.to_id())) as u8) as char,
        ((48 + rank_of(m.to_id())) as u8) as char,
    ]
}

impl Move {
    /// The move written as origin and destination squares, such as `h2e2`.
    pub fn to_text(self) -> (s: String)
        requires
            self.well_formed(),
        ensures
            s@ == move_text(self),
    {
        let from = self.0 / 128;
        let to = self.0 % 128;
        let mut s = String::new();
        push_char(&mut s, (97 + (from % 9) as u8) as char);
        push_char(&mut s, (48 + (from / 9) as u8) as char);
        push_char(&mut s, (97 + (to % 9) as u8) as char);
        push_char(&mut s, (48 + (to / 9) as u8) as char);
        proof {
            assert(s@ =~= move_text(self));
        }
        s
    }
}

} // verus!
