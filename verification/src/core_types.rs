//! Colors, piece types, pieces, directions and squares of the shatranj board.
use crate::bitboard::Bitboard;
use vstd::prelude::*;

verus! {

/// The file (column, 0 = a) of a square index.
pub open spec fn file_of(s: int) -> int {
    s % 8
}

/// The rank (row, 0 = first rank) of a square index.
pub open spec fn rank_of(s: int) -> int {
    s / 8
}

#[derive(Copy, Clone, Eq, PartialEq, Debug, Structural)]
pub enum Color {
    White,
    Black,
}

impl Color {
    pub const COUNT: usize = 2;

    /// The color whose index is `i`.
    pub open spec fn from_index(i: int) -> Color {
        if i == 0 {
            Color::White
        } else {
            Color::Black
        }
    }

    /// The other side.
    pub open spec fn opposite(self) -> Color {
        match self {
            Color::White => Color::Black,
            Color::Black => Color::White,
        }
    }

    pub fn from_raw(raw: u8) -> (r: Option<Self>)
        ensures
            r is Some <==> raw < 2,
            r matches Some(c) ==> c as u8 == raw,
    {
        if (raw as usize) < Self::COUNT {
            if raw == 0 {
                Some(Color::White)
            } else {
                Some(Color::Black)
            }
        } else {
            None
        }
    }

    pub fn raw(self) -> (r: u8)
        ensures
            r == self as u8,
            r < 2,
    {
        self as u8
    }

    pub fn idx(self) -> (r: usize)
        ensures
            r == self as usize,
            r < 2,
    {
        self as usize
    }

    pub fn flip(self) -> (r: Self)
        ensures
            r == self.opposite(),
            r as u8 == (self as u8) ^ 1,
    {
        let raw = self as u8;
        assert(raw < 2 ==> raw ^ 1 < 2 && (raw == 0 ==> raw ^ 1 == 1) && (raw == 1 ==> raw ^ 1 == 0))
            by (bit_vector);
        Self::from_raw(raw ^ 0x1).unwrap()
    }

    pub fn all() -> (r: ColorIterator)
        ensures
            r.position() == 0,
    {
        ColorIterator { raw: 0 }
    }
}

/// Walks the colors in index order.
pub struct ColorIterator {
    raw: u8,
}

impl ColorIterator {
    /// How many calls of `next` have been made.
    pub closed spec fn position(&self) -> int {
        self.raw as int
    }

    pub fn next(&mut self) -> (r: Option<Color>)
        requires
            old(self).position() < 255,
        ensures
            final(self).position() == old(self).position() + 1,
            r is Some <==> old(self).position() < 2,
            r matches Some(c) ==> c as int == old(self).position(),
    {
        let c = Color::from_raw(self.raw);
        self.raw += 1;
        c
    }
}

#[derive(Copy, Clone, Eq, PartialEq, Debug, Structural)]
pub enum PieceType {
    Pawn,
    Alfil,
    Ferz,
    Knight,
    Rook,
    King,
}

impl PieceType {
    pub const COUNT: usize = 6;

    /// The letter that names a piece type (lower case).
    pub open spec fn letter(self) -> char {
        match self {
            PieceType::Pawn => 'p',
            PieceType::Alfil => 'b',
            PieceType::Ferz => 'q',
            PieceType::Knight => 'n',
            PieceType::Rook => 'r',
            PieceType::King => 'k',
        }
    }

    pub fn from_raw(raw: u8) -> (r: Option<Self>)
        ensures
            r is Some <==> raw < 6,
            r matches Some(pt) ==> pt as u8 == raw,
    {
        if (raw as usize) < Self::COUNT {
            Some(
                match raw {
                    0 => PieceType::Pawn,
                    1 => PieceType::Alfil,
                    2 => PieceType::Ferz,
                    3 => PieceType::Knight,
                    4 => PieceType::Rook,
                    _ => PieceType::King,
                },
            )
        } else {
            None
        }
    }

    pub fn raw(self) -> (r: u8)
        ensures
            r == self as u8,
            r < 6,
    {
        self as u8
    }

    pub fn idx(self) -> (r: usize)
        ensures
            r == self as usize,
            r < 6,
    {
        self as usize
    }

    /// The piece of this type and `color`.
    pub open spec fn spec_with_color(self, color: Color) -> Piece {
        Piece::from_index(2 * (self as int) + color as int)
    }

    pub fn with_color(self, color: Color) -> (r: Piece)
        ensures
            r == self.spec_with_color(color),
            r as int == 2 * (self as int) + color as int,
            r.spec_color() == color,
            r.spec_piece_type() == self,
    {
        let pt = self.raw();
        let c = color.raw();
        assert(pt < 6 && c < 2 ==> (pt << 1u8) | c == 2 * pt + c) by (bit_vector);
        Piece::from_raw((pt << 1) | c).unwrap()
    }

    pub fn all() -> (r: PieceTypeIterator)
        ensures
            r.position() == 0,
    {
        PieceTypeIterator { raw: 0 }
    }

    /// The letter printed for this piece type.
    pub fn to_char(self) -> (r: char)
        ensures
            r == self.letter(),
    {
        match self {
            PieceType::Pawn => 'p',
            PieceType::Alfil => 'b',
            PieceType::Ferz => 'q',
            PieceType::Knight => 'n',
            PieceType::Rook => 'r',
            PieceType::King => 'k',
        }
    }
}

/// Walks the piece types in index order.
pub struct PieceTypeIterator {
    raw: u8,
}

impl PieceTypeIterator {
    /// How many calls of `next` have been made.
    pub closed spec fn position(&self) -> int {
        self.raw as int
    }

    pub fn next(&mut self) -> (r: Option<PieceType>)
        requires
            old(self).position() < 255,
        ensures
            final(self).position() == old(self).position() + 1,
            r is Some <==> old(self).position() < 6,
            r matches Some(pt) ==> pt as int == old(self).position(),
    {
        let pt = PieceType::from_raw(self.raw);
        self.raw += 1;
        pt
    }
}

#[derive(Copy, Clone, Eq, PartialEq, Debug, Structural)]
pub enum Piece {
    WhitePawn,
    BlackPawn,
    WhiteAlfil,
    BlackAlfil,
    WhiteFerz,
    BlackFerz,
    WhiteKnight,
    BlackKnight,
    WhiteRook,
    BlackRook,
    WhiteKing,
    BlackKing,
}

impl Piece {
    pub const COUNT: usize = 12;

    /// The color of the piece: white pieces have even indices.
    pub open spec fn spec_color(self) -> Color {
        Color::from_index((self as int) % 2)
    }

    /// The type of the piece: its index halved.
    pub open spec fn spec_piece_type(self) -> PieceType {
        let t = (self as int) / 2;
        if t == 0 {
            PieceType::Pawn
        } else if t == 1 {
            PieceType::Alfil
        } else if t == 2 {
            PieceType::Ferz
        } else if t == 3 {
            PieceType::Knight
        } else if t == 4 {
            PieceType::Rook
        } else {
            PieceType::King
        }
    }

    /// The letter of the piece: upper case for white, lower case for black.
    pub open spec fn letter(self) -> char {
        match self {
            Piece::WhitePawn => 'P',
            Piece::BlackPawn => 'p',
            Piece::WhiteAlfil => 'B',
            Piece::BlackAlfil => 'b',
            Piece::WhiteFerz => 'Q',
            Piece::BlackFerz => 'q',
            Piece::WhiteKnight => 'N',
            Piece::BlackKnight => 'n',
            Piece::WhiteRook => 'R',
            Piece::BlackRook => 'r',
            Piece::WhiteKing => 'K',
            Piece::BlackKing => 'k',
        }
    }

    /// A piece is written with the letter of its type, upper case for White
    /// and lower case for Black, and no two pieces share a letter.
    pub proof fn lemma_letters(p: Piece, q: Piece)
        ensures
            p.spec_color() == Color::Black ==> p.letter() == p.spec_piece_type().letter(),
            p.spec_color() == Color::White ==> p.letter() as int + 32 == p.spec_piece_type().letter() as int,
            p.letter() == q.letter() ==> p == q,
    {
    }

    /// The piece with index `i` (for `0 <= i < 12`).
    pub open spec fn from_index(i: int) -> Piece {
        if i == 0 {
            Piece::WhitePawn
        } else if i == 1 {
            Piece::BlackPawn
        } else if i == 2 {
            Piece::WhiteAlfil
        } else if i == 3 {
            Piece::BlackAlfil
        } else if i == 4 {
            Piece::WhiteFerz
        } else if i == 5 {
            Piece::BlackFerz
        } else if i == 6 {
            Piece::WhiteKnight
        } else if i == 7 {
            Piece::BlackKnight
        } else if i == 8 {
            Piece::WhiteRook
        } else if i == 9 {
            Piece::BlackRook
        } else if i == 10 {
            Piece::WhiteKing
        } else {
            Piece::BlackKing
        }
    }

    /// A piece is fixed by its color and its type.
    pub proof fn lemma_parts(p: Piece, q: Piece)
        ensures
            (p.spec_color() == q.spec_color() && p.spec_piece_type() == q.spec_piece_type()) <==> p
                == q,
            p.spec_piece_type().spec_with_color(p.spec_color()) == p,
    {
    }

    pub fn from_raw(raw: u8) -> (r: Option<Self>)
        ensures
            r is Some <==> raw < 12,
            r matches Some(p) ==> p as u8 == raw,
    {
        if (raw as usize) < Self::COUNT {
            Some(
                match raw {
                    0 => Piece::WhitePawn,
                    1 => Piece::BlackPawn,
                    2 => Piece::WhiteAlfil,
                    3 => Piece::BlackAlfil,
                    4 => Piece::WhiteFerz,
                    5 => Piece::BlackFerz,
                    6 => Piece::WhiteKnight,
                    7 => Piece::BlackKnight,
                    8 => Piece::WhiteRook,
                    9 => Piece::BlackRook,
                    10 => Piece::WhiteKing,
                    _ => Piece::BlackKing,
                },
            )
        } else {
            None
        }
    }

    pub fn from_char(c: char) -> (r: Option<Self>)
        ensures
            r matches Some(p) ==> p.letter() == c,
            r is None <==> (forall|p: Piece| p.letter() != c),
    {
        let r = match c {
            'P' => Some(Self::WhitePawn),
            'p' => Some(Self::BlackPawn),
            'B' => Some(Self::WhiteAlfil),
            'b' => Some(Self::BlackAlfil),
            'Q' => Some(Self::WhiteFerz),
            'q' => Some(Self::BlackFerz),
            'N' => Some(Self::WhiteKnight),
            'n' => Some(Self::BlackKnight),
            'R' => Some(Self::WhiteRook),
            'r' => Some(Self::BlackRook),
            'K' => Some(Self::WhiteKing),
            'k' => Some(Self::BlackKing),
            _ => None,
        };
        proof {
            if r is None {
                assert forall|p: Piece| p.letter() != c by {
                    match p {
                        _ => {},
                    }
                }
            }
        }
        r
    }

    pub fn raw(self) -> (r: u8)
        ensures
            r == self as u8,
            r < 12,
    {
        self as u8
    }

    pub fn idx(self) -> (r: usize)
        ensures
            r == self as usize,
            r < 12,
    {
        self as usize
    }

    pub fn color(self) -> (r: Color)
        ensures
            r == self.spec_color(),
            r as int == (self as int) % 2,
    {
        let raw = self.raw();
        assert(raw & 1 == raw % 2 && raw % 2 < 2) by (bit_vector);
        Color::from_raw(raw & 0x1).unwrap()
    }

    pub fn piece_type(self) -> (r: PieceType)
        ensures
            r == self.spec_piece_type(),
            r as int == (self as int) / 2,
    {
        let raw = self.raw();
        assert(raw < 12 ==> raw >> 1u8 == raw / 2) by (bit_vector);
        PieceType::from_raw(raw >> 1).unwrap()
    }

    pub fn all() -> (r: PieceIterator)
        ensures
            r.position() == 0,
    {
        PieceIterator { raw: 0 }
    }

    /// The letter printed for this piece.
    pub fn to_char(self) -> (r: char)
        ensures
            r == self.letter(),
    {
        match self {
            Piece::WhitePawn => 'P',
            Piece::BlackPawn => 'p',
            Piece::WhiteAlfil => 'B',
            Piece::BlackAlfil => 'b',
            Piece::WhiteFerz => 'Q',
            Piece::BlackFerz => 'q',
            Piece::WhiteKnight => 'N',
            Piece::BlackKnight => 'n',
            Piece::WhiteRook => 'R',
            Piece::BlackRook => 'r',
            Piece::WhiteKing => 'K',
            Piece::BlackKing => 'k',
        }
    }
}

/// Walks the pieces in index order.
pub struct PieceIterator {
    raw: u8,
}

impl PieceIterator {
    /// How many calls of `next` have been made.
    pub closed spec fn position(&self) -> int {
        self.raw as int
    }

    pub fn next(&mut self) -> (r: Option<Piece>)
        requires
            old(self).position() < 255,
        ensures
            final(self).position() == old(self).position() + 1,
            r is Some <==> old(self).position() < 12,
            r matches Some(p) ==> p as int == old(self).position(),
    {
        let p = Piece::from_raw(self.raw);
        self.raw += 1;
        p
    }
}

#[derive(Copy, Clone, Eq, PartialEq, Debug, Structural)]
pub enum Direction {
    Up,
    Down,
    Left,
    Right,
}

impl Direction {
    pub const COUNT: usize = 4;

    /// The change of square index that one step in this direction makes.
    pub open spec fn spec_offset(self) -> int {
        match self {
            Direction::Up => 8,
            Direction::Down => -8,
            Direction::Left => -1,
            Direction::Right => 1,
        }
    }

    pub fn from_raw(raw: u8) -> (r: Option<Self>)
        ensures
            r is Some <==> raw < 4,
            r matches Some(d) ==> d as u8 == raw,
    {
        if (raw as usize) < Self::COUNT {
            Some(
                match raw {
                    0 => Direction::Up,
                    1 => Direction::Down,
                    2 => Direction::Left,
                    _ => Direction::Right,
                },
            )
        } else {
            None
        }
    }

    pub fn raw(self) -> (r: u8)
        ensures
            r == self as u8,
            r < 4,
    {
        self as u8
    }

    pub fn idx(self) -> (r: usize)
        ensures
            r == self as usize,
            r < 4,
    {
        self as usize
    }

    pub fn offset(self) -> (r: i8)
        ensures
            r == self.spec_offset(),
    {
        match self {
            Direction::Up => 8,
            Direction::Down => -8,
            Direction::Left => -1,
            Direction::Right => 1,
        }
    }

    pub fn all() -> (r: DirectionIterator)
        ensures
            r.position() == 0,
    {
        DirectionIterator { raw: 0 }
    }
}

/// Walks the directions in index order.
pub struct DirectionIterator {
    raw: u8,
}

impl DirectionIterator {
    /// How many calls of `next` have been made.
    pub closed spec fn position(&self) -> int {
        self.raw as int
    }

    pub fn next(&mut self) -> (r: Option<Direction>)
        requires
            old(self).position() < 255,
        ensures
            final(self).position() == old(self).position() + 1,
            r is Some <==> old(self).position() < 4,
            r matches Some(d) ==> d as int == old(self).position(),
    {
        let d = Direction::from_raw(self.raw);
        self.raw += 1;
        d
    }
}

#[derive(Copy, Clone, Eq, PartialEq, Debug, Structural)]
pub enum Square {
    A1, B1, C1, D1, E1, F1, G1, H1,
    A2, B2, C2, D2, E2, F2, G2, H2,
    A3, B3, C3, D3, E3, F3, G3, H3,
    A4, B4, C4, D4, E4, F4, G4, H4,
    A5, B5, C5, D5, E5, F5, G5, H5,
    A6, B6, C6, D6, E6, F6, G6, H6,
    A7, B7, C7, D7, E7, F7, G7, H7,
    A8, B8, C8, D8, E8, F8, G8, H8,
}

impl Square {
    pub const COUNT: usize = 64;

    /// The square with index `i` (for `0 <= i < 64`).
    pub open spec fn from_int(i: int) -> Square {
        choose|s: Square| #[trigger] s.index() == i
    }

    /// The index of the square, from 0 for a1 to 63 for h8.
    pub open spec fn index(self) -> int {
        self as int
    }

    /// Every square is the square of its own index.
    pub proof fn lemma_from_int(s: Square)
        ensures
            Square::from_int(s as int) == s,
    {
        assert(s.index() == s as int);
        let t = Square::from_int(s as int);
        assert(t.index() == s as int);
    }

    /// The square with index `raw`.
    pub fn from_index(raw: u8) -> (r: Square)
        requires
            raw < 64,
        ensures
            r as u8 == raw,
    {
        match raw {
            0 => Square::A1,
            1 => Square::B1,
            2 => Square::C1,
            3 => Square::D1,
            4 => Square::E1,
            5 => Square::F1,
            6 => Square::G1,
            7 => Square::H1,
            8 => Square::A2,
            9 => Square::B2,
            10 => Square::C2,
            11 => Square::D2,
            12 => Square::E2,
            13 => Square::F2,
            14 => Square::G2,
            15 => Square::H2,
            16 => Square::A3,
            17 => Square::B3,
            18 => Square::C3,
            19 => Square::D3,
            20 => Square::E3,
            21 => Square::F3,
            22 => Square::G3,
            23 => Square::H3,
            24 => Square::A4,
            25 => Square::B4,
            26 => Square::C4,
            27 => Square::D4,
            28 => Square::E4,
            29 => Square::F4,
            30 => Square::G4,
            31 => Square::H4,
            32 => Square::A5,
            33 => Square::B5,
            34 => Square::C5,
            35 => Square::D5,
            36 => Square::E5,
            37 => Square::F5,
            38 => Square::G5,
            39 => Square::H5,
            40 => Square::A6,
            41 => Square::B6,
            42 => Square::C6,
            43 => Square::D6,
            44 => Square::E6,
            45 => Square::F6,
            46 => Square::G6,
            47 => Square::H6,
            48 => Square::A7,
            49 => Square::B7,
            50 => Square::C7,
            51 => Square::D7,
            52 => Square::E7,
            53 => Square::F7,
            54 => Square::G7,
            55 => Square::H7,
            56 => Square::A8,
            57 => Square::B8,
            58 => Square::C8,
            59 => Square::D8,
            60 => Square::E8,
            61 => Square::F8,
            62 => Square::G8,
            _ => Square::H8,
        }
    }

    pub fn from_raw(raw: u8) -> (r: Option<Self>)
        ensures
            r is Some <==> raw < 64,
            r matches Some(s) ==> s as u8 == raw,
    {
        if (raw as usize) < Self::COUNT {
            Some(Self::from_index(raw))
        } else {
            None
        }
    }

    pub fn from_file_rank(file: usize, rank: usize) -> (r: Option<Self>)
        ensures
            r is Some <==> file < 8 && rank < 8,
            r matches Some(s) ==> s as int == rank * 8 + file,
            r matches Some(s) ==> file_of(s as int) == file && rank_of(s as int) == rank,
    {
        if file >= 8 || rank >= 8 {
            None
        } else {
            Some(Self::from_raw((rank as u8 * 8) + file as u8).unwrap())
        }
    }

    pub fn raw(self) -> (r: u8)
        ensures
            r == self as u8,
            r < 64,
    {
        self as u8
    }

    pub fn idx(self) -> (r: usize)
        ensures
            r == self as usize,
            r < 64,
    {
        self as usize
    }

    pub fn rank(self) -> (r: usize)
        ensures
            r == rank_of(self as int),
            r < 8,
    {
        self.raw() as usize / 8
    }

    pub fn file(self) -> (r: usize)
        ensures
            r == file_of(self as int),
            r < 8,
    {
        self.raw() as usize % 8
    }

    pub fn flip_file(self) -> (r: Self)
        ensures
            file_of(r as int) == 7 - file_of(self as int),
            rank_of(r as int) == rank_of(self as int),
    {
        let raw = self.raw();
        assert(raw < 64 ==> (raw ^ 7u8) < 64 && (raw ^ 7u8) % 8 == 7 - raw % 8 && (raw ^ 7u8) / 8
            == raw / 8) by (bit_vector);
        Self::from_index(raw ^ 0b000111)
    }

    pub fn flip_rank(self) -> (r: Self)
        ensures
            rank_of(r as int) == 7 - rank_of(self as int),
            file_of(r as int) == file_of(self as int),
    {
        let raw = self.raw();
        assert(raw < 64 ==> (raw ^ 56u8) < 64 && (raw ^ 56u8) % 8 == raw % 8 && (raw ^ 56u8) / 8
            == 7 - raw / 8) by (bit_vector);
        Self::from_index(raw ^ 0b111000)
    }

    pub fn bb(self) -> (r: Bitboard)
        ensures
            r@ == 1u64 << (self as u64),
            r@ == crate::bitboard::single(self as int),
    {
        Bitboard::from_raw(1u64 << self.raw())
    }

    /// The square `offset` steps away in index order; `None` where that leaves
    /// the board, below the first square or past the last.
    pub fn offset(self, offset: i32) -> (r: Option<Self>)
        ensures
            r is Some <==> 0 <= self as int + offset < 64,
            r matches Some(s) ==> s as int == self as int + offset,
    {
        let raw = self.raw() as i32;
        if offset == 0 || (offset < 0 && raw + offset >= 0) || (offset > 0 && offset < Self::COUNT
            as i32 - raw) {
            Some(Self::from_index((raw + offset) as u8))
        } else {
            None
        }
    }

    pub fn shift(self, dir: Direction) -> (r: Option<Self>)
        ensures
            r is Some <==> 0 <= self as int + dir.spec_offset() < 64,
            r matches Some(s) ==> s as int == self as int + dir.spec_offset(),
    {
        let shifted = self.raw() as i8 + dir.offset();
        if shifted >= 0 && shifted < Self::COUNT as i8 {
            Some(Self::from_raw(shifted as u8).unwrap())
        } else {
            None
        }
    }

    pub fn shift_checked(self, dir: Direction) -> (r: Option<Self>)
        ensures
            r is Some <==> 0 <= self as int + dir.spec_offset() < 64 && !(dir == Direction::Left
                && file_of(self as int) == 0) && !(dir == Direction::Right && file_of(self as int)
                == 7),
            r matches Some(s) ==> s as int == self as int + dir.spec_offset(),
    {
        match dir {
            Direction::Left if self.file() == 0 => None,
            Direction::Right if self.file() == 7 => None,
            _ => self.shift(dir),
        }
    }

    pub fn all() -> (r: SquareIterator)
        ensures
            r.position() == 0,
    {
        SquareIterator { raw: 0 }
    }

    /// The square's name in algebraic notation, such as `e2`.
    pub open spec fn name(self) -> Seq<char> {
        seq![
            (('a' as int) + file_of(self as int)) as char,
            (('1' as int) + rank_of(self as int)) as char,
        ]
    }

    /// The square's name in algebraic notation, such as `e2`.
    pub fn to_chars(self) -> (r: Vec<char>)
        ensures
            r@ == self.name(),
    {
        let f = (97u8 + self.file() as u8) as char;
        let rk = (49u8 + self.rank() as u8) as char;
        let mut v: Vec<char> = Vec::new();
        v.push(f);
        v.push(rk);
        v
    }

    /// The square's name in algebraic notation, such as `e2`.
    pub fn to_string(self) -> (r: String)
        ensures
            r@ == self.name(),
    {
        crate::text::string_from_chars(self.to_chars())
    }
}

/// Walks the squares in index order.
pub struct SquareIterator {
    raw: u8,
}

impl SquareIterator {
    /// How many calls of `next` have been made.
    pub closed spec fn position(&self) -> int {
        self.raw as int
    }

    pub fn next(&mut self) -> (r: Option<Square>)
        requires
            old(self).position() < 255,
        ensures
            final(self).position() == old(self).position() + 1,
            r is Some <==> old(self).position() < 64,
            r matches Some(s) ==> s as int == old(self).position(),
    {
        let sq = Square::from_raw(self.raw);
        self.raw += 1;
        sq
    }
}

pub const RANK_1: usize = 0;
pub const RANK_2: usize = 1;
pub const RANK_3: usize = 2;
pub const RANK_4: usize = 3;
pub const RANK_5: usize = 4;
pub const RANK_6: usize = 5;
pub const RANK_7: usize = 6;
pub const RANK_8: usize = 7;

pub const FILE_A: usize = 0;
pub const FILE_B: usize = 1;
pub const FILE_C: usize = 2;
pub const FILE_D: usize = 3;
pub const FILE_E: usize = 4;
pub const FILE_F: usize = 5;
pub const FILE_G: usize = 6;
pub const FILE_H: usize = 7;

/// A rank as seen from `color`'s side of the board.
pub open spec fn spec_relative_rank(color: Color, rank: int) -> int {
    match color {
        Color::White => rank,
        Color::Black => 7 - rank,
    }
}

pub fn relative_rank(color: Color, rank: usize) -> (r: usize)
    requires
        rank < 8,
    ensures
        r == spec_relative_rank(color, rank as int),
{
    match color {
        Color::White => rank,
        Color::Black => {
            assert(rank < 8 ==> rank ^ 7 == 7 - rank) by (bit_vector);
            rank ^ 7
        },
    }
}

} // verus!
