//! Squares, colours and piece kinds.
use vstd::prelude::*;
use vstd::string::StringSliceAdditionalSpecFns;

verus! {

/// A square, 0 = a1 .. 63 = h8 (rank-major).
pub type Square = u8;

/// Stands for "no square" (no en passant square, for instance).
pub const NO_SQUARE: Square = 64;

#[derive(Copy, Clone, PartialEq, Eq, Debug, Structural)]
pub enum Color {
    White,
    Black,
}

#[derive(Copy, Clone, PartialEq, Eq, Debug, Structural)]
pub enum PieceType {
    Pawn,
    Knight,
    Bishop,
    Rook,
    Queen,
    King,
}

pub open spec fn color_index(c: Color) -> int {
    match c {
        Color::White => 0,
        Color::Black => 1,
    }
}

pub open spec fn opposite(c: Color) -> Color {
    match c {
        Color::White => Color::Black,
        Color::Black => Color::White,
    }
}

pub open spec fn piece_index(p: PieceType) -> int {
    match p {
        PieceType::Pawn => 0,
        PieceType::Knight => 1,
        PieceType::Bishop => 2,
        PieceType::Rook => 3,
        PieceType::Queen => 4,
        PieceType::King => 5,
    }
}

/// The piece kind with the given index (inverse of `piece_index`).
pub open spec fn piece_of_index(i: int) -> PieceType {
    if i == 0 {
        PieceType::Pawn
    } else if i == 1 {
        PieceType::Knight
    } else if i == 2 {
        PieceType::Bishop
    } else if i == 3 {
        PieceType::Rook
    } else if i == 4 {
        PieceType::Queen
    } else {
        PieceType::King
    }
}

pub open spec fn color_of_index(i: int) -> Color {
    if i == 0 {
        Color::White
    } else {
        Color::Black
    }
}

impl Color {
    pub fn opp(self) -> (r: Color)
        ensures
            r == opposite(self),
    {
        match self {
            Color::White => Color::Black,
            Color::Black => Color::White,
        }
    }

    pub fn idx(self) -> (r: usize)
        ensures
            r == color_index(self),
            r < 2,
    {
        match self {
            Color::White => 0,
            Color::Black => 1,
        }
    }
}

/// The letter FEN uses for a piece kind, lower case.
pub open spec fn piece_letter(p: PieceType) -> char {
    match p {
        PieceType::Pawn => 'p',
        PieceType::Knight => 'n',
        PieceType::Bishop => 'b',
        PieceType::Rook => 'r',
        PieceType::Queen => 'q',
        PieceType::King => 'k',
    }
}

/// The FEN letter of a piece: upper case for White, lower case for Black.
pub open spec fn piece_char(p: PieceType, c: Color) -> char {
    match c {
        Color::White => match p {
            PieceType::Pawn => 'P',
            PieceType::Knight => 'N',
            PieceType::Bishop => 'B',
            PieceType::Rook => 'R',
            PieceType::Queen => 'Q',
            PieceType::King => 'K',
        },
        Color::Black => piece_letter(p),
    }
}

impl PieceType {
    pub fn idx(self) -> (r: usize)
        ensures
            r == piece_index(self),
            r < 6,
    {
        match self {
            PieceType::Pawn => 0,
            PieceType::Knight => 1,
            PieceType::Bishop => 2,
            PieceType::Rook => 3,
            PieceType::Queen => 4,
            PieceType::King => 5,
        }
    }

    pub fn to_char(self, c: Color) -> (r: char)
        ensures
            r == piece_char(self, c),
    {
        match c {
            Color::White => match self {
                PieceType::Pawn => 'P',
                PieceType::Knight => 'N',
                PieceType::Bishop => 'B',
                PieceType::Rook => 'R',
                PieceType::Queen => 'Q',
                PieceType::King => 'K',
            },
            Color::Black => match self {
                PieceType::Pawn => 'p',
                PieceType::Knight => 'n',
                PieceType::Bishop => 'b',
                PieceType::Rook => 'r',
                PieceType::Queen => 'q',
                PieceType::King => 'k',
            },
        }
    }
}

pub const ALL_PIECES: [PieceType; 6] = [
    PieceType::Pawn,
    PieceType::Knight,
    PieceType::Bishop,
    PieceType::Rook,
    PieceType::Queen,
    PieceType::King,
];

pub fn file_of(s: Square) -> (r: u8)
    ensures
        r == s % 8,
        r < 8,
{
    s % 8
}

pub fn rank_of(s: Square) -> (r: u8)
    ensures
        r == s / 8,
{
    s / 8
}

pub fn sq(file: u8, rank: u8) -> (r: Square)
    requires
        file < 8,
        rank < 8,
    ensures
        r == rank * 8 + file,
        r < 64,
{
    rank * 8 + file
}

/// The two characters naming a square ("e4"), or "-" for a square off the board.
pub open spec fn square_name(s: int) -> Seq<char> {
    if 0 <= s < 64 {
        seq![(('a' as int) + s % 8) as char, (('1' as int) + s / 8) as char]
    } else {
        seq!['-']
    }
}

/// The bytes of `square_name`.
pub open spec fn square_name_bytes(s: int) -> Seq<u8> {
    if 0 <= s < 64 {
        seq![(97 + s % 8) as u8, (49 + s / 8) as u8]
    } else {
        seq![45u8]
    }
}

pub fn sq_name_bytes(s: Square, out: &mut Vec<u8>)
    ensures
        final(out)@ == old(out)@ + square_name_bytes(s as int),
{
    if s < 64 {
        out.push(97 + s % 8);
        out.push(49 + s / 8);
    } else {
        out.push(45);
    }
}

pub fn sq_name(s: Square) -> (r: String)
    ensures
        r@ == crate::text::chars_of(square_name_bytes(s as int)),
{
    let mut v: Vec<u8> = Vec::new();
    sq_name_bytes(s, &mut v);
    assert(v@ == square_name_bytes(s as int));
    crate::text::ascii_string(v)
}

/// The square named by the two bytes `file letter, rank digit`, if they name one.
pub open spec fn parse_square_bytes(b: Seq<u8>) -> Option<int> {
    if b.len() >= 2 && 97 <= b[0] <= 104 && 49 <= b[1] <= 56 {
        Some((b[1] - 49) * 8 + (b[0] - 97))
    } else {
        None
    }
}

/// Reads a square name such as "e3". Anything that does not start with a file
/// letter and a rank digit gives `NO_SQUARE`.
pub fn parse_sq_bytes(b: &[u8]) -> (r: Square)
    ensures
        r == (match parse_square_bytes(b@) {
            Some(x) => x,
            None => NO_SQUARE as int,
        }),
{
    if b.len() >= 2 && 97 <= b[0] && b[0] <= 104 && 49 <= b[1] && b[1] <= 56 {
        (b[1] - 49) * 8 + (b[0] - 97)
    } else {
        NO_SQUARE
    }
}

pub fn parse_sq(s: &str) -> (r: Square)
    ensures
        r == (match parse_square_bytes(s.spec_bytes()) {
            Some(x) => x,
            None => NO_SQUARE as int,
        }),
{
    parse_sq_bytes(s.as_bytes())
}

} // verus!
