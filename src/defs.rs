use vstd::prelude::*;

use crate::board::bitboard::Bitboard;

verus! {

/// Sizes of the board's dimensions.
pub struct NrOf;

impl NrOf {
    pub const PIECE_TYPES: usize = 6;

    pub const CASTLING_PERMISSIONS: usize = 16;

    pub const SQUARES: usize = 64;

    pub const FILES: usize = 8;

    pub const RANKS: usize = 8;

    pub const COLORS: usize = 2;
}

/// The standard starting position.
pub const FEN_START_POSITION: &'static str = "rnbqkbnr/pppppppp/8/8/8/8/PPPPPPPP/RNBQKBNR w KQkq - 0 1";

/// Upper bound of the half-move clock and the full-move number.
pub const MAX_MOVES: u8 = 100;

/// A square index, `rank * 8 + file`.
pub type Square = usize;

/// A piece kind index (see `Pieces`).
pub type Piece = usize;

pub const EMPTY: u64 = 0;

/// Castling-right flags.
pub struct Castling;

impl Castling {
    pub const WK: u8 = 1;

    pub const WQ: u8 = 2;

    pub const BK: u8 = 4;

    pub const BQ: u8 = 8;

    pub const ALL: u8 = 15;
}

/// The piece kinds, in index order.
#[derive(Debug, Clone, Copy, PartialEq, Eq, Structural)]
pub enum Pieces {
    KING,
    QUEEN,
    ROOK,
    BISHOP,
    KNIGHT,
    PAWN,
    NONE,
}

impl Pieces {
    /// English name of the kind.
    pub fn as_string(&self) -> (r: &'static str)
        ensures
            r@ == match self {
                Pieces::KING => "King"@,
                Pieces::QUEEN => "Queen"@,
                Pieces::ROOK => "Rook"@,
                Pieces::BISHOP => "Bishop"@,
                Pieces::KNIGHT => "Knight"@,
                Pieces::PAWN => "Pawn"@,
                Pieces::NONE => "_"@,
            },
    {
        match self {
            Pieces::KING => "King",
            Pieces::QUEEN => "Queen",
            Pieces::ROOK => "Rook",
            Pieces::BISHOP => "Bishop",
            Pieces::KNIGHT => "Knight",
            Pieces::PAWN => "Pawn",
            Pieces::NONE => "_",
        }
    }

    /// Letter of the kind (white's, upper case); `_` for no piece.
    pub fn as_char(&self) -> (r: char)
        ensures
            r == match self {
                Pieces::KING => 'K',
                Pieces::QUEEN => 'Q',
                Pieces::ROOK => 'R',
                Pieces::BISHOP => 'B',
                Pieces::KNIGHT => 'N',
                Pieces::PAWN => 'P',
                Pieces::NONE => '_',
            },
    {
        match self {
            Pieces::KING => 'K',
            Pieces::QUEEN => 'Q',
            Pieces::ROOK => 'R',
            Pieces::BISHOP => 'B',
            Pieces::KNIGHT => 'N',
            Pieces::PAWN => 'P',
            Pieces::NONE => '_',
        }
    }
}

/// A colour index: 0 for white, 1 for black.
pub type Color = usize;

/// The two sides.
#[derive(Debug, Clone, Copy, PartialEq, Eq, Structural)]
pub enum Colors {
    WHITE,
    BLACK,
}

impl Colors {
    /// English name of the side.
    pub fn as_string(&self) -> (r: &'static str)
        ensures
            r@ == match self {
                Colors::WHITE => "White"@,
                Colors::BLACK => "Black"@,
            },
    {
        match self {
            Colors::WHITE => "White",
            Colors::BLACK => "Black",
        }
    }
}

/// The single-square bitboard of every square.
pub fn init_bb_squares() -> (r: [Bitboard; 64])
    ensures
        forall|i: int| 0 <= i < 64 ==> r[i] == 1u64 << (i as u64),
{
    let mut squares: [Bitboard; 64] = [0; 64];
    let mut i: usize = 0;
    while i < 64
        invariant
            i <= 64,
            forall|j: int| 0 <= j < i ==> squares[j] == 1u64 << (j as u64),
        decreases 64 - i,
    {
        squares[i] = 1u64 << i as u64;
        i = i + 1;
    }
    squares
}

/// File letter of file index `f`.
pub open spec fn file_letter(f: int) -> char {
    if f == 0 {
        'a'
    } else if f == 1 {
        'b'
    } else if f == 2 {
        'c'
    } else if f == 3 {
        'd'
    } else if f == 4 {
        'e'
    } else if f == 5 {
        'f'
    } else if f == 6 {
        'g'
    } else {
        'h'
    }
}

/// Rank digit of rank index `r`.
pub open spec fn rank_digit(r: int) -> char {
    if r == 0 {
        '1'
    } else if r == 1 {
        '2'
    } else if r == 2 {
        '3'
    } else if r == 3 {
        '4'
    } else if r == 4 {
        '5'
    } else if r == 5 {
        '6'
    } else if r == 6 {
        '7'
    } else {
        '8'
    }
}

/// Name of square `sq`, file letter then rank digit.
pub open spec fn square_name(sq: int) -> Seq<char> {
    seq![file_letter(sq % 8), rank_digit(sq / 8)]
}

/// The squares of the board, `A1` to `H8`, in index order.
#[allow(non_camel_case_types)]
#[derive(Debug, Clone, Copy, PartialEq, Eq, Structural)]
pub enum ALL_SQUARES {
    A1,
    B1,
    C1,
    D1,
    E1,
    F1,
    G1,
    H1,
    A2,
    B2,
    C2,
    D2,
    E2,
    F2,
    G2,
    H2,
    A3,
    B3,
    C3,
    D3,
    E3,
    F3,
    G3,
    H3,
    A4,
    B4,
    C4,
    D4,
    E4,
    F4,
    G4,
    H4,
    A5,
    B5,
    C5,
    D5,
    E5,
    F5,
    G5,
    H5,
    A6,
    B6,
    C6,
    D6,
    E6,
    F6,
    G6,
    H6,
    A7,
    B7,
    C7,
    D7,
    E7,
    F7,
    G7,
    H7,
    A8,
    B8,
    C8,
    D8,
    E8,
    F8,
    G8,
    H8,
}

impl ALL_SQUARES {
    /// Index of the square, `rank * 8 + file`.
    pub open spec fn spec_index(&self) -> int {
        match self {
            ALL_SQUARES::A1 => 0,
            ALL_SQUARES::B1 => 1,
            ALL_SQUARES::C1 => 2,
            ALL_SQUARES::D1 => 3,
            ALL_SQUARES::E1 => 4,
            ALL_SQUARES::F1 => 5,
            ALL_SQUARES::G1 => 6,
            ALL_SQUARES::H1 => 7,
            ALL_SQUARES::A2 => 8,
            ALL_SQUARES::B2 => 9,
            ALL_SQUARES::C2 => 10,
            ALL_SQUARES::D2 => 11,
            ALL_SQUARES::E2 => 12,
            ALL_SQUARES::F2 => 13,
            ALL_SQUARES::G2 => 14,
            ALL_SQUARES::H2 => 15,
            ALL_SQUARES::A3 => 16,
            ALL_SQUARES::B3 => 17,
            ALL_SQUARES::C3 => 18,
            ALL_SQUARES::D3 => 19,
            ALL_SQUARES::E3 => 20,
            ALL_SQUARES::F3 => 21,
            ALL_SQUARES::G3 => 22,
            ALL_SQUARES::H3 => 23,
            ALL_SQUARES::A4 => 24,
            ALL_SQUARES::B4 => 25,
            ALL_SQUARES::C4 => 26,
            ALL_SQUARES::D4 => 27,
            ALL_SQUARES::E4 => 28,
            ALL_SQUARES::F4 => 29,
            ALL_SQUARES::G4 => 30,
            ALL_SQUARES::H4 => 31,
            ALL_SQUARES::A5 => 32,
            ALL_SQUARES::B5 => 33,
            ALL_SQUARES::C5 => 34,
            ALL_SQUARES::D5 => 35,
            ALL_SQUARES::E5 => 36,
            ALL_SQUARES::F5 => 37,
            ALL_SQUARES::G5 => 38,
            ALL_SQUARES::H5 => 39,
            ALL_SQUARES::A6 => 40,
            ALL_SQUARES::B6 => 41,
            ALL_SQUARES::C6 => 42,
            ALL_SQUARES::D6 => 43,
            ALL_SQUARES::E6 => 44,
            ALL_SQUARES::F6 => 45,
            ALL_SQUARES::G6 => 46,
            ALL_SQUARES::H6 => 47,
            ALL_SQUARES::A7 => 48,
            ALL_SQUARES::B7 => 49,
            ALL_SQUARES::C7 => 50,
            ALL_SQUARES::D7 => 51,
            ALL_SQUARES::E7 => 52,
            ALL_SQUARES::F7 => 53,
            ALL_SQUARES::G7 => 54,
            ALL_SQUARES::H7 => 55,
            ALL_SQUARES::A8 => 56,
            ALL_SQUARES::B8 => 57,
            ALL_SQUARES::C8 => 58,
            ALL_SQUARES::D8 => 59,
            ALL_SQUARES::E8 => 60,
            ALL_SQUARES::F8 => 61,
            ALL_SQUARES::G8 => 62,
            ALL_SQUARES::H8 => 63,
        }
    }

    /// Index of the square, `rank * 8 + file`.
    pub fn index(&self) -> (r: Square)
        ensures
            r == self.spec_index(),
            r < 64,
    {
        match self {
            ALL_SQUARES::A1 => 0,
            ALL_SQUARES::B1 => 1,
            ALL_SQUARES::C1 => 2,
            ALL_SQUARES::D1 => 3,
            ALL_SQUARES::E1 => 4,
            ALL_SQUARES::F1 => 5,
            ALL_SQUARES::G1 => 6,
            ALL_SQUARES::H1 => 7,
            ALL_SQUARES::A2 => 8,
            ALL_SQUARES::B2 => 9,
            ALL_SQUARES::C2 => 10,
            ALL_SQUARES::D2 => 11,
            ALL_SQUARES::E2 => 12,
            ALL_SQUARES::F2 => 13,
            ALL_SQUARES::G2 => 14,
            ALL_SQUARES::H2 => 15,
            ALL_SQUARES::A3 => 16,
            ALL_SQUARES::B3 => 17,
            ALL_SQUARES::C3 => 18,
            ALL_SQUARES::D3 => 19,
            ALL_SQUARES::E3 => 20,
            ALL_SQUARES::F3 => 21,
            ALL_SQUARES::G3 => 22,
            ALL_SQUARES::H3 => 23,
            ALL_SQUARES::A4 => 24,
            ALL_SQUARES::B4 => 25,
            ALL_SQUARES::C4 => 26,
            ALL_SQUARES::D4 => 27,
            ALL_SQUARES::E4 => 28,
            ALL_SQUARES::F4 => 29,
            ALL_SQUARES::G4 => 30,
            ALL_SQUARES::H4 => 31,
            ALL_SQUARES::A5 => 32,
            ALL_SQUARES::B5 => 33,
            ALL_SQUARES::C5 => 34,
            ALL_SQUARES::D5 => 35,
            ALL_SQUARES::E5 => 36,
            ALL_SQUARES::F5 => 37,
            ALL_SQUARES::G5 => 38,
            ALL_SQUARES::H5 => 39,
            ALL_SQUARES::A6 => 40,
            ALL_SQUARES::B6 => 41,
            ALL_SQUARES::C6 => 42,
            ALL_SQUARES::D6 => 43,
            ALL_SQUARES::E6 => 44,
            ALL_SQUARES::F6 => 45,
            ALL_SQUARES::G6 => 46,
            ALL_SQUARES::H6 => 47,
            ALL_SQUARES::A7 => 48,
            ALL_SQUARES::B7 => 49,
            ALL_SQUARES::C7 => 50,
            ALL_SQUARES::D7 => 51,
            ALL_SQUARES::E7 => 52,
            ALL_SQUARES::F7 => 53,
            ALL_SQUARES::G7 => 54,
            ALL_SQUARES::H7 => 55,
            ALL_SQUARES::A8 => 56,
            ALL_SQUARES::B8 => 57,
            ALL_SQUARES::C8 => 58,
            ALL_SQUARES::D8 => 59,
            ALL_SQUARES::E8 => 60,
            ALL_SQUARES::F8 => 61,
            ALL_SQUARES::G8 => 62,
            ALL_SQUARES::H8 => 63,
        }
    }

    /// Name of the square, such as `"e4"`.
    pub fn as_string(&self) -> (r: &'static str)
        ensures
            r@ == square_name(self.spec_index()),
    {
        match self {
            ALL_SQUARES::A1 => {
                proof {
                    reveal_strlit("a1");
                }
                "a1"
            },
            ALL_SQUARES::B1 => {
                proof {
                    reveal_strlit("b1");
                }
                "b1"
            },
            ALL_SQUARES::C1 => {
                proof {
                    reveal_strlit("c1");
                }
                "c1"
            },
            ALL_SQUARES::D1 => {
                proof {
                    reveal_strlit("d1");
                }
                "d1"
            },
            ALL_SQUARES::E1 => {
                proof {
                    reveal_strlit("e1");
                }
                "e1"
            },
            ALL_SQUARES::F1 => {
                proof {
                    reveal_strlit("f1");
                }
                "f1"
            },
            ALL_SQUARES::G1 => {
                proof {
                    reveal_strlit("g1");
                }
                "g1"
            },
            ALL_SQUARES::H1 => {
                proof {
                    reveal_strlit("h1");
                }
                "h1"
            },
            ALL_SQUARES::A2 => {
                proof {
                    reveal_strlit("a2");
                }
                "a2"
            },
            ALL_SQUARES::B2 => {
                proof {
                    reveal_strlit("b2");
                }
                "b2"
            },
            ALL_SQUARES::C2 => {
                proof {
                    reveal_strlit("c2");
                }
                "c2"
            },
            ALL_SQUARES::D2 => {
                proof {
                    reveal_strlit("d2");
                }
                "d2"
            },
            ALL_SQUARES::E2 => {
                proof {
                    reveal_strlit("e2");
                }
                "e2"
            },
            ALL_SQUARES::F2 => {
                proof {
                    reveal_strlit("f2");
                }
                "f2"
            },
            ALL_SQUARES::G2 => {
                proof {
                    reveal_strlit("g2");
                }
                "g2"
            },
            ALL_SQUARES::H2 => {
                proof {
                    reveal_strlit("h2");
                }
                "h2"
            },
            ALL_SQUARES::A3 => {
                proof {
                    reveal_strlit("a3");
                }
                "a3"
            },
            ALL_SQUARES::B3 => {
                proof {
                    reveal_strlit("b3");
                }
                "b3"
            },
            ALL_SQUARES::C3 => {
                proof {
                    reveal_strlit("c3");
                }
                "c3"
            },
            ALL_SQUARES::D3 => {
                proof {
                    reveal_strlit("d3");
                }
                "d3"
            },
            ALL_SQUARES::E3 => {
                proof {
                    reveal_strlit("e3");
                }
                "e3"
            },
            ALL_SQUARES::F3 => {
                proof {
                    reveal_strlit("f3");
                }
                "f3"
            },
            ALL_SQUARES::G3 => {
                proof {
                    reveal_strlit("g3");
                }
                "g3"
            },
            ALL_SQUARES::H3 => {
                proof {
                    reveal_strlit("h3");
                }
                "h3"
            },
            ALL_SQUARES::A4 => {
                proof {
                    reveal_strlit("a4");
                }
                "a4"
            },
            ALL_SQUARES::B4 => {
                proof {
                    reveal_strlit("b4");
                }
                "b4"
            },
            ALL_SQUARES::C4 => {
                proof {
                    reveal_strlit("c4");
                }
                "c4"
            },
            ALL_SQUARES::D4 => {
                proof {
                    reveal_strlit("d4");
                }
                "d4"
            },
            ALL_SQUARES::E4 => {
                proof {
                    reveal_strlit("e4");
                }
                "e4"
            },
            ALL_SQUARES::F4 => {
                proof {
                    reveal_strlit("f4");
                }
                "f4"
            },
            ALL_SQUARES::G4 => {
                proof {
                    reveal_strlit("g4");
                }
                "g4"
            },
            ALL_SQUARES::H4 => {
                proof {
                    reveal_strlit("h4");
                }
                "h4"
            },
            ALL_SQUARES::A5 => {
                proof {
                    reveal_strlit("a5");
                }
                "a5"
            },
            ALL_SQUARES::B5 => {
                proof {
                    reveal_strlit("b5");
                }
                "b5"
            },
            ALL_SQUARES::C5 => {
                proof {
                    reveal_strlit("c5");
                }
                "c5"
            },
            ALL_SQUARES::D5 => {
                proof {
                    reveal_strlit("d5");
                }
                "d5"
            },
            ALL_SQUARES::E5 => {
                proof {
                    reveal_strlit("e5");
                }
                "e5"
            },
            ALL_SQUARES::F5 => {
                proof {
                    reveal_strlit("f5");
                }
                "f5"
            },
            ALL_SQUARES::G5 => {
                proof {
                    reveal_strlit("g5");
                }
                "g5"
            },
            ALL_SQUARES::H5 => {
                proof {
                    reveal_strlit("h5");
                }
                "h5"
            },
            ALL_SQUARES::A6 => {
                proof {
                    reveal_strlit("a6");
                }
                "a6"
            },
            ALL_SQUARES::B6 => {
                proof {
                    reveal_strlit("b6");
                }
                "b6"
            },
            ALL_SQUARES::C6 => {
                proof {
                    reveal_strlit("c6");
                }
                "c6"
            },
            ALL_SQUARES::D6 => {
                proof {
                    reveal_strlit("d6");
                }
                "d6"
            },
            ALL_SQUARES::E6 => {
                proof {
                    reveal_strlit("e6");
                }
                "e6"
            },
            ALL_SQUARES::F6 => {
                proof {
                    reveal_strlit("f6");
                }
                "f6"
            },
            ALL_SQUARES::G6 => {
                proof {
                    reveal_strlit("g6");
                }
                "g6"
            },
            ALL_SQUARES::H6 => {
                proof {
                    reveal_strlit("h6");
                }
                "h6"
            },
            ALL_SQUARES::A7 => {
                proof {
                    reveal_strlit("a7");
                }
                "a7"
            },
            ALL_SQUARES::B7 => {
                proof {
                    reveal_strlit("b7");
                }
                "b7"
            },
            ALL_SQUARES::C7 => {
                proof {
                    reveal_strlit("c7");
                }
                "c7"
            },
            ALL_SQUARES::D7 => {
                proof {
                    reveal_strlit("d7");
                }
                "d7"
            },
            ALL_SQUARES::E7 => {
                proof {
                    reveal_strlit("e7");
                }
                "e7"
            },
            ALL_SQUARES::F7 => {
                proof {
                    reveal_strlit("f7");
                }
                "f7"
            },
            ALL_SQUARES::G7 => {
                proof {
                    reveal_strlit("g7");
                }
                "g7"
            },
            ALL_SQUARES::H7 => {
                proof {
                    reveal_strlit("h7");
                }
                "h7"
            },
            ALL_SQUARES::A8 => {
                proof {
                    reveal_strlit("a8");
                }
                "a8"
            },
            ALL_SQUARES::B8 => {
                proof {
                    reveal_strlit("b8");
                }
                "b8"
            },
            ALL_SQUARES::C8 => {
                proof {
                    reveal_strlit("c8");
                }
                "c8"
            },
            ALL_SQUARES::D8 => {
                proof {
                    reveal_strlit("d8");
                }
                "d8"
            },
            ALL_SQUARES::E8 => {
                proof {
                    reveal_strlit("e8");
                }
                "e8"
            },
            ALL_SQUARES::F8 => {
                proof {
                    reveal_strlit("f8");
                }
                "f8"
            },
            ALL_SQUARES::G8 => {
                proof {
                    reveal_strlit("g8");
                }
                "g8"
            },
            ALL_SQUARES::H8 => {
                proof {
                    reveal_strlit("h8");
                }
                "h8"
            },
        }
    }
}

} // verus!
