use vstd::prelude::*;

use crate::defs::Square;

verus! {

/// Piece kind indices.
pub struct Pieces;

impl Pieces {
    pub const KING: usize = 0;

    pub const QUEEN: usize = 1;

    pub const ROOK: usize = 2;

    pub const BISHOP: usize = 3;

    pub const KNIGHT: usize = 4;

    pub const PAWN: usize = 5;

    pub const NONE: usize = 6;
}

/// Colour indices.
pub struct Colors;

impl Colors {
    pub const WHITE: usize = 0;

    pub const BLACK: usize = 1;
}

pub const EMPTY: u64 = 0;

/// Indices of the squares that castling and en passant refer to.
pub struct Squares;

impl Squares {
    pub const A1: Square = 0;

    pub const B1: Square = 1;

    pub const C1: Square = 2;

    pub const D1: Square = 3;

    pub const E1: Square = 4;

    pub const F1: Square = 5;

    pub const G1: Square = 6;

    pub const H1: Square = 7;

    pub const A2: Square = 8;

    pub const B2: Square = 9;

    pub const C2: Square = 10;

    pub const D2: Square = 11;

    pub const E2: Square = 12;

    pub const F2: Square = 13;

    pub const G2: Square = 14;

    pub const H2: Square = 15;

    pub const A8: Square = 56;

    pub const B8: Square = 57;

    pub const C8: Square = 58;

    pub const D8: Square = 59;

    pub const E8: Square = 60;

    pub const F8: Square = 61;

    pub const G8: Square = 62;

    pub const H8: Square = 63;

    pub const A3: Square = 16;

    pub const H3: Square = 23;

    pub const A6: Square = 40;

    pub const H6: Square = 47;
}

} // verus!
