//! Move-generation core of a chess engine: bitboards, leaper attack tables,
//! and a magic-bitboard attack oracle for sliding pieces, with a position
//! parser.

pub mod board;
pub mod defs;
pub mod magics;
pub mod moves;
pub mod ray_facts;
pub mod sorcery;
