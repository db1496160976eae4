pub mod bitboard;
pub mod defs;
pub mod fen;

use vstd::prelude::*;

pub use self::bitboard::{bitboard_to_array, clear_bit, get_bit, pop_bit, set_bit, Bitboard};
use self::bitboard::is_member;
use crate::defs::{Piece, Square};

verus! {

/// A position: piece sets by kind (both colours together) and by colour,
/// castling rights (bit set), en-passant target, clocks and side to move
/// (`turn` is `true` for white).
#[derive(Debug, Clone, Copy, PartialEq, Eq)]
pub struct Board {
    pub pieces: [Bitboard; 6],
    pub color: [Bitboard; 2],
    pub castling: u8,
    pub en_passant: Option<u8>,
    pub half_move: u8,
    pub turn: bool,
    pub full_move: u8,
}

/// Number of piece kinds whose set holds square `s`.
pub open spec fn kinds_on(pieces: Seq<u64>, s: u64) -> int {
    (if is_member(pieces[0], s) {
        1int
    } else {
        0
    }) + (if is_member(pieces[1], s) {
        1int
    } else {
        0
    }) + (if is_member(pieces[2], s) {
        1int
    } else {
        0
    }) + (if is_member(pieces[3], s) {
        1int
    } else {
        0
    }) + (if is_member(pieces[4], s) {
        1int
    } else {
        0
    }) + (if is_member(pieces[5], s) {
        1int
    } else {
        0
    })
}

/// Number of colours whose set holds square `s`.
pub open spec fn colors_on(colors: Seq<u64>, s: u64) -> int {
    (if is_member(colors[0], s) {
        1int
    } else {
        0
    }) + (if is_member(colors[1], s) {
        1int
    } else {
        0
    })
}

/// Square `s` holds at most one piece, and it has a colour exactly when
/// it has a kind.
pub open spec fn square_ok(pieces: Seq<u64>, colors: Seq<u64>, s: u64) -> bool {
    kinds_on(pieces, s) <= 1 && colors_on(colors, s) == kinds_on(pieces, s)
}

/// Setting or toggling square `q` changes membership of `q` only.
pub proof fn lemma_toggle_square(x: u64, q: u64, s: u64)
    by (bit_vector)
    requires
        q < 64,
        s < 64,
    ensures
        is_member(x | (1u64 << q), s) == (is_member(x, s) || s == q),
        is_member(x ^ (1u64 << q), s) == (is_member(x, s) != (s == q)),
{
}

impl Board {
    /// The kind sets are pairwise disjoint, the two colour sets are
    /// disjoint, and the squares with a kind are the squares with a colour.
    pub open spec fn is_consistent(&self) -> bool {
        forall|s: u64| s < 64 ==> #[trigger] square_ok(self.pieces@, self.color@, s)
    }

    /// Whether this is the empty board with white to move, no castling
    /// rights, no en-passant target, a half-move clock of 0 and a full-move
    /// number of 1.
    pub open spec fn is_blank(&self) -> bool {
        &&& forall|k: int| 0 <= k < 6 ==> self.pieces[k] == 0
        &&& self.color[0] == 0
        &&& self.color[1] == 0
        &&& self.castling == 0
        &&& self.en_passant is None
        &&& self.half_move == 0
        &&& self.turn
        &&& self.full_move == 1
    }

    /// An empty board.
    pub fn new() -> (r: Board)
        ensures
            r.is_blank(),
    {
        Board {
            pieces: [0; 6],
            color: [0; 2],
            castling: 0,
            en_passant: None,
            half_move: 0,
            turn: true,
            full_move: 1,
        }
    }

    /// The pieces of one kind and one colour.
    pub fn get_pieces(&self, piece: usize, color: usize) -> (r: Bitboard)
        requires
            piece < 6,
            color < 2,
        ensures
            r == self.pieces[piece as int] & self.color[color as int],
    {
        self.pieces[piece] & self.color[color]
    }

    /// All pieces of both colours.
    pub fn get_all_pieces(&self) -> (r: Bitboard)
        ensures
            r == self.color[0] | self.color[1],
    {
        self.color[0] | self.color[1]
    }

    /// Toggles `square` off in the sets of `piece` and `color` (the piece
    /// is expected to stand there).
    pub fn remove_piece(&mut self, piece: Piece, square: Square, color: usize)
        requires
            piece < 6,
            square < 64,
            color < 2,
        ensures
            final(self).pieces@ == old(self).pieces@.update(
                piece as int,
                old(self).pieces[piece as int] ^ (1u64 << square as u64),
            ),
            final(self).color@ == old(self).color@.update(
                color as int,
                old(self).color[color as int] ^ (1u64 << square as u64),
            ),
            final(self).castling == old(self).castling,
            final(self).en_passant == old(self).en_passant,
            final(self).half_move == old(self).half_move,
            final(self).turn == old(self).turn,
            final(self).full_move == old(self).full_move,
            old(self).is_consistent() && is_member(old(self).pieces[piece as int], square as u64)
                && is_member(old(self).color[color as int], square as u64)
                ==> final(self).is_consistent(),
    {
        let ghost before = *self;
        let b: u64 = 1u64 << square as u64;
        self.pieces[piece] = self.pieces[piece] ^ b;
        self.color[color] = self.color[color] ^ b;
        proof {
            if before.is_consistent() && is_member(before.pieces[piece as int], square as u64)
                && is_member(before.color[color as int], square as u64) {
                assert forall|s: u64| s < 64 implies #[trigger] square_ok(
                    self.pieces@,
                    self.color@,
                    s,
                ) by {
                    assert(square_ok(before.pieces@, before.color@, s));
                    lemma_toggle_square(before.pieces[piece as int], square as u64, s);
                    lemma_toggle_square(before.color[color as int], square as u64, s);
                }
            }
        }
    }

    /// Puts `square` in the sets of `piece` and `color`.
    pub fn add_piece(&mut self, piece: Piece, square: Square, color: usize)
        requires
            piece < 6,
            square < 64,
            color < 2,
        ensures
            final(self).pieces@ == old(self).pieces@.update(
                piece as int,
                old(self).pieces[piece as int] | (1u64 << square as u64),
            ),
            final(self).color@ == old(self).color@.update(
                color as int,
                old(self).color[color as int] | (1u64 << square as u64),
            ),
            final(self).castling == old(self).castling,
            final(self).en_passant == old(self).en_passant,
            final(self).half_move == old(self).half_move,
            final(self).turn == old(self).turn,
            final(self).full_move == old(self).full_move,
            old(self).is_consistent() && kinds_on(old(self).pieces@, square as u64) == 0
                ==> final(self).is_consistent(),
    {
        let ghost before = *self;
        let b: u64 = 1u64 << square as u64;
        self.pieces[piece] = self.pieces[piece] | b;
        self.color[color] = self.color[color] | b;
        proof {
            if before.is_consistent() && kinds_on(before.pieces@, square as u64) == 0 {
                assert forall|s: u64| s < 64 implies #[trigger] square_ok(
                    self.pieces@,
                    self.color@,
                    s,
                ) by {
                    assert(square_ok(before.pieces@, before.color@, s));
                    lemma_toggle_square(before.pieces[piece as int], square as u64, s);
                    lemma_toggle_square(before.color[color as int], square as u64, s);
                }
            }
        }
    }

    /// Colour of the piece that moves from `from`: white when `from` is a
    /// white square of the board, black otherwise.
    pub open spec fn mover_color(&self, from: Square) -> usize {
        if is_member(self.color[0], from as u64) {
            0
        } else {
            1
        }
    }

    /// Moves a piece of kind `piece` from `from` to `to`, in the sets of its
    /// kind and of its colour.
    pub fn move_piece(&mut self, piece: Piece, from: Square, to: Square)
        requires
            piece < 6,
            from < 64,
            to < 64,
        ensures
            ({
                let c = old(self).mover_color(from) as int;
                let bf = 1u64 << from as u64;
                let bt = 1u64 << to as u64;
                &&& final(self).pieces@ == old(self).pieces@.update(
                    piece as int,
                    (old(self).pieces[piece as int] ^ bf) | bt,
                )
                &&& final(self).color@ == old(self).color@.update(c, (old(self).color[c] ^ bf) | bt)
            }),
            final(self).castling == old(self).castling,
            final(self).en_passant == old(self).en_passant,
            final(self).half_move == old(self).half_move,
            final(self).turn == old(self).turn,
            final(self).full_move == old(self).full_move,
            old(self).is_consistent() && is_member(old(self).pieces[piece as int], from as u64) && (
            kinds_on(old(self).pieces@, to as u64) == 0 || to == from)
                ==> final(self).is_consistent(),
    {
        proof {
            if self.is_consistent() && is_member(self.pieces[piece as int], from as u64) {
                assert(square_ok(self.pieces@, self.color@, from as u64));
            }
        }
        let color: usize = if get_bit(self.color[0], from) {
            0
        } else {
            1
        };
        let ghost before = *self;
        self.remove_piece(piece, from, color);
        proof {
            if before.is_consistent() && is_member(before.pieces[piece as int], from as u64) {
                assert(square_ok(before.pieces@, before.color@, to as u64));
                lemma_toggle_square(before.pieces[0], from as u64, to as u64);
                lemma_toggle_square(before.pieces[1], from as u64, to as u64);
                lemma_toggle_square(before.pieces[2], from as u64, to as u64);
                lemma_toggle_square(before.pieces[3], from as u64, to as u64);
                lemma_toggle_square(before.pieces[4], from as u64, to as u64);
                lemma_toggle_square(before.pieces[5], from as u64, to as u64);
                lemma_toggle_square(before.pieces[piece as int], from as u64, from as u64);
            }
        }
        self.add_piece(piece, to, color);
    }

    /// Derived state is not kept yet: leaves the board as it is.
    pub fn init(&mut self)
        ensures
            *final(self) == *old(self),
    {
    }

    /// Clears the board back to the empty position of `new`.
    pub fn reset(&mut self)
        ensures
            final(self).is_blank(),
    {
        self.pieces = [0; 6];
        self.color = [0; 2];
        self.castling = 0;
        self.en_passant = None;
        self.half_move = 0;
        self.turn = true;
        self.full_move = 1;
    }
}

} // verus!
