use vstd::prelude::*;

use crate::board::bitboard::{count_bits, is_member, popcount, Bitboard};
use crate::magics::{BISHOP_MAGICS, ROOK_MAGICS};
use crate::ray_facts::{
    flip_horizontal, flip_vertical, lemma_bishop_mask_count, lemma_rays_see_mask_only,
    lemma_rook_mask_count, lemma_subset_selected,
};
use crate::sorcery::{
    bishop_mask, bishop_rays, deposit, enumerate_blockers, is_magic, lemma_index_bound, magic_index,
    lemma_placement_decides, mask_bishop_attacks, mask_rook_attacks, place_attacks, rook_mask,
    rook_rays, slider_mask, slider_rays,
    BISHOP_RELEVANT_BITS, ROOK_RELEVANT_BITS,
};

verus! {

pub const NOT_A_FILE: Bitboard = 0xfefefefefefefefe;

pub const NOT_H_FILE: Bitboard = 0x7f7f7f7f7f7f7f7f;

pub const NOT_HG_FILE: Bitboard = 0x3f3f3f3f3f3f3f3f;

pub const NOT_AB_FILE: Bitboard = 0xfcfcfcfcfcfcfcfc;

pub const NOT_FIRST_RANK: Bitboard = 0xffffffffffffff00;

pub const NOT_EIGHTH_RANK: Bitboard = 0x00ffffffffffffff;

pub const DARK_SQUARES: Bitboard = 0xaa55aa55aa55aa55;

/// `bits` when `cond` holds, else the empty board.
pub open spec fn gate(cond: bool, bits: u64) -> u64 {
    if cond {
        bits
    } else {
        0
    }
}

/// Squares a pawn of `color` (0 white, 1 black) on `sq` attacks: the two
/// forward diagonals, each dropped where it would wrap around the board.
pub open spec fn pawn_targets(color: int, sq: u64) -> u64 {
    let b = 1u64 << sq;
    if color == 0 {
        gate(b & NOT_A_FILE != 0, b << 7u64) | gate(b & NOT_H_FILE != 0, b << 9u64)
    } else {
        gate(b & NOT_A_FILE != 0, b >> 9u64) | gate(b & NOT_H_FILE != 0, b >> 7u64)
    }
}

/// Squares a knight on `sq` attacks: the eight (2, 1) jumps, each pair
/// dropped where its file step would wrap around the board.
pub open spec fn knight_targets(sq: u64) -> u64 {
    let b = 1u64 << sq;
    gate(b & NOT_H_FILE != 0, (b << 17u64) | (b >> 15u64)) | gate(
        b & NOT_A_FILE != 0,
        (b << 15u64) | (b >> 17u64),
    ) | gate(b & NOT_HG_FILE != 0, (b << 10u64) | (b >> 6u64)) | gate(
        b & NOT_AB_FILE != 0,
        (b << 6u64) | (b >> 10u64),
    )
}

/// Squares a king on `sq` attacks: the up to eight neighbours.
pub open spec fn king_targets(sq: u64) -> u64 {
    let b = 1u64 << sq;
    gate(
        b & NOT_H_FILE != 0,
        gate(b & NOT_EIGHTH_RANK != 0, b << 9u64) | gate(b & NOT_FIRST_RANK != 0, b >> 7u64) | (b
            << 1u64),
    ) | gate(
        b & NOT_A_FILE != 0,
        gate(b & NOT_EIGHTH_RANK != 0, b << 7u64) | gate(b & NOT_FIRST_RANK != 0, b >> 9u64) | (b
            >> 1u64),
    ) | gate(b & NOT_EIGHTH_RANK != 0, b << 8u64) | gate(b & NOT_FIRST_RANK != 0, b >> 8u64)
}

/// Whether `t` is a knight's jump from `sq`: two ranks and one file away,
/// or one rank and two files.
pub open spec fn knight_jump(sq: u64, t: u64) -> bool {
    let (r, f, tr, tf) = (sq / 8, sq % 8, t / 8, t % 8);
    ((tr == r + 1 || r == tr + 1) && (tf == f + 2 || f == tf + 2)) || ((tr == r + 2 || r == tr
        + 2) && (tf == f + 1 || f == tf + 1))
}

/// Whether `t` is one of the up to eight neighbours of `sq`.
pub open spec fn king_step(sq: u64, t: u64) -> bool {
    let (r, f, tr, tf) = (sq / 8, sq % 8, t / 8, t % 8);
    t != sq && (tr == r || tr == r + 1 || r == tr + 1) && (tf == f || tf == f + 1 || f == tf + 1)
}

/// Whether `t` is diagonally in front of `sq` for a pawn of `color`
/// (white moves towards rank 8).
pub open spec fn pawn_hit(color: int, sq: u64, t: u64) -> bool {
    let (r, f, tr, tf) = (sq / 8, sq % 8, t / 8, t % 8);
    (if color == 0 {
        tr == r + 1
    } else {
        r == tr + 1
    }) && (tf == f + 1 || f == tf + 1)
}

/// The knight's shift formula gives exactly the squares a knight's jump
/// away.
pub proof fn lemma_knight_geometry(sq: u64, t: u64)
    by (bit_vector)
    requires
        sq < 64,
        t < 64,
    ensures
        is_member(knight_targets(sq), t) == knight_jump(sq, t),
{
}

/// The king's shift formula gives exactly the neighbouring squares.
pub proof fn lemma_king_geometry(sq: u64, t: u64)
    by (bit_vector)
    requires
        sq < 64,
        t < 64,
    ensures
        is_member(king_targets(sq), t) == king_step(sq, t),
{
}

/// The pawn's shift formula gives exactly the squares diagonally in front.
pub proof fn lemma_pawn_geometry(sq: u64, t: u64)
    by (bit_vector)
    requires
        sq < 64,
        t < 64,
    ensures
        is_member(pawn_targets(0, sq), t) == pawn_hit(0, sq, t),
        is_member(pawn_targets(1, sq), t) == pawn_hit(1, sq, t),
{
}

/// A white pawn and a black pawn on the same square never attack a common
/// square.
pub proof fn lemma_pawn_attacks_disjoint(sq: u64)
    requires
        sq < 64,
    ensures
        pawn_targets(0, sq) & pawn_targets(1, sq) == 0,
{
    assert(sq < 64 ==> (gate((1u64 << sq) & NOT_A_FILE != 0, (1u64 << sq) << 7u64) | gate(
        (1u64 << sq) & NOT_H_FILE != 0,
        (1u64 << sq) << 9u64,
    )) & (gate((1u64 << sq) & NOT_A_FILE != 0, (1u64 << sq) >> 9u64) | gate(
        (1u64 << sq) & NOT_H_FILE != 0,
        (1u64 << sq) >> 7u64,
    )) == 0) by (bit_vector);
}

/// Knight attacks are symmetric under flipping the board top to bottom and
/// under mirroring it left to right.
pub proof fn lemma_knight_mirror(sq: u64)
    by (bit_vector)
    requires
        sq < 64,
    ensures
        knight_targets(sq) == flip_vertical(knight_targets(sq ^ 56u64)),
        knight_targets(sq) == flip_horizontal(knight_targets(sq ^ 7u64)),
{
}

/// King attacks are symmetric under flipping the board top to bottom and
/// under mirroring it left to right.
pub proof fn lemma_king_mirror(sq: u64)
    by (bit_vector)
    requires
        sq < 64,
    ensures
        king_targets(sq) == flip_vertical(king_targets(sq ^ 56u64)),
        king_targets(sq) == flip_horizontal(king_targets(sq ^ 7u64)),
{
}

/// A rook's relevant mask has 10, 11 or 12 squares, as tabulated.
pub proof fn lemma_rook_relevant_bits(sq: int)
    requires
        0 <= sq < 64,
    ensures
        popcount(rook_mask(sq)) == ROOK_RELEVANT_BITS[sq],
        10 <= popcount(rook_mask(sq)) <= 12,
{
    lemma_rook_mask_count(sq);
    assert(forall|q: int| 0 <= q < 64 ==> 10 <= #[trigger] ROOK_RELEVANT_BITS[q] <= 12);
}

/// Away from the corners, a bishop's relevant mask has 5, 7 or 9 squares,
/// as tabulated (each corner has 6).
pub proof fn lemma_bishop_relevant_bits(sq: int)
    requires
        0 <= sq < 64,
        sq != 0 && sq != 7 && sq != 56 && sq != 63,
    ensures
        popcount(bishop_mask(sq)) == BISHOP_RELEVANT_BITS[sq],
        popcount(bishop_mask(sq)) == 5 || popcount(bishop_mask(sq)) == 7 || popcount(
            bishop_mask(sq),
        ) == 9,
{
    lemma_bishop_mask_count(sq);
    assert(forall|q: int|
        0 <= q < 64 && q != 0 && q != 7 && q != 56 && q != 63 ==> #[trigger] BISHOP_RELEVANT_BITS[q]
            == 5 || BISHOP_RELEVANT_BITS[q] == 7 || BISHOP_RELEVANT_BITS[q] == 9);
}

/// Squares a pawn of `color` on `sq` attacks.
pub fn pawn_attacks(color: usize, sq: usize) -> (r: Bitboard)
    requires
        color < 2,
        sq < 64,
    ensures
        r == pawn_targets(color as int, sq as u64),
        forall|t: u64| t < 64 ==> #[trigger] is_member(r, t) == pawn_hit(color as int, sq as u64, t),
{
    proof {
        assert forall|t: u64| t < 64 implies #[trigger] is_member(
            pawn_targets(color as int, sq as u64),
            t,
        ) == pawn_hit(color as int, sq as u64, t) by {
            lemma_pawn_geometry(sq as u64, t);
        }
    }
    let b: u64 = 1u64 << sq as u64;
    if color == 0 {
        let left = if b & NOT_A_FILE != 0 {
            b << 7u64
        } else {
            0
        };
        let right = if b & NOT_H_FILE != 0 {
            b << 9u64
        } else {
            0
        };
        left | right
    } else {
        let left = if b & NOT_A_FILE != 0 {
            b >> 9u64
        } else {
            0
        };
        let right = if b & NOT_H_FILE != 0 {
            b >> 7u64
        } else {
            0
        };
        left | right
    }
}

/// Squares a knight on `sq` attacks.
pub fn knight_attacks(sq: usize) -> (r: Bitboard)
    requires
        sq < 64,
    ensures
        r == knight_targets(sq as u64),
        forall|t: u64| t < 64 ==> #[trigger] is_member(r, t) == knight_jump(sq as u64, t),
{
    proof {
        assert forall|t: u64| t < 64 implies #[trigger] is_member(knight_targets(sq as u64), t)
            == knight_jump(sq as u64, t) by {
            lemma_knight_geometry(sq as u64, t);
        }
    }
    let b: u64 = 1u64 << sq as u64;
    let a1 = if b & NOT_H_FILE != 0 {
        (b << 17u64) | (b >> 15u64)
    } else {
        0
    };
    let a2 = if b & NOT_A_FILE != 0 {
        (b << 15u64) | (b >> 17u64)
    } else {
        0
    };
    let a3 = if b & NOT_HG_FILE != 0 {
        (b << 10u64) | (b >> 6u64)
    } else {
        0
    };
    let a4 = if b & NOT_AB_FILE != 0 {
        (b << 6u64) | (b >> 10u64)
    } else {
        0
    };
    a1 | a2 | a3 | a4
}

/// Squares a king on `sq` attacks.
pub fn king_attacks(sq: usize) -> (r: Bitboard)
    requires
        sq < 64,
    ensures
        r == king_targets(sq as u64),
        forall|t: u64| t < 64 ==> #[trigger] is_member(r, t) == king_step(sq as u64, t),
{
    proof {
        assert forall|t: u64| t < 64 implies #[trigger] is_member(king_targets(sq as u64), t)
            == king_step(sq as u64, t) by {
            lemma_king_geometry(sq as u64, t);
        }
    }
    let b: u64 = 1u64 << sq as u64;
    let up = if b & NOT_EIGHTH_RANK != 0 {
        b << 8u64
    } else {
        0
    };
    let down = if b & NOT_FIRST_RANK != 0 {
        b >> 8u64
    } else {
        0
    };
    let east = if b & NOT_H_FILE != 0 {
        let ne = if b & NOT_EIGHTH_RANK != 0 {
            b << 9u64
        } else {
            0
        };
        let se = if b & NOT_FIRST_RANK != 0 {
            b >> 7u64
        } else {
            0
        };
        ne | se | (b << 1u64)
    } else {
        0
    };
    let west = if b & NOT_A_FILE != 0 {
        let nw = if b & NOT_EIGHTH_RANK != 0 {
            b << 7u64
        } else {
            0
        };
        let sw = if b & NOT_FIRST_RANK != 0 {
            b >> 9u64
        } else {
            0
        };
        nw | sw | (b >> 1u64)
    } else {
        0
    };
    east | west | up | down
}

/// Why a table could not be built.
#[derive(Debug, Clone, Copy, PartialEq, Eq, Structural)]
pub enum TableError {
    /// The magic of this square sends two blocker sets with different
    /// attack sets to one slot.
    Collision { sq: usize, bishop: bool },
}

/// Tabulated relevant-bit count of a slider on `sq`.
pub open spec fn relevant_bits(sq: int, bishop: bool) -> int {
    if bishop {
        BISHOP_RELEVANT_BITS[sq] as int
    } else {
        ROOK_RELEVANT_BITS[sq] as int
    }
}

/// A slider's table row is complete: for every blocker set of the mask,
/// the slot its magic picks holds the attack set it leaves.
pub open spec fn row_holds(
    row: Seq<u64>,
    sq: int,
    bishop: bool,
    mask: u64,
    magic: u64,
    bits: u64,
) -> bool {
    &&& mask == slider_mask(sq, bishop)
    &&& bits == popcount(mask)
    &&& bits == relevant_bits(sq, bishop)
    &&& 1 <= bits <= 12
    &&& (1u64 << bits) <= row.len()
    &&& forall|i: u64|
        i < (1u64 << bits) ==> #[trigger] row[magic_index(deposit(i, mask), magic, bits) as int]
            == slider_rays(sq, deposit(i, mask), bishop)
}

/// What a build error says of the magics it was given.
pub open spec fn build_refused(e: TableError, bishop_magics: [u64; 64], rook_magics: [u64; 64]) -> bool {
    match e {
        TableError::Collision { sq, bishop } => sq < 64 && !is_magic(
            sq as int,
            bishop,
            if bishop {
                bishop_magics[sq as int]
            } else {
                rook_magics[sq as int]
            },
        ),
    }
}

proof fn lemma_row_size(bits: u64)
    requires
        1 <= bits <= 12,
    ensures
        bits <= 9 ==> (1u64 << bits) <= 512,
        (1u64 << bits) <= 4096,
{
    assert(1 <= bits <= 12 ==> (bits <= 9 ==> (1u64 << bits) <= 512) && (1u64 << bits) <= 4096)
        by (bit_vector);
}

/// The row of a slider on `sq` for the given magic: its mask, its number of
/// relevant squares, and its slots (512 for a bishop, 4096 for a rook)
/// filled by blocker set.
fn build_row(sq: usize, bishop: bool, magic: u64) -> (r: Result<(Bitboard, u64, Vec<Bitboard>), TableError>)
    requires
        sq < 64,
    ensures
        match r {
            Ok((mask, bits, row)) => row_holds(row@, sq as int, bishop, mask, magic, bits)
                && row.len() == (if bishop {
                512int
            } else {
                4096int
            }),
            Err(e) => match e {
                TableError::Collision { sq: s, bishop: b } => s == sq && b == bishop && !is_magic(
                    sq as int,
                    bishop,
                    magic,
                ),
            },
        },
{
    let mask = if bishop {
        mask_bishop_attacks(sq)
    } else {
        mask_rook_attacks(sq)
    };
    let bits = count_bits(mask) as u64;
    assert(bits as int == relevant_bits(sq as int, bishop));
    assert(1 <= bits <= 12 && (bishop ==> bits <= 9));
    proof {
        lemma_row_size(bits);
    }
    let size: usize = if bishop {
        512
    } else {
        4096
    };
    let (occupancies, attacks) = enumerate_blockers(sq, bishop, mask, bits);
    let placed = place_attacks(&occupancies, &attacks, magic, bits, size);
    proof {
        lemma_placement_decides(
            sq as int,
            bishop,
            mask,
            bits,
            magic,
            occupancies@,
            attacks@,
            placed,
        );
    }
    match placed {
        Some(row) => {
            assert forall|i: u64| i < (1u64 << bits) implies #[trigger] row@[magic_index(
                deposit(i, mask),
                magic,
                bits,
            ) as int] == slider_rays(sq as int, deposit(i, mask), bishop) by {
                assert(occupancies[i as int] == deposit(i, mask));
                assert(attacks[i as int] == slider_rays(sq as int, occupancies[i as int], bishop));
            }
            Ok((mask, bits, row))
        },
        None => Err(TableError::Collision { sq, bishop }),
    }
}

proof fn lemma_row_traces_rays(row: Seq<u64>, sq: int, bishop: bool, mask: u64, magic: u64, bits: u64, occ: u64)
    requires
        0 <= sq < 64,
        row_holds(row, sq, bishop, mask, magic, bits),
    ensures
        row[magic_index(occ & mask, magic, bits) as int] == slider_rays(sq, occ, bishop),
{
    let s = occ & mask;
    assert((occ & mask) & mask == occ & mask) by (bit_vector);
    let i = lemma_subset_selected(s, mask);
    assert(row[magic_index(deposit(i, mask), magic, bits) as int] == slider_rays(
        sq,
        deposit(i, mask),
        bishop,
    ));
    lemma_rays_see_mask_only(sq, occ, bishop);
}

/// Pre-computed attack sets of every piece kind from every square.
pub struct AttackTable {
    pub pawns: [[Bitboard; 64]; 2],
    pub knights: [Bitboard; 64],
    pub kings: [Bitboard; 64],
    pub bishops: Vec<Vec<Bitboard>>,
    pub rooks: Vec<Vec<Bitboard>>,
    pub bishop_masks: [Bitboard; 64],
    pub rook_masks: [Bitboard; 64],
    pub bishop_magics: [u64; 64],
    pub rook_magics: [u64; 64],
    pub bishop_bits: [u64; 64],
    pub rook_bits: [u64; 64],
}

impl AttackTable {
    /// Leaper rows hold the leaper attack sets.
    pub open spec fn leapers_hold(&self) -> bool {
        &&& forall|sq: int| 0 <= sq < 64 ==> #[trigger] self.knights[sq] == knight_targets(sq as u64)
        &&& forall|sq: int| 0 <= sq < 64 ==> #[trigger] self.kings[sq] == king_targets(sq as u64)
        &&& forall|sq: int|
            0 <= sq < 64 ==> #[trigger] self.pawns[0][sq] == pawn_targets(0, sq as u64)
        &&& forall|sq: int|
            0 <= sq < 64 ==> #[trigger] self.pawns[1][sq] == pawn_targets(1, sq as u64)
    }

    /// Slider rows are complete for every square.
    pub open spec fn sliders_hold(&self) -> bool {
        &&& self.bishops.len() == 64
        &&& self.rooks.len() == 64
        &&& forall|sq: int|
            0 <= sq < 64 ==> #[trigger] row_holds(
                self.bishops[sq]@,
                sq,
                true,
                self.bishop_masks[sq],
                self.bishop_magics[sq],
                self.bishop_bits[sq],
            )
        &&& forall|sq: int|
            0 <= sq < 64 ==> #[trigger] row_holds(
                self.rooks[sq]@,
                sq,
                false,
                self.rook_masks[sq],
                self.rook_magics[sq],
                self.rook_bits[sq],
            )
    }

    /// Each row's mask is the square's relevant mask and its bit count the
    /// tabulated one.
    pub open spec fn rows_described(&self) -> bool {
        forall|sq: int|
            0 <= sq < 64 ==> {
                &&& #[trigger] self.bishop_masks[sq] == bishop_mask(sq)
                &&& self.bishop_bits[sq] == BISHOP_RELEVANT_BITS[sq]
                &&& self.rook_masks[sq] == rook_mask(sq)
                &&& self.rook_bits[sq] == ROOK_RELEVANT_BITS[sq]
            }
    }

    /// Every row of the table holds what it stands for.
    pub open spec fn wf(&self) -> bool {
        self.leapers_hold() && self.sliders_hold()
    }

    /// The slot of the bishop row of `sq` that `occ` selects.
    pub open spec fn bishop_slot(&self, sq: int, occ: u64) -> u64 {
        self.bishops[sq][magic_index(
            occ & self.bishop_masks[sq],
            self.bishop_magics[sq],
            self.bishop_bits[sq],
        ) as int]
    }

    /// The slot of the rook row of `sq` that `occ` selects.
    pub open spec fn rook_slot(&self, sq: int, occ: u64) -> u64 {
        self.rooks[sq][magic_index(
            occ & self.rook_masks[sq],
            self.rook_magics[sq],
            self.rook_bits[sq],
        ) as int]
    }

    /// The table agrees with the ray tracer: for every square and every
    /// occupancy, the slot that a lookup reads holds the attack set that
    /// tracing the rays among those pieces gives.
    pub proof fn lemma_lookup_traces_rays(&self, sq: int, occ: u64)
        requires
            self.wf(),
            0 <= sq < 64,
        ensures
            self.bishop_slot(sq, occ) == bishop_rays(sq, occ),
            self.rook_slot(sq, occ) == rook_rays(sq, occ),
    {
        assert(row_holds(
            self.bishops[sq]@,
            sq,
            true,
            self.bishop_masks[sq],
            self.bishop_magics[sq],
            self.bishop_bits[sq],
        ));
        assert(row_holds(
            self.rooks[sq]@,
            sq,
            false,
            self.rook_masks[sq],
            self.rook_magics[sq],
            self.rook_bits[sq],
        ));
        lemma_row_traces_rays(
            self.bishops[sq]@,
            sq,
            true,
            self.bishop_masks[sq],
            self.bishop_magics[sq],
            self.bishop_bits[sq],
            occ,
        );
        lemma_row_traces_rays(
            self.rooks[sq]@,
            sq,
            false,
            self.rook_masks[sq],
            self.rook_magics[sq],
            self.rook_bits[sq],
            occ,
        );
    }

    /// Builds every table with the shipped magics.
    pub fn new() -> (r: Result<AttackTable, TableError>)
        ensures
            match r {
                Ok(t) => t.wf() && t.bishop_magics == BISHOP_MAGICS && t.rook_magics
                    == ROOK_MAGICS && t.rows_described(),
                Err(e) => build_refused(e, BISHOP_MAGICS, ROOK_MAGICS),
            },
    {
        Self::with_magics(BISHOP_MAGICS, ROOK_MAGICS)
    }

    /// Builds every table with the given magics. Fails on the first square
    /// (rooks and bishops together, by square) whose mask does not have the
    /// tabulated relevant-bit count or whose magic is not collision-free.
    pub fn with_magics(bishop_magics: [u64; 64], rook_magics: [u64; 64]) -> (r: Result<
        AttackTable,
        TableError,
    >)
        ensures
            match r {
                Ok(t) => t.wf() && t.bishop_magics == bishop_magics && t.rook_magics
                    == rook_magics && t.rows_described(),
                Err(e) => build_refused(e, bishop_magics, rook_magics),
            },
    {
        let mut a = AttackTable {
            pawns: [[0; 64]; 2],
            knights: [0; 64],
            kings: [0; 64],
            bishops: Vec::new(),
            rooks: Vec::new(),
            bishop_masks: [0; 64],
            rook_masks: [0; 64],
            bishop_magics,
            rook_magics,
            bishop_bits: [0; 64],
            rook_bits: [0; 64],
        };
        a.init_pawns();
        a.init_knights();
        a.init_kings();
        match a.init_sliders() {
            Ok(()) => {
                assert forall|sq: int| 0 <= sq < 64 implies {
                    &&& #[trigger] a.bishop_masks[sq] == bishop_mask(sq)
                    &&& a.bishop_bits[sq] == BISHOP_RELEVANT_BITS[sq]
                    &&& a.rook_masks[sq] == rook_mask(sq)
                    &&& a.rook_bits[sq] == ROOK_RELEVANT_BITS[sq]
                } by {
                    assert(row_holds(
                        a.bishops[sq]@,
                        sq,
                        true,
                        a.bishop_masks[sq],
                        a.bishop_magics[sq],
                        a.bishop_bits[sq],
                    ));
                    assert(row_holds(
                        a.rooks[sq]@,
                        sq,
                        false,
                        a.rook_masks[sq],
                        a.rook_magics[sq],
                        a.rook_bits[sq],
                    ));
                }
                Ok(a)
            },
            Err(e) => Err(e),
        }
    }

    /// Squares a bishop on `sq` attacks among the pieces on `occ`: one
    /// table read at the slot that the masked occupancy's magic product
    /// selects.
    pub fn get_bishop_attacks(&self, sq: usize, occ: Bitboard) -> (r: Bitboard)
        requires
            self.wf(),
            sq < 64,
        ensures
            r == self.bishop_slot(sq as int, occ),
            r == bishop_rays(sq as int, occ),
    {
        proof {
            self.lemma_lookup_traces_rays(sq as int, occ);
        }
        let bits = self.bishop_bits[sq];
        assert(row_holds(
            self.bishops[sq as int]@,
            sq as int,
            true,
            self.bishop_masks[sq as int],
            self.bishop_magics[sq as int],
            bits,
        ));
        proof {
            lemma_index_bound(bits);
        }
        let index = (occ & self.bishop_masks[sq]).wrapping_mul(self.bishop_magics[sq]) >> (64
            - bits);
        self.bishops[sq][index as usize]
    }

    /// Squares a rook on `sq` attacks among the pieces on `occ`.
    pub fn get_rook_attacks(&self, sq: usize, occ: Bitboard) -> (r: Bitboard)
        requires
            self.wf(),
            sq < 64,
        ensures
            r == self.rook_slot(sq as int, occ),
            r == rook_rays(sq as int, occ),
    {
        proof {
            self.lemma_lookup_traces_rays(sq as int, occ);
        }
        let bits = self.rook_bits[sq];
        assert(row_holds(
            self.rooks[sq as int]@,
            sq as int,
            false,
            self.rook_masks[sq as int],
            self.rook_magics[sq as int],
            bits,
        ));
        proof {
            lemma_index_bound(bits);
        }
        let index = (occ & self.rook_masks[sq]).wrapping_mul(self.rook_magics[sq]) >> (64 - bits);
        self.rooks[sq][index as usize]
    }

    /// Squares a pawn of `color` on `sq` attacks, read from the table.
    pub fn get_pawn_attacks(&self, color: usize, sq: usize) -> (r: Bitboard)
        requires
            self.wf(),
            color < 2,
            sq < 64,
        ensures
            r == pawn_targets(color as int, sq as u64),
    {
        assert(self.pawns[0][sq as int] == pawn_targets(0, sq as u64));
        assert(self.pawns[1][sq as int] == pawn_targets(1, sq as u64));
        self.pawns[color][sq]
    }

    /// Squares a knight on `sq` attacks, read from the table.
    pub fn get_knight_attacks(&self, sq: usize) -> (r: Bitboard)
        requires
            self.wf(),
            sq < 64,
        ensures
            r == knight_targets(sq as u64),
    {
        assert(self.knights[sq as int] == knight_targets(sq as u64));
        self.knights[sq]
    }

    /// Squares a king on `sq` attacks, read from the table.
    pub fn get_king_attacks(&self, sq: usize) -> (r: Bitboard)
        requires
            self.wf(),
            sq < 64,
        ensures
            r == king_targets(sq as u64),
    {
        assert(self.kings[sq as int] == king_targets(sq as u64));
        self.kings[sq]
    }

    /// Squares a queen on `sq` attacks among the pieces on `occ`: the union
    /// of the bishop and the rook attack sets.
    pub fn get_queen_attacks(&self, sq: usize, occ: Bitboard) -> (r: Bitboard)
        requires
            self.wf(),
            sq < 64,
        ensures
            r == bishop_rays(sq as int, occ) | rook_rays(sq as int, occ),
    {
        self.get_bishop_attacks(sq, occ) | self.get_rook_attacks(sq, occ)
    }

    /// Relevant mask of a bishop (`bishop`) or rook row.
    pub open spec fn mask_of(&self, sq: int, bishop: bool) -> u64 {
        if bishop {
            self.bishop_masks[sq]
        } else {
            self.rook_masks[sq]
        }
    }

    /// Magic of a bishop (`bishop`) or rook row.
    pub open spec fn magic_of(&self, sq: int, bishop: bool) -> u64 {
        if bishop {
            self.bishop_magics[sq]
        } else {
            self.rook_magics[sq]
        }
    }

    /// Relevant-bit count of a bishop (`bishop`) or rook row.
    pub open spec fn bits_of(&self, sq: int, bishop: bool) -> u64 {
        if bishop {
            self.bishop_bits[sq]
        } else {
            self.rook_bits[sq]
        }
    }

    /// The magic hash is injective up to equal payloads: two blocker sets
    /// of a square's mask that hash to one slot leave the same attack set.
    pub proof fn lemma_hash_collisions_benign(&self, sq: int, bishop: bool, s1: u64, s2: u64)
        requires
            self.wf(),
            0 <= sq < 64,
            s1 & self.mask_of(sq, bishop) == s1,
            s2 & self.mask_of(sq, bishop) == s2,
            magic_index(s1, self.magic_of(sq, bishop), self.bits_of(sq, bishop)) == magic_index(
                s2,
                self.magic_of(sq, bishop),
                self.bits_of(sq, bishop),
            ),
        ensures
            slider_rays(sq, s1, bishop) == slider_rays(sq, s2, bishop),
    {
        let row = if bishop {
            self.bishops[sq]@
        } else {
            self.rooks[sq]@
        };
        assert(row_holds(
            self.bishops[sq]@,
            sq,
            true,
            self.bishop_masks[sq],
            self.bishop_magics[sq],
            self.bishop_bits[sq],
        ));
        assert(row_holds(
            self.rooks[sq]@,
            sq,
            false,
            self.rook_masks[sq],
            self.rook_magics[sq],
            self.rook_bits[sq],
        ));
        let m = self.mask_of(sq, bishop);
        let g = self.magic_of(sq, bishop);
        let k = self.bits_of(sq, bishop);
        lemma_row_traces_rays(row, sq, bishop, m, g, k, s1);
        lemma_row_traces_rays(row, sq, bishop, m, g, k, s2);
    }

    fn init_pawns(&mut self)
        ensures
            forall|sq: int|
                0 <= sq < 64 ==> final(self).pawns[0][sq] == pawn_targets(0, sq as u64)
                    && final(self).pawns[1][sq] == pawn_targets(1, sq as u64),
            final(self).knights == old(self).knights,
            final(self).kings == old(self).kings,
            final(self).bishops == old(self).bishops,
            final(self).rooks == old(self).rooks,
            final(self).bishop_magics == old(self).bishop_magics,
            final(self).rook_magics == old(self).rook_magics,
    {
        let mut white: [Bitboard; 64] = [0; 64];
        let mut black: [Bitboard; 64] = [0; 64];
        let mut sq: usize = 0;
        while sq < 64
            invariant
                sq <= 64,
                forall|q: int|
                    0 <= q < sq ==> white[q] == pawn_targets(0, q as u64) && black[q]
                        == pawn_targets(1, q as u64),
            decreases 64 - sq,
        {
            white[sq] = pawn_attacks(0, sq);
            black[sq] = pawn_attacks(1, sq);
            sq = sq + 1;
        }
        self.pawns = [white, black];
    }

    fn init_knights(&mut self)
        ensures
            forall|sq: int| 0 <= sq < 64 ==> final(self).knights[sq] == knight_targets(sq as u64),
            final(self).pawns == old(self).pawns,
            final(self).kings == old(self).kings,
            final(self).bishops == old(self).bishops,
            final(self).rooks == old(self).rooks,
            final(self).bishop_magics == old(self).bishop_magics,
            final(self).rook_magics == old(self).rook_magics,
    {
        let mut sq: usize = 0;
        while sq < 64
            invariant
                sq <= 64,
                forall|q: int| 0 <= q < sq ==> self.knights[q] == knight_targets(q as u64),
                self.pawns == old(self).pawns,
                self.kings == old(self).kings,
                self.bishops == old(self).bishops,
                self.rooks == old(self).rooks,
                self.bishop_magics == old(self).bishop_magics,
                self.rook_magics == old(self).rook_magics,
            decreases 64 - sq,
        {
            self.knights[sq] = knight_attacks(sq);
            sq = sq + 1;
        }
    }

    fn init_kings(&mut self)
        ensures
            forall|sq: int| 0 <= sq < 64 ==> final(self).kings[sq] == king_targets(sq as u64),
            final(self).pawns == old(self).pawns,
            final(self).knights == old(self).knights,
            final(self).bishops == old(self).bishops,
            final(self).rooks == old(self).rooks,
            final(self).bishop_magics == old(self).bishop_magics,
            final(self).rook_magics == old(self).rook_magics,
    {
        let mut sq: usize = 0;
        while sq < 64
            invariant
                sq <= 64,
                forall|q: int| 0 <= q < sq ==> self.kings[q] == king_targets(q as u64),
                self.pawns == old(self).pawns,
                self.knights == old(self).knights,
                self.bishops == old(self).bishops,
                self.rooks == old(self).rooks,
                self.bishop_magics == old(self).bishop_magics,
                self.rook_magics == old(self).rook_magics,
            decreases 64 - sq,
        {
            self.kings[sq] = king_attacks(sq);
            sq = sq + 1;
        }
    }

    fn init_sliders(&mut self) -> (r: Result<(), TableError>)
        ensures
            match r {
                Ok(()) => final(self).sliders_hold(),
                Err(e) => build_refused(e, old(self).bishop_magics, old(self).rook_magics),
            },
            final(self).pawns == old(self).pawns,
            final(self).knights == old(self).knights,
            final(self).kings == old(self).kings,
            final(self).bishop_magics == old(self).bishop_magics,
            final(self).rook_magics == old(self).rook_magics,
    {
        self.bishops = Vec::new();
        self.rooks = Vec::new();
        let mut sq: usize = 0;
        while sq < 64
            invariant
                sq <= 64,
                self.bishops.len() == sq,
                self.rooks.len() == sq,
                forall|q: int|
                    0 <= q < sq ==> #[trigger] row_holds(
                        self.bishops[q]@,
                        q,
                        true,
                        self.bishop_masks[q],
                        self.bishop_magics[q],
                        self.bishop_bits[q],
                    ),
                forall|q: int|
                    0 <= q < sq ==> #[trigger] row_holds(
                        self.rooks[q]@,
                        q,
                        false,
                        self.rook_masks[q],
                        self.rook_magics[q],
                        self.rook_bits[q],
                    ),
                self.pawns == old(self).pawns,
                self.knights == old(self).knights,
                self.kings == old(self).kings,
                self.bishop_magics == old(self).bishop_magics,
                self.rook_magics == old(self).rook_magics,
            decreases 64 - sq,
        {
            let (bmask, bbits, brow) = match build_row(sq, true, self.bishop_magics[sq]) {
                Ok(x) => x,
                Err(e) => {
                    return Err(e);
                },
            };
            let (rmask, rbits, rrow) = match build_row(sq, false, self.rook_magics[sq]) {
                Ok(x) => x,
                Err(e) => {
                    return Err(e);
                },
            };
            self.bishop_masks[sq] = bmask;
            self.bishop_bits[sq] = bbits;
            self.bishops.push(brow);
            self.rook_masks[sq] = rmask;
            self.rook_bits[sq] = rbits;
            self.rooks.push(rrow);
            sq = sq + 1;
        }
        Ok(())
    }
}

} // verus!
