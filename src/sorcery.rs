use vstd::prelude::*;

use crate::ray_facts::{lemma_bishop_mask_count, lemma_rook_mask_count};
use crate::board::bitboard::{
    count_bits, count_from, get_bit, get_lsb, is_member, pop_bit, popcount, Bitboard,
};

verus! {

/// Whether (rank, file) lies on the board.
pub open spec fn on_board(r: int, f: int) -> bool {
    0 <= r < 8 && 0 <= f < 8
}

/// The square at (rank, file).
pub open spec fn square_at(r: int, f: int) -> u64 {
    (r * 8 + f) as u64
}

/// One of the eight compass directions, as (rank step, file step).
pub open spec fn is_dir(dr: int, df: int) -> bool {
    -1 <= dr <= 1 && -1 <= df <= 1 && (dr != 0 || df != 0)
}

/// Distance left to travel from coordinate `c` in direction `d`.
pub open spec fn room(c: int, d: int) -> int {
    if d > 0 {
        8 - c
    } else if d < 0 {
        c + 1
    } else {
        0
    }
}

/// Whether a walk along direction `d` may still pass coordinate `c` when
/// tracing a relevant-occupancy mask: the moving coordinates stay off the
/// board's edge.
pub open spec fn inner(c: int, d: int) -> bool {
    d == 0 || (1 <= c <= 6)
}

/// The squares of a relevant-occupancy ray: starting at (r, f) and moving
/// by (dr, df), while the moving coordinates stay inside 1..=6.
pub open spec fn mask_ray(r: int, f: int, dr: int, df: int) -> u64
    decreases room(r, dr) + room(f, df),
{
    if on_board(r, f) && is_dir(dr, df) && inner(r, dr) && inner(f, df) {
        (1u64 << square_at(r, f)) | mask_ray(r + dr, f + df, dr, df)
    } else {
        0
    }
}

/// The squares attacked along a ray: starting at (r, f) and moving by
/// (dr, df) while on the board, each visited square included, stopping
/// right after the first square that is set in `occ`.
pub open spec fn blocked_ray(r: int, f: int, dr: int, df: int, occ: u64) -> u64
    decreases room(r, dr) + room(f, df),
{
    if on_board(r, f) && is_dir(dr, df) {
        if is_member(occ, square_at(r, f)) {
            1u64 << square_at(r, f)
        } else {
            (1u64 << square_at(r, f)) | blocked_ray(r + dr, f + df, dr, df, occ)
        }
    } else {
        0
    }
}

/// Relevant-occupancy mask of a bishop on `sq`.
pub open spec fn bishop_mask(sq: int) -> u64 {
    let r = sq / 8;
    let f = sq % 8;
    mask_ray(r + 1, f + 1, 1, 1) | mask_ray(r - 1, f + 1, -1, 1) | mask_ray(r + 1, f - 1, 1, -1)
        | mask_ray(r - 1, f - 1, -1, -1)
}

/// Relevant-occupancy mask of a rook on `sq`.
pub open spec fn rook_mask(sq: int) -> u64 {
    let r = sq / 8;
    let f = sq % 8;
    mask_ray(r + 1, f, 1, 0) | mask_ray(r - 1, f, -1, 0) | mask_ray(r, f + 1, 0, 1) | mask_ray(
        r,
        f - 1,
        0,
        -1,
    )
}

/// Squares a bishop on `sq` attacks when the pieces stand on `occ`.
pub open spec fn bishop_rays(sq: int, occ: u64) -> u64 {
    let r = sq / 8;
    let f = sq % 8;
    blocked_ray(r + 1, f + 1, 1, 1, occ) | blocked_ray(r - 1, f + 1, -1, 1, occ) | blocked_ray(
        r + 1,
        f - 1,
        1,
        -1,
        occ,
    ) | blocked_ray(r - 1, f - 1, -1, -1, occ)
}

/// Squares a rook on `sq` attacks when the pieces stand on `occ`.
pub open spec fn rook_rays(sq: int, occ: u64) -> u64 {
    let r = sq / 8;
    let f = sq % 8;
    blocked_ray(r + 1, f, 1, 0, occ) | blocked_ray(r - 1, f, -1, 0, occ) | blocked_ray(
        r,
        f + 1,
        0,
        1,
        occ,
    ) | blocked_ray(r, f - 1, 0, -1, occ)
}

pub(crate) proof fn lemma_or_assoc(a: u64, b: u64, c: u64)
    by (bit_vector)
    ensures
        (a | b) | c == a | (b | c),
        0u64 | a == a,
        a | 0u64 == a,
{
}

/// Adds to `attacks` the relevant-occupancy ray that leaves
/// (target_rank, target_file) in direction (rank_dir, file_dir).
pub fn calc_attacks(
    rank_dir: isize,
    file_dir: isize,
    target_rank: usize,
    target_file: usize,
    attacks: &mut Bitboard,
)
    requires
        target_rank < 8,
        target_file < 8,
        is_dir(rank_dir as int, file_dir as int),
    ensures
        *final(attacks) == *old(attacks) | mask_ray(
            target_rank + rank_dir,
            target_file + file_dir,
            rank_dir as int,
            file_dir as int,
        ),
{
    let mut rank: isize = target_rank as isize + rank_dir;
    let mut file: isize = target_file as isize + file_dir;
    let ghost start = *attacks;
    let ghost whole = mask_ray(rank as int, file as int, rank_dir as int, file_dir as int);
    proof {
        lemma_or_assoc(start, 0, 0);
    }
    while ((1 <= rank && rank <= 6) || rank_dir == 0) && ((1 <= file && file <= 6) || file_dir
        == 0)
        invariant
            target_rank < 8,
            target_file < 8,
            is_dir(rank_dir as int, file_dir as int),
            -1 <= rank <= 8,
            -1 <= file <= 8,
            rank_dir == 0 ==> rank == target_rank,
            file_dir == 0 ==> file == target_file,
            start | whole == *attacks | mask_ray(
                rank as int,
                file as int,
                rank_dir as int,
                file_dir as int,
            ),
        decreases room(rank as int, rank_dir as int) + room(file as int, file_dir as int),
    {
        assert(0 <= rank);
        assert(rank <= 7);
        assert(0 <= file);
        assert(file <= 7);
        let sq = (rank as usize) * 8 + (file as usize);
        assert(sq < 64);
        let ghost a0 = *attacks;
        let ghost rest = mask_ray(
            (rank + rank_dir) as int,
            (file + file_dir) as int,
            rank_dir as int,
            file_dir as int,
        );
        assert(sq == square_at(rank as int, file as int));
        *attacks = *attacks | (1u64 << sq as u64);
        proof {
            lemma_or_assoc(a0, 1u64 << sq as u64, rest);
        }
        rank = rank + rank_dir;
        file = file + file_dir;
    }
    proof {
        lemma_or_assoc(*attacks, 0, 0);
    }
}

/// Adds to `attacks` the squares attacked from (target_rank, target_file)
/// in direction (rank_dir, file_dir), stopping at the first square of
/// `blocks`.
pub fn calc_attacks_with_blocks(
    rank_dir: isize,
    file_dir: isize,
    target_rank: usize,
    target_file: usize,
    attacks: &mut Bitboard,
    blocks: Bitboard,
)
    requires
        target_rank < 8,
        target_file < 8,
        is_dir(rank_dir as int, file_dir as int),
    ensures
        *final(attacks) == *old(attacks) | blocked_ray(
            target_rank + rank_dir,
            target_file + file_dir,
            rank_dir as int,
            file_dir as int,
            blocks,
        ),
{
    let mut rank: isize = target_rank as isize + rank_dir;
    let mut file: isize = target_file as isize + file_dir;
    let ghost start = *attacks;
    let ghost whole = blocked_ray(
        rank as int,
        file as int,
        rank_dir as int,
        file_dir as int,
        blocks,
    );
    proof {
        lemma_or_assoc(start, 0, 0);
    }
    while 0 <= rank && rank <= 7 && 0 <= file && file <= 7
        invariant_except_break
            start | whole == *attacks | blocked_ray(
                rank as int,
                file as int,
                rank_dir as int,
                file_dir as int,
                blocks,
            ),
        invariant
            target_rank < 8,
            target_file < 8,
            is_dir(rank_dir as int, file_dir as int),
            -1 <= rank <= 8,
            -1 <= file <= 8,
            !on_board(rank as int, file as int) ==> blocked_ray(
                rank as int,
                file as int,
                rank_dir as int,
                file_dir as int,
                blocks,
            ) == 0,
            *attacks | 0u64 == *attacks,
        ensures
            start | whole == *attacks,
        decreases room(rank as int, rank_dir as int) + room(file as int, file_dir as int),
    {
        assert(0 <= rank <= 7 && 0 <= file <= 7);
        let sq = (rank as usize) * 8 + (file as usize);
        assert(sq < 64);
        let ghost a0 = *attacks;
        let ghost rest = blocked_ray(
            (rank + rank_dir) as int,
            (file + file_dir) as int,
            rank_dir as int,
            file_dir as int,
            blocks,
        );
        assert(sq == square_at(rank as int, file as int));
        *attacks = *attacks | (1u64 << sq as u64);
        proof {
            lemma_or_assoc(*attacks, 0, 0);
        }
        if get_bit(blocks, sq) {
            break;
        }
        proof {
            lemma_or_assoc(a0, 1u64 << sq as u64, rest);
        }
        rank = rank + rank_dir;
        file = file + file_dir;
    }
}

/// Relevant-occupancy mask of a bishop on `sq`: its diagonals without the
/// board's edge.
pub fn mask_bishop_attacks(sq: usize) -> (r: Bitboard)
    requires
        sq < 64,
    ensures
        r == bishop_mask(sq as int),
        popcount(r) == BISHOP_RELEVANT_BITS[sq as int],
        5 <= popcount(r) <= 9,
{
    proof {
        lemma_bishop_mask_count(sq as int);
        assert(forall|q: int| 0 <= q < 64 ==> 5 <= #[trigger] BISHOP_RELEVANT_BITS[q] <= 9);
    }
    let mut attacks: Bitboard = 0;
    let target_rank = sq / 8;
    let target_file = sq % 8;
    calc_attacks(1, 1, target_rank, target_file, &mut attacks);
    calc_attacks(-1, 1, target_rank, target_file, &mut attacks);
    calc_attacks(1, -1, target_rank, target_file, &mut attacks);
    calc_attacks(-1, -1, target_rank, target_file, &mut attacks);
    proof {
        lemma_or_assoc(mask_ray(target_rank + 1, target_file + 1, 1, 1), 0, 0);
    }
    attacks
}

/// Relevant-occupancy mask of a rook on `sq`: its rank and file, each ray
/// without its last square.
pub fn mask_rook_attacks(sq: usize) -> (r: Bitboard)
    requires
        sq < 64,
    ensures
        r == rook_mask(sq as int),
        popcount(r) == ROOK_RELEVANT_BITS[sq as int],
        10 <= popcount(r) <= 12,
{
    proof {
        lemma_rook_mask_count(sq as int);
        assert(forall|q: int| 0 <= q < 64 ==> 10 <= #[trigger] ROOK_RELEVANT_BITS[q] <= 12);
    }
    let mut attacks: Bitboard = 0;
    let target_rank = sq / 8;
    let target_file = sq % 8;
    calc_attacks(1, 0, target_rank, target_file, &mut attacks);
    calc_attacks(-1, 0, target_rank, target_file, &mut attacks);
    calc_attacks(0, 1, target_rank, target_file, &mut attacks);
    calc_attacks(0, -1, target_rank, target_file, &mut attacks);
    proof {
        lemma_or_assoc(mask_ray(target_rank + 1, target_file as int, 1, 0), 0, 0);
    }
    attacks
}

/// Squares a bishop on `sq` attacks, each diagonal traced up to and
/// including the first square of `blocks`.
pub fn bishop_attacks(sq: usize, blocks: Bitboard) -> (r: Bitboard)
    requires
        sq < 64,
    ensures
        r == bishop_rays(sq as int, blocks),
{
    let mut attacks: Bitboard = 0;
    let target_rank = sq / 8;
    let target_file = sq % 8;
    calc_attacks_with_blocks(1, 1, target_rank, target_file, &mut attacks, blocks);
    calc_attacks_with_blocks(-1, 1, target_rank, target_file, &mut attacks, blocks);
    calc_attacks_with_blocks(1, -1, target_rank, target_file, &mut attacks, blocks);
    calc_attacks_with_blocks(-1, -1, target_rank, target_file, &mut attacks, blocks);
    proof {
        lemma_or_assoc(blocked_ray(target_rank + 1, target_file + 1, 1, 1, blocks), 0, 0);
    }
    attacks
}

/// Squares a rook on `sq` attacks, each ray traced up to and including the
/// first square of `blocks`.
pub fn rook_attacks(sq: usize, blocks: Bitboard) -> (r: Bitboard)
    requires
        sq < 64,
    ensures
        r == rook_rays(sq as int, blocks),
{
    let mut attacks: Bitboard = 0;
    let target_rank = sq / 8;
    let target_file = sq % 8;
    calc_attacks_with_blocks(1, 0, target_rank, target_file, &mut attacks, blocks);
    calc_attacks_with_blocks(-1, 0, target_rank, target_file, &mut attacks, blocks);
    calc_attacks_with_blocks(0, 1, target_rank, target_file, &mut attacks, blocks);
    calc_attacks_with_blocks(0, -1, target_rank, target_file, &mut attacks, blocks);
    proof {
        lemma_or_assoc(blocked_ray(target_rank + 1, target_file as int, 1, 0, blocks), 0, 0);
    }
    attacks
}

/// Bits `p..64` of `mask` receive the low bits of `index` in order: the
/// lowest member of `mask` at or above `p` is kept when bit 0 of `index` is
/// set, the next one when bit 1 is set, and so on.
pub open spec fn deposit_from(index: u64, mask: u64, p: nat) -> u64
    decreases 64 - p,
{
    if p >= 64 {
        0
    } else if is_member(mask, p as u64) {
        (if index & 1u64 == 1u64 {
            1u64 << (p as u64)
        } else {
            0u64
        }) | deposit_from(index >> 1u64, mask, p + 1)
    } else {
        deposit_from(index, mask, p + 1)
    }
}

/// The subset of `mask` that `index` selects: the `j`-th lowest member of
/// `mask` belongs to it exactly when bit `j` of `index` is set.
pub open spec fn deposit(index: u64, mask: u64) -> u64 {
    deposit_from(index, mask, 0)
}

pub(crate) proof fn lemma_count_bound(m: u64, p: nat)
    requires
        p <= 64,
    ensures
        count_from(m, p) <= 64 - p,
    decreases 64 - p,
{
    if p < 64 {
        lemma_count_bound(m, p + 1);
    }
}

proof fn lemma_count_witness(m: u64, p: nat) -> (q: u64)
    requires
        count_from(m, p) > 0,
    ensures
        p <= q < 64,
        is_member(m, q),
    decreases 64 - p,
{
    if is_member(m, p as u64) {
        p as u64
    } else {
        lemma_count_witness(m, p + 1)
    }
}

proof fn lemma_skip_empty(x: u64, m: u64, p: nat, s: nat)
    requires
        p <= s <= 64,
        forall|q: u64| p <= q < s ==> !(#[trigger] is_member(m, q)),
    ensures
        deposit_from(x, m, p) == deposit_from(x, m, s),
        count_from(m, p) == count_from(m, s),
    decreases s - p,
{
    if p < s {
        assert(!is_member(m, p as u64));
        lemma_skip_empty(x, m, p + 1, s);
    }
}

proof fn lemma_deposit_none_left(x: u64, m: u64, p: nat)
    requires
        count_from(m, p) == 0,
    ensures
        deposit_from(x, m, p) == 0,
    decreases 64 - p,
{
    if p < 64 {
        lemma_deposit_none_left(x, m, p + 1);
    }
}

/// The subset of `attack_mask` selected by the low `bits_in_mask` bits of
/// `index`, taking the members of the mask from the lowest up.
pub fn set_occupancy(index: Bitboard, bits_in_mask: usize, attack_mask: Bitboard) -> (r: Bitboard)
    requires
        bits_in_mask == popcount(attack_mask),
    ensures
        r == deposit(index, attack_mask),
{
    let mut occ: Bitboard = 0;
    let mut atm: Bitboard = attack_mask;
    let ghost mut p: nat = 0;
    proof {
        lemma_count_bound(attack_mask, 0);
        lemma_or_assoc(deposit(index, attack_mask), 0, 0);
        assert(index >> 0u64 == index) by (bit_vector);
    }
    let mut i: usize = 0;
    while i < bits_in_mask
        invariant
            bits_in_mask == popcount(attack_mask),
            bits_in_mask <= 64,
            i <= bits_in_mask,
            p <= 64,
            forall|q: u64| q < 64 ==> #[trigger] is_member(atm, q) == (is_member(attack_mask, q) && q >= p),
            count_from(attack_mask, p) == bits_in_mask - i,
            occ | deposit_from(index >> (i as u64), attack_mask, p) == deposit(index, attack_mask),
        decreases bits_in_mask - i,
    {
        let ghost x = index >> (i as u64);
        let ghost q0 = lemma_count_witness(attack_mask, p);
        assert(is_member(atm, q0));
        let sq = get_lsb(atm);
        assert(sq < 64) by {
            if sq >= 64 {
                assert((q0 as int) < sq);
            }
        }
        proof {
            assert forall|q: u64| p <= q < sq implies !(#[trigger] is_member(attack_mask, q)) by {
                assert(!is_member(atm, q));
            }
            lemma_skip_empty(x, attack_mask, p, sq as nat);
        }
        let ghost atm0 = atm;
        pop_bit(&mut atm, sq);
        let ghost o0 = occ;
        let ghost rest = deposit_from(x >> 1u64, attack_mask, (sq + 1) as nat);
        let ghost iu = i as u64;
        assert(iu < 64 ==> ((index & (1u64 << iu)) != 0) == ((index >> iu) & 1u64 == 1u64))
            by (bit_vector);
        let ghost iu1 = (i + 1) as u64;
        assert(iu < 64 && iu1 == iu + 1 ==> (index >> iu) >> 1u64 == index >> iu1) by (bit_vector);
        if (index & (1u64 << i as u64)) != 0 {
            occ = occ | (1u64 << sq as u64);
            proof {
                lemma_or_assoc(o0, 1u64 << sq as u64, rest);
            }
        } else {
            proof {
                lemma_or_assoc(o0, 0, rest);
            }
        }
        proof {
            assert forall|q: u64| q < 64 implies #[trigger] is_member(atm, q) == (is_member(attack_mask, q)
                && q >= sq + 1) by {
                let squ = sq as u64;
                assert(squ < 64 && q < 64 ==> (is_member(atm0 & !(1u64 << squ), q) == (is_member(atm0, q) && q
                    != squ))) by (bit_vector);
                if q < sq {
                    assert(!is_member(atm0, q));
                }
            }
            p = (sq + 1) as nat;
        }
        i = i + 1;
    }
    proof {
        lemma_deposit_none_left(index >> (i as u64), attack_mask, p);
        lemma_or_assoc(occ, 0, 0);
    }
    occ
}

/// Relevant-occupancy mask of a bishop (`bishop`) or a rook on `sq`.
pub open spec fn slider_mask(sq: int, bishop: bool) -> u64 {
    if bishop {
        bishop_mask(sq)
    } else {
        rook_mask(sq)
    }
}

/// Attack set of a bishop (`bishop`) or a rook on `sq` among `occ`.
pub open spec fn slider_rays(sq: int, occ: u64, bishop: bool) -> u64 {
    if bishop {
        bishop_rays(sq, occ)
    } else {
        rook_rays(sq, occ)
    }
}

/// The table slot of a blocker set: the wrapped product with the magic,
/// keeping its top `bits` bits.
pub open spec fn magic_index(occ: u64, magic: u64, bits: u64) -> u64 {
    occ.wrapping_mul(magic) >> ((64 - bits) as u64)
}

/// Every two blocker sets of the mask that share a slot under `magic` have
/// the same attack set.
pub open spec fn is_magic(sq: int, bishop: bool, magic: u64) -> bool {
    let m = slider_mask(sq, bishop);
    let k = popcount(m) as u64;
    forall|i: u64, j: u64|
        #![trigger magic_index(deposit(i, m), magic, k), magic_index(deposit(j, m), magic, k)]
        i < (1u64 << k) && j < (1u64 << k) && magic_index(deposit(i, m), magic, k) == magic_index(
            deposit(j, m),
            magic,
            k,
        ) ==> slider_rays(sq, deposit(i, m), bishop) == slider_rays(sq, deposit(j, m), bishop)
}

pub(crate) proof fn lemma_index_bound(bits: u64)
    requires
        1 <= bits <= 12,
    ensures
        forall|x: u64| #[trigger] (x >> ((64 - bits) as u64)) < (1u64 << bits),
        (1u64 << bits) <= 4096,
{
    assert forall|x: u64| #[trigger] (x >> ((64 - bits) as u64)) < (1u64 << bits) by {
        assert(1 <= bits <= 12 ==> x >> ((64 - bits) as u64) < (1u64 << bits)) by (bit_vector);
    }
    assert(1 <= bits <= 12 ==> (1u64 << bits) <= 4096) by (bit_vector);
}

/// Attack set of a bishop (`bishop`) or a rook on `sq` among `blocks`.
pub fn slider_attacks(sq: usize, blocks: Bitboard, bishop: bool) -> (r: Bitboard)
    requires
        sq < 64,
    ensures
        r == slider_rays(sq as int, blocks, bishop),
{
    if bishop {
        bishop_attacks(sq, blocks)
    } else {
        rook_attacks(sq, blocks)
    }
}

/// Every blocker set of the mask, by index, with the attack set it leaves:
/// entry `i` holds `deposit(i, attack_mask)`, for `i < 2^bits`.
pub fn enumerate_blockers(sq: usize, bishop: bool, attack_mask: Bitboard, bits: u64) -> (r: (
    Vec<Bitboard>,
    Vec<Bitboard>,
))
    requires
        sq < 64,
        bits == popcount(attack_mask),
        1 <= bits <= 12,
    ensures
        r.0.len() == 1u64 << bits,
        r.1.len() == 1u64 << bits,
        forall|q: int| 0 <= q < r.0.len() ==> #[trigger] r.0[q] == deposit(q as u64, attack_mask),
        forall|q: int|
            0 <= q < r.1.len() ==> #[trigger] r.1[q] == slider_rays(sq as int, r.0[q], bishop),
{
    proof {
        lemma_index_bound(bits);
    }
    let occupancy_index: u64 = 1u64 << bits;
    let mut occupancies: Vec<Bitboard> = Vec::new();
    let mut attacks: Vec<Bitboard> = Vec::new();
    let mut i: u64 = 0;
    while i < occupancy_index
        invariant
            sq < 64,
            bits == popcount(attack_mask),
            1 <= bits <= 12,
            occupancy_index == 1u64 << bits,
            occupancy_index <= 4096,
            i <= occupancy_index,
            occupancies.len() == i,
            attacks.len() == i,
            forall|q: int| 0 <= q < i ==> #[trigger] occupancies[q] == deposit(q as u64, attack_mask),
            forall|q: int|
                0 <= q < i ==> #[trigger] attacks[q] == slider_rays(sq as int, occupancies[q], bishop),
        decreases occupancy_index - i,
    {
        let occ = set_occupancy(i, bits as usize, attack_mask);
        occupancies.push(occ);
        attacks.push(slider_attacks(sq, occ, bishop));
        i = i + 1;
    }
    (occupancies, attacks)
}

/// Entry `j` of the blocker sets has its attack set in its slot, and the
/// slot is marked taken.
pub open spec fn settled(
    used: Seq<bool>,
    table: Seq<u64>,
    occupancies: Seq<u64>,
    attacks: Seq<u64>,
    magic: u64,
    bits: u64,
    j: int,
) -> bool {
    let slot = magic_index(occupancies[j], magic, bits) as int;
    used[slot] && table[slot] == attacks[j]
}

/// Lays `attacks[i]` into slot `magic_index(occupancies[i])` of a zeroed
/// table of `size` slots. Fails exactly when two different attack sets
/// meet in one slot.
pub fn place_attacks(
    occupancies: &Vec<Bitboard>,
    attacks: &Vec<Bitboard>,
    magic: u64,
    bits: u64,
    size: usize,
) -> (r: Option<Vec<Bitboard>>)
    requires
        occupancies.len() == attacks.len(),
        1 <= bits <= 12,
        (1u64 << bits) <= size,
    ensures
        match r {
            Some(t) => t.len() == size && forall|i: int|
                0 <= i < occupancies.len() ==> t[magic_index(occupancies[i], magic, bits) as int]
                    == attacks[i],
            None => exists|i: int, j: int|
                0 <= i < occupancies.len() && 0 <= j < occupancies.len() && magic_index(
                    #[trigger] occupancies[i],
                    magic,
                    bits,
                ) == magic_index(#[trigger] occupancies[j], magic, bits) && attacks[i]
                    != attacks[j],
        },
{
    let mut table: Vec<Bitboard> = Vec::new();
    let mut used: Vec<bool> = Vec::new();
    let mut z: usize = 0;
    while z < size
        invariant
            z <= size,
            table.len() == z,
            used.len() == z,
            forall|q: int| 0 <= q < z ==> !(#[trigger] used[q]),
        decreases size - z,
    {
        table.push(0);
        used.push(false);
        z = z + 1;
    }
    let n = occupancies.len();
    let mut i: usize = 0;
    while i < n
        invariant
            n == occupancies.len(),
            n == attacks.len(),
            1 <= bits <= 12,
            (1u64 << bits) <= size,
            i <= n,
            table.len() == size,
            used.len() == size,
            forall|j: int|
                0 <= j < i ==> #[trigger] settled(
                    used@,
                    table@,
                    occupancies@,
                    attacks@,
                    magic,
                    bits,
                    j,
                ),
            forall|q: int|
                0 <= q < size && #[trigger] used[q] ==> exists|j: int|
                    0 <= j < i && magic_index(#[trigger] occupancies[j], magic, bits) == q
                        && table[q] == attacks[j],
        decreases n - i,
    {
        let idx_u64 = occupancies[i].wrapping_mul(magic) >> (64 - bits);
        proof {
            lemma_index_bound(bits);
        }
        let idx = idx_u64 as usize;
        assert(idx == magic_index(occupancies[i as int], magic, bits));
        let ghost used0 = used;
        let ghost table0 = table;
        if !used[idx] {
            used.set(idx, true);
            table.set(idx, attacks[i]);
            assert forall|q: int| 0 <= q < size && #[trigger] used[q] implies exists|j: int|
                0 <= j < i + 1 && magic_index(#[trigger] occupancies[j], magic, bits) == q
                    && table[q] == attacks[j] by {
                if q != idx {
                    assert(used0[q]);
                } else {
                    assert(magic_index(occupancies[i as int], magic, bits) == q);
                }
            }
        } else if table[idx] != attacks[i] {
            proof {
                let j = choose|j: int|
                    0 <= j < i && magic_index(#[trigger] occupancies[j], magic, bits) == idx
                        && table[idx as int] == attacks[j];
                assert(magic_index(occupancies[i as int], magic, bits) == magic_index(
                    occupancies[j],
                    magic,
                    bits,
                ));
            }
            return None;
        }
        assert forall|j: int| 0 <= j < i + 1 implies #[trigger] settled(
            used@,
            table@,
            occupancies@,
            attacks@,
            magic,
            bits,
            j,
        ) by {
            if j < i {
                assert(settled(used0@, table0@, occupancies@, attacks@, magic, bits, j));
            }
        }
        i = i + 1;
    }
    assert forall|j: int| 0 <= j < occupancies.len() implies table[magic_index(
        occupancies[j],
        magic,
        bits,
    ) as int] == attacks[j] by {
        assert(settled(used@, table@, occupancies@, attacks@, magic, bits, j));
    }
    Some(table)
}

/// Number of relevant-occupancy squares of a bishop, by square.
pub const BISHOP_RELEVANT_BITS: [i32; 64] = [
    6, 5, 5, 5, 5, 5, 5, 6,
    5, 5, 5, 5, 5, 5, 5, 5,
    5, 5, 7, 7, 7, 7, 5, 5,
    5, 5, 7, 9, 9, 7, 5, 5,
    5, 5, 7, 9, 9, 7, 5, 5,
    5, 5, 7, 7, 7, 7, 5, 5,
    5, 5, 5, 5, 5, 5, 5, 5,
    6, 5, 5, 5, 5, 5, 5, 6,
];

/// Number of relevant-occupancy squares of a rook, by square.
pub const ROOK_RELEVANT_BITS: [i32; 64] = [
    12, 11, 11, 11, 11, 11, 11, 12,
    11, 10, 10, 10, 10, 10, 10, 11,
    11, 10, 10, 10, 10, 10, 10, 11,
    11, 10, 10, 10, 10, 10, 10, 11,
    11, 10, 10, 10, 10, 10, 10, 11,
    11, 10, 10, 10, 10, 10, 10, 11,
    11, 10, 10, 10, 10, 10, 10, 11,
    12, 11, 11, 11, 11, 11, 11, 12,
];

/// Initial state of the generator.
pub const RANDOM_SEED: u32 = 1804289383;

/// Candidates tried per square before the search gives up.
pub const MAX_MAGIC_TRIES: u64 = 100000000;

/// One step of the xorshift generator.
pub open spec fn xorshift(x: u32) -> u32 {
    let a = x ^ (x << 13u32);
    let b = a ^ (a >> 17u32);
    b ^ (b << 5u32)
}

/// Generator state after four steps.
pub open spec fn skip4(s: u32) -> u32 {
    xorshift(xorshift(xorshift(xorshift(s))))
}

/// The 64-bit number drawn from state `s`: the low 16 bits of the next four
/// 32-bit outputs, lowest first.
pub open spec fn draw_u64(s: u32) -> u64 {
    let a = xorshift(s);
    let b = xorshift(a);
    let c = xorshift(b);
    let d = xorshift(c);
    (a as u64 & 0xFFFFu64) | ((b as u64 & 0xFFFFu64) << 16u64) | ((c as u64 & 0xFFFFu64)
        << 32u64) | ((d as u64 & 0xFFFFu64) << 48u64)
}

/// The magic candidate drawn from state `s`: three 64-bit draws ANDed.
pub open spec fn draw_candidate(s: u32) -> u64 {
    draw_u64(s) & draw_u64(skip4(s)) & draw_u64(skip4(skip4(s)))
}

/// Generator state after drawing one magic candidate (twelve steps).
pub open spec fn skip12(s: u32) -> u32 {
    skip4(skip4(skip4(s)))
}

/// Generator state after drawing `t` magic candidates from state `s`.
pub open spec fn state_after(s: u32, t: nat) -> u32
    decreases t,
{
    if t == 0 {
        s
    } else {
        skip12(state_after(s, (t - 1) as nat))
    }
}

/// The `t`-th magic candidate drawn from state `s` (counting from 0).
pub open spec fn candidate(s: u32, t: nat) -> u64 {
    draw_candidate(state_after(s, t))
}

/// A candidate the search takes: its product with the mask sets at least
/// 6 bits of the top byte, and it is collision-free.
pub open spec fn accepted(sq: int, bishop: bool, m: u64) -> bool {
    popcount(slider_mask(sq, bishop).wrapping_mul(m) & 0xFF00000000000000u64) >= 6 && is_magic(
        sq,
        bishop,
        m,
    )
}

/// Candidate `t` from state `s` is the first one taken, within the budget.
pub open spec fn found_at(sq: int, bishop: bool, s: u32, t: nat) -> bool {
    &&& t < MAX_MAGIC_TRIES
    &&& accepted(sq, bishop, candidate(s, t))
    &&& forall|u: nat| u < t ==> !accepted(sq, bishop, #[trigger] candidate(s, u))
}

/// The search from state `s` takes some candidate within the budget.
pub open spec fn search_finds(sq: int, bishop: bool, s: u32) -> bool {
    exists|t: nat| found_at(sq, bishop, s, t)
}

/// No candidate within the budget from state `s` is taken.
pub open spec fn search_fails(sq: int, bishop: bool, s: u32) -> bool {
    forall|t: nat| t < MAX_MAGIC_TRIES ==> !accepted(sq, bishop, #[trigger] candidate(s, t))
}

/// The magic the search from state `s` returns, when it finds one.
pub open spec fn search_magic(sq: int, bishop: bool, s: u32) -> u64 {
    candidate(s, choose|t: nat| found_at(sq, bishop, s, t))
}

/// Generator state once the search from state `s` is over.
pub open spec fn search_end(sq: int, bishop: bool, s: u32) -> u32 {
    if search_finds(sq, bishop, s) {
        state_after(s, (choose|t: nat| found_at(sq, bishop, s, t)) + 1)
    } else {
        state_after(s, MAX_MAGIC_TRIES as nat)
    }
}

/// Generator state when the rook search of square `q` starts, in a run
/// that searches the rooks of squares `0..64` in order from state `s`.
pub open spec fn rook_start(s: u32, q: nat) -> u32
    decreases q,
{
    if q == 0 {
        s
    } else {
        search_end((q - 1) as int, false, rook_start(s, (q - 1) as nat))
    }
}

/// Generator state when the bishop search of square `q` starts, after all
/// rook searches of a run from state `s`.
pub open spec fn bishop_start(s: u32, q: nat) -> u32
    decreases q,
{
    if q == 0 {
        rook_start(s, 64)
    } else {
        search_end((q - 1) as int, true, bishop_start(s, (q - 1) as nat))
    }
}

proof fn lemma_found_unique(sq: int, bishop: bool, s: u32, t: nat)
    requires
        found_at(sq, bishop, s, t),
    ensures
        search_finds(sq, bishop, s),
        (choose|u: nat| found_at(sq, bishop, s, u)) == t,
        search_magic(sq, bishop, s) == candidate(s, t),
        search_end(sq, bishop, s) == state_after(s, t + 1),
{
    let u = choose|u: nat| found_at(sq, bishop, s, u);
    assert(found_at(sq, bishop, s, u));
    if u < t {
        assert(!accepted(sq, bishop, candidate(s, u)));
    } else if t < u {
        assert(!accepted(sq, bishop, candidate(s, t)));
    }
}

/// A table built from every blocker set proves a magic collision-free; a
/// collision between two blocker sets with different attack sets refutes
/// it.
pub(crate) proof fn lemma_placement_decides(
    sq: int,
    bishop: bool,
    mask: u64,
    bits: u64,
    magic: u64,
    occupancies: Seq<u64>,
    attacks: Seq<u64>,
    placed: Option<Vec<u64>>,
)
    requires
        mask == slider_mask(sq, bishop),
        bits == popcount(mask),
        occupancies.len() == 1u64 << bits,
        attacks.len() == 1u64 << bits,
        forall|q: int|
            0 <= q < occupancies.len() ==> #[trigger] occupancies[q] == deposit(q as u64, mask),
        forall|q: int|
            0 <= q < attacks.len() ==> #[trigger] attacks[q] == slider_rays(
                sq,
                occupancies[q],
                bishop,
            ),
        match placed {
            Some(t) => forall|i: int|
                0 <= i < occupancies.len() ==> t[magic_index(occupancies[i], magic, bits) as int]
                    == attacks[i],
            None => exists|i: int, j: int|
                0 <= i < occupancies.len() && 0 <= j < occupancies.len() && magic_index(
                    #[trigger] occupancies[i],
                    magic,
                    bits,
                ) == magic_index(#[trigger] occupancies[j], magic, bits) && attacks[i]
                    != attacks[j],
        },
    ensures
        is_magic(sq, bishop, magic) == (placed is Some),
{
    match placed {
        Some(table) => {
            assert forall|a: u64, b: u64|
                #![trigger magic_index(deposit(a, mask), magic, bits), magic_index(
                    deposit(b, mask),
                    magic,
                    bits,
                )]
                a < (1u64 << bits) && b < (1u64 << bits) && magic_index(
                    deposit(a, mask),
                    magic,
                    bits,
                ) == magic_index(deposit(b, mask), magic, bits) implies slider_rays(
                sq,
                deposit(a, mask),
                bishop,
            ) == slider_rays(sq, deposit(b, mask), bishop) by {
                assert(occupancies[a as int] == deposit(a, mask));
                assert(occupancies[b as int] == deposit(b, mask));
                assert(table[magic_index(occupancies[a as int], magic, bits) as int]
                    == attacks[a as int]);
                assert(table[magic_index(occupancies[b as int], magic, bits) as int]
                    == attacks[b as int]);
            }
            assert(popcount(mask) as u64 == bits);
            assert(is_magic(sq, bishop, magic));
        },
        None => {
            let (i, j) = choose|i: int, j: int|
                0 <= i < occupancies.len() && 0 <= j < occupancies.len() && magic_index(
                    #[trigger] occupancies[i],
                    magic,
                    bits,
                ) == magic_index(#[trigger] occupancies[j], magic, bits) && attacks[i]
                    != attacks[j];
            assert(occupancies[i] == deposit(i as u64, mask));
            assert(occupancies[j] == deposit(j as u64, mask));
            assert(attacks[i] == slider_rays(sq, occupancies[i], bishop));
            assert(attacks[j] == slider_rays(sq, occupancies[j], bishop));
            assert(magic_index(deposit(i as u64, mask), magic, bits) == magic_index(
                deposit(j as u64, mask),
                magic,
                bits,
            ));
            assert(popcount(mask) as u64 == bits);
            assert((i as u64) < (1u64 << bits) && (j as u64) < (1u64 << bits));
            assert(!is_magic(sq, bishop, magic));
        },
    }
}

/// In a run from state `s`, the rook or the bishop search of square `q`
/// finds nothing.
pub open spec fn search_failed_at(s: u32, q: int) -> bool {
    search_fails(q, false, rook_start(s, q as nat)) || search_fails(q, true, bishop_start(s, q as nat))
}

/// Entry `q` of `magics` is what the rook search of square `q` finds in a
/// run from state `s`.
pub open spec fn rook_found(magics: [u64; 64], s: u32, q: int) -> bool {
    &&& search_finds(q, false, rook_start(s, q as nat))
    &&& magics[q] == search_magic(q, false, rook_start(s, q as nat))
    &&& is_magic(q, false, magics[q])
}

/// Entry `q` of `magics` is what the bishop search of square `q` finds in
/// a run from state `s`.
pub open spec fn bishop_found(magics: [u64; 64], s: u32, q: int) -> bool {
    &&& search_finds(q, true, bishop_start(s, q as nat))
    &&& magics[q] == search_magic(q, true, bishop_start(s, q as nat))
    &&& is_magic(q, true, magics[q])
}

/// Searches magic multipliers with a deterministic xorshift generator.
pub struct Sorcerer {
    pub state: u32,
    pub bishop_magic_numbers: [u64; 64],
    pub rook_magic_numbers: [u64; 64],
}

impl Sorcerer {
    /// A searcher at the fixed seed, with no magics found yet.
    pub fn new() -> (r: Sorcerer)
        ensures
            r.state == RANDOM_SEED,
            forall|sq: int| 0 <= sq < 64 ==> r.bishop_magic_numbers[sq] == 0,
            forall|sq: int| 0 <= sq < 64 ==> r.rook_magic_numbers[sq] == 0,
    {
        Sorcerer { state: RANDOM_SEED, bishop_magic_numbers: [0; 64], rook_magic_numbers: [0; 64] }
    }

    /// Next 32-bit output of the generator.
    pub fn get_random_u32_number(&mut self) -> (r: u32)
        ensures
            r == xorshift(old(self).state),
            final(self).state == r,
            final(self).bishop_magic_numbers == old(self).bishop_magic_numbers,
            final(self).rook_magic_numbers == old(self).rook_magic_numbers,
    {
        let mut x = self.state;
        x = x ^ (x << 13u32);
        x = x ^ (x >> 17u32);
        x = x ^ (x << 5u32);
        self.state = x;
        x
    }

    /// Next 64-bit output: four 16-bit slices of the 32-bit stream.
    pub fn get_random_u64_number(&mut self) -> (r: u64)
        ensures
            r == draw_u64(old(self).state),
            final(self).state == skip4(old(self).state),
            final(self).bishop_magic_numbers == old(self).bishop_magic_numbers,
            final(self).rook_magic_numbers == old(self).rook_magic_numbers,
    {
        let x = (self.get_random_u32_number() as u64) & 0xFFFF;
        let y = (self.get_random_u32_number() as u64) & 0xFFFF;
        let z = (self.get_random_u32_number() as u64) & 0xFFFF;
        let w = (self.get_random_u32_number() as u64) & 0xFFFF;
        x | (y << 16u64) | (z << 32u64) | (w << 48u64)
    }

    /// A sparse magic candidate: the AND of three 64-bit outputs.
    pub fn generate_magic_num(&mut self) -> (r: u64)
        ensures
            r == draw_candidate(old(self).state),
            final(self).state == skip4(skip4(skip4(old(self).state))),
            final(self).bishop_magic_numbers == old(self).bishop_magic_numbers,
            final(self).rook_magic_numbers == old(self).rook_magic_numbers,
    {
        let a = self.get_random_u64_number();
        let b = self.get_random_u64_number();
        let c = self.get_random_u64_number();
        a & b & c
    }
    /// Searches a magic for a bishop (`bishop`) or a rook on `sq`: draws
    /// candidates until one sends every two blocker sets of the mask with
    /// different attack sets to different slots. Candidates whose product
    /// with the mask sets fewer than 6 bits of the top byte are skipped
    /// untested. Returns the first candidate taken, or `None` once
    /// `MAX_MAGIC_TRIES` candidates have all been refused.
    pub fn find_magic_number(&mut self, sq: usize, relevant_bits: i32, bishop: bool) -> (r: Option<
        u64,
    >)
        requires
            sq < 64,
            relevant_bits == if bishop {
                BISHOP_RELEVANT_BITS[sq as int]
            } else {
                ROOK_RELEVANT_BITS[sq as int]
            },
        ensures
            match r {
                Some(m) => {
                    &&& exists|t: nat|
                        found_at(sq as int, bishop, old(self).state, t) && m == candidate(
                            old(self).state,
                            t,
                        )
                    &&& m == search_magic(sq as int, bishop, old(self).state)
                    &&& is_magic(sq as int, bishop, m)
                },
                None => search_fails(sq as int, bishop, old(self).state),
            },
            r is Some <==> search_finds(sq as int, bishop, old(self).state),
            final(self).state == search_end(sq as int, bishop, old(self).state),
            final(self).bishop_magic_numbers == old(self).bishop_magic_numbers,
            final(self).rook_magic_numbers == old(self).rook_magic_numbers,
    {
        let ghost s0 = self.state;
        let attack_mask = if bishop {
            mask_bishop_attacks(sq)
        } else {
            mask_rook_attacks(sq)
        };
        let bits = relevant_bits as u64;
        proof {
            lemma_index_bound(bits);
        }
        let occupancy_index: u64 = 1u64 << bits;
        let (occupancies, attacks) = enumerate_blockers(sq, bishop, attack_mask, bits);
        let mut tries: u64 = 0;
        while tries < MAX_MAGIC_TRIES
            invariant
                sq < 64,
                attack_mask == slider_mask(sq as int, bishop),
                bits == popcount(attack_mask),
                1 <= bits <= 12,
                occupancy_index == 1u64 << bits,
                occupancies.len() == occupancy_index,
                attacks.len() == occupancy_index,
                forall|q: int|
                    0 <= q < occupancy_index ==> #[trigger] occupancies[q] == deposit(
                        q as u64,
                        attack_mask,
                    ),
                forall|q: int|
                    0 <= q < occupancy_index ==> #[trigger] attacks[q] == slider_rays(
                        sq as int,
                        occupancies[q],
                        bishop,
                    ),
                tries <= MAX_MAGIC_TRIES,
                s0 == old(self).state,
                self.state == state_after(s0, tries as nat),
                forall|u: nat|
                    u < tries ==> !accepted(sq as int, bishop, #[trigger] candidate(s0, u)),
                self.bishop_magic_numbers == old(self).bishop_magic_numbers,
                self.rook_magic_numbers == old(self).rook_magic_numbers,
            decreases MAX_MAGIC_TRIES - tries,
        {
            let magic = self.generate_magic_num();
            assert(magic == candidate(s0, tries as nat));
            assert(self.state == state_after(s0, (tries + 1) as nat));
            let high = count_bits(attack_mask.wrapping_mul(magic) & 0xFF00000000000000u64);
            if high >= 6 {
                let placed = place_attacks(
                    &occupancies,
                    &attacks,
                    magic,
                    bits,
                    occupancy_index as usize,
                );
                proof {
                    lemma_placement_decides(
                        sq as int,
                        bishop,
                        attack_mask,
                        bits,
                        magic,
                        occupancies@,
                        attacks@,
                        placed,
                    );
                }
                if placed.is_some() {
                    proof {
                        assert(found_at(sq as int, bishop, s0, tries as nat));
                        lemma_found_unique(sq as int, bishop, s0, tries as nat);
                        assert(s0 == old(self).state);
                        assert(search_finds(sq as int, bishop, old(self).state));
                        assert(found_at(sq as int, bishop, s0, tries as nat) && magic == candidate(
                            s0,
                            tries as nat,
                        ));
                        assert(magic == search_magic(sq as int, bishop, old(self).state));
                    }
                    return Some(magic);
                }
            }
            assert(!accepted(sq as int, bishop, candidate(s0, tries as nat)));
            tries = tries + 1;
        }
        proof {
            if search_finds(sq as int, bishop, s0) {
                let t = choose|t: nat| found_at(sq as int, bishop, s0, t);
                assert(!accepted(sq as int, bishop, candidate(s0, t)));
            }
        }
        None
    }

    /// Searches the rook magics of all squares, then the bishop magics, in
    /// that order, each search starting from the state the previous one
    /// left. `false` when a search runs out of candidates; the arrays then
    /// hold what was found so far.
    pub fn init_magic_numbers(&mut self) -> (r: bool)
        ensures
            r ==> forall|q: int|
                0 <= q < 64 ==> rook_found(final(self).rook_magic_numbers, old(self).state, q)
                    && #[trigger] bishop_found(final(self).bishop_magic_numbers, old(self).state, q),
            !r ==> exists|q: int| 0 <= q < 64 && #[trigger] search_failed_at(old(self).state, q),
    {
        let ghost s0 = self.state;
        assert(forall|q: int| 0 <= q < 64 ==> 5 <= #[trigger] BISHOP_RELEVANT_BITS[q] <= 9);
        assert(forall|q: int| 0 <= q < 64 ==> 10 <= #[trigger] ROOK_RELEVANT_BITS[q] <= 12);
        let mut sq: usize = 0;
        while sq < 64
            invariant
                sq <= 64,
                s0 == old(self).state,
                self.state == rook_start(s0, sq as nat),
                forall|q: int| 0 <= q < 64 ==> 10 <= #[trigger] ROOK_RELEVANT_BITS[q] <= 12,
                forall|q: int| 0 <= q < sq ==> #[trigger] rook_found(self.rook_magic_numbers, s0, q),
            decreases 64 - sq,
        {
            assert(rook_start(s0, (sq + 1) as nat) == search_end(
                sq as int,
                false,
                rook_start(s0, sq as nat),
            ));
            match self.find_magic_number(sq, ROOK_RELEVANT_BITS[sq], false) {
                Some(m) => {
                    let ghost before = self.rook_magic_numbers;
                    self.rook_magic_numbers[sq] = m;
                    assert forall|q: int| 0 <= q < sq + 1 implies #[trigger] rook_found(
                        self.rook_magic_numbers,
                        s0,
                        q,
                    ) by {
                        if q < sq {
                            assert(rook_found(before, s0, q));
                        }
                    }
                },
                None => {
                    let ghost q = sq as int;
                    assert(search_fails(q, false, rook_start(s0, q as nat)));
                    assert(search_failed_at(s0, q));
                    return false;
                },
            }
            sq = sq + 1;
        }
        let mut sq: usize = 0;
        while sq < 64
            invariant
                sq <= 64,
                s0 == old(self).state,
                self.state == bishop_start(s0, sq as nat),
                forall|q: int| 0 <= q < 64 ==> 5 <= #[trigger] BISHOP_RELEVANT_BITS[q] <= 9,
                forall|q: int| 0 <= q < 64 ==> #[trigger] rook_found(self.rook_magic_numbers, s0, q),
                forall|q: int|
                    0 <= q < sq ==> #[trigger] bishop_found(self.bishop_magic_numbers, s0, q),
            decreases 64 - sq,
        {
            assert(bishop_start(s0, (sq + 1) as nat) == search_end(
                sq as int,
                true,
                bishop_start(s0, sq as nat),
            ));
            match self.find_magic_number(sq, BISHOP_RELEVANT_BITS[sq], true) {
                Some(m) => {
                    let ghost before = self.bishop_magic_numbers;
                    self.bishop_magic_numbers[sq] = m;
                    assert forall|q: int| 0 <= q < sq + 1 implies #[trigger] bishop_found(
                        self.bishop_magic_numbers,
                        s0,
                        q,
                    ) by {
                        if q < sq {
                            assert(bishop_found(before, s0, q));
                        }
                    }
                },
                None => {
                    let ghost q = sq as int;
                    assert(search_fails(q, true, bishop_start(s0, q as nat)));
                    assert(search_failed_at(s0, q));
                    return false;
                },
            }
            sq = sq + 1;
        }
        assert forall|q: int| 0 <= q < 64 implies rook_found(self.rook_magic_numbers, s0, q)
            && #[trigger] bishop_found(self.bishop_magic_numbers, s0, q) by {
            assert(rook_found(self.rook_magic_numbers, s0, q));
            assert(bishop_found(self.bishop_magic_numbers, s0, q));
        }
        true
    }
}

} // verus!
