//! Facts about rays, masks and the occupancy enumeration: every subset of
//! a mask is enumerated, a ray reads only its mask, pieces off the attack
//! set are ignored, empty-board counts, and mirror symmetry.

use vstd::prelude::*;

use crate::board::bitboard::{count_from, is_member, popcount};
use crate::sorcery::{
    bishop_mask, rook_mask, BISHOP_RELEVANT_BITS, ROOK_RELEVANT_BITS,
    bishop_rays, blocked_ray, deposit, deposit_from, inner, is_dir, lemma_count_bound,
    lemma_or_assoc, mask_ray, on_board, room, rook_rays, slider_mask, slider_rays, square_at,
};

verus! {

/// The index that selects `s` out of `mask` from bit `p` on: bit `j` is set
/// when the `j`-th member of `mask` at or above `p` is in `s`.
pub open spec fn extract_from(s: u64, mask: u64, p: nat) -> u64
    decreases 64 - p,
{
    if p >= 64 {
        0
    } else if is_member(mask, p as u64) {
        (if is_member(s, p as u64) {
            1u64
        } else {
            0u64
        }) | (extract_from(s, mask, p + 1) << 1u64)
    } else {
        extract_from(s, mask, p + 1)
    }
}

/// The squares at or above `p`.
pub open spec fn from_square(p: u64) -> u64 {
    if p >= 64 {
        0
    } else {
        !0u64 << p
    }
}

proof fn lemma_extract_bound(s: u64, mask: u64, p: nat)
    requires
        count_from(mask, p) < 64,
    ensures
        extract_from(s, mask, p) < (1u64 << (count_from(mask, p) as u64)),
    decreases 64 - p,
{
    if p >= 64 {
        assert(0u64 < (1u64 << 0u64)) by (bit_vector);
    } else {
        lemma_extract_bound(s, mask, p + 1);
        let e1 = extract_from(s, mask, p + 1);
        let c1 = count_from(mask, p + 1) as u64;
        if is_member(mask, p as u64) {
            let bit: u64 = if is_member(s, p as u64) {
                1
            } else {
                0
            };
            let c = count_from(mask, p) as u64;
            assert(c == c1 + 1);
            assert(e1 < (1u64 << c1) && c1 < 63 && c == c1 + 1 && bit <= 1 ==> (bit | (e1 << 1u64))
                < (1u64 << c)) by (bit_vector);
        }
    }
}

proof fn lemma_deposit_extract(s: u64, mask: u64, p: nat)
    requires
        p <= 64,
    ensures
        deposit_from(extract_from(s, mask, p), mask, p) == s & mask & from_square(p as u64),
    decreases 64 - p,
{
    let pu = p as u64;
    if p >= 64 {
        assert(p >= 64 ==> from_square(pu) == 0);
        assert(s & mask & 0u64 == 0u64) by (bit_vector);
    } else {
        lemma_deposit_extract(s, mask, p + 1);
        let e1 = extract_from(s, mask, p + 1);
        let pu1 = (p + 1) as u64;
        let rest = s & mask & from_square(pu1);
        assert(from_square(pu1) == if pu1 >= 64 {
            0u64
        } else {
            !0u64 << pu1
        });
        assert(from_square(pu) == !0u64 << pu);
        if is_member(mask, pu) {
            lemma_count_bound(mask, p + 1);
            lemma_extract_bound(s, mask, p + 1);
            let c1 = count_from(mask, p + 1) as u64;
            let bit: u64 = if is_member(s, pu) {
                1
            } else {
                0
            };
            assert(e1 < (1u64 << c1) && c1 <= 63 && bit <= 1 ==> (bit | (e1 << 1u64)) & 1u64 == bit
                && (bit | (e1 << 1u64)) >> 1u64 == e1) by (bit_vector);
            assert(pu < 64 && pu1 == pu + 1 && (mask >> pu) & 1u64 == 1u64 && (bit == 1u64 <==> (s
                >> pu) & 1u64 == 1u64) ==> (if bit == 1u64 {
                1u64 << pu
            } else {
                0u64
            }) | (s & mask & (if pu1 >= 64 {
                0u64
            } else {
                !0u64 << pu1
            })) == s & mask & (!0u64 << pu)) by (bit_vector);
        } else {
            assert(pu < 64 && pu1 == pu + 1 && (mask >> pu) & 1u64 != 1u64 ==> s & mask & (if pu1
                >= 64 {
                0u64
            } else {
                !0u64 << pu1
            }) == s & mask & (!0u64 << pu)) by (bit_vector);
        }
    }
}

/// Every subset of a mask with fewer than 64 members is selected by some
/// index below `2^popcount(mask)`.
pub proof fn lemma_subset_selected(s: u64, mask: u64) -> (i: u64)
    requires
        s & mask == s,
        popcount(mask) < 64,
    ensures
        i < (1u64 << (popcount(mask) as u64)),
        deposit(i, mask) == s,
{
    lemma_extract_bound(s, mask, 0);
    lemma_deposit_extract(s, mask, 0);
    assert(from_square(0) == !0u64 << 0u64);
    assert(s & mask == s ==> s & mask & (!0u64 << 0u64) == s) by (bit_vector);
    extract_from(s, mask, 0)
}

/// The walk has taken at least one step in direction `d` from a square of
/// the board.
pub open spec fn stepped(c: int, d: int) -> bool {
    &&& (d == 0 ==> 0 <= c <= 7)
    &&& (d == 1 ==> c >= 1)
    &&& (d == -1 ==> c <= 6)
}

proof fn lemma_ray_sees_mask_only(r: int, f: int, dr: int, df: int, o1: u64, o2: u64)
    requires
        is_dir(dr, df),
        stepped(r, dr),
        stepped(f, df),
        o1 & mask_ray(r, f, dr, df) == o2 & mask_ray(r, f, dr, df),
    ensures
        blocked_ray(r, f, dr, df, o1) == blocked_ray(r, f, dr, df, o2),
    decreases room(r, dr) + room(f, df),
{
    if on_board(r, f) {
        let sq = square_at(r, f);
        assert(sq < 64);
        let b = 1u64 << sq;
        if inner(r, dr) && inner(f, df) {
            let rest = mask_ray(r + dr, f + df, dr, df);
            assert(mask_ray(r, f, dr, df) == b | rest);
            assert(sq < 64 && b == 1u64 << sq && o1 & (b | rest) == o2 & (b | rest) ==> ((o1 >> sq)
                & 1u64 == 1u64) == ((o2 >> sq) & 1u64 == 1u64) && o1 & rest == o2 & rest)
                by (bit_vector);
            lemma_ray_sees_mask_only(r + dr, f + df, dr, df, o1, o2);
            assert(blocked_ray(r, f, dr, df, o1) == blocked_ray(r, f, dr, df, o2));
        } else {
            assert(!on_board(r + dr, f + df));
            assert(blocked_ray(r + dr, f + df, dr, df, o1) == 0);
            assert(blocked_ray(r + dr, f + df, dr, df, o2) == 0);
            lemma_or_assoc(b, 0, 0);
            assert(blocked_ray(r, f, dr, df, o1) == b);
            assert(blocked_ray(r, f, dr, df, o2) == b);
        }
    }
}

proof fn lemma_part_of_mask(o: u64, a: u64, b: u64, c: u64, d: u64)
    by (bit_vector)
    ensures
        o & a == (o & (a | b | c | d)) & a,
        o & b == (o & (a | b | c | d)) & b,
        o & c == (o & (a | b | c | d)) & c,
        o & d == (o & (a | b | c | d)) & d,
{
}

/// A slider's attack set depends on the occupancy of its relevant mask
/// only.
pub proof fn lemma_rays_see_mask_only(sq: int, occ: u64, bishop: bool)
    requires
        0 <= sq < 64,
    ensures
        slider_rays(sq, occ, bishop) == slider_rays(sq, occ & slider_mask(sq, bishop), bishop),
{
    let r = sq / 8;
    let f = sq % 8;
    let m = slider_mask(sq, bishop);
    let o2 = occ & m;
    if bishop {
        lemma_part_of_mask(
            occ,
            mask_ray(r + 1, f + 1, 1, 1),
            mask_ray(r - 1, f + 1, -1, 1),
            mask_ray(r + 1, f - 1, 1, -1),
            mask_ray(r - 1, f - 1, -1, -1),
        );
        lemma_ray_sees_mask_only(r + 1, f + 1, 1, 1, occ, o2);
        lemma_ray_sees_mask_only(r - 1, f + 1, -1, 1, occ, o2);
        lemma_ray_sees_mask_only(r + 1, f - 1, 1, -1, occ, o2);
        lemma_ray_sees_mask_only(r - 1, f - 1, -1, -1, occ, o2);
    } else {
        lemma_part_of_mask(
            occ,
            mask_ray(r + 1, f, 1, 0),
            mask_ray(r - 1, f, -1, 0),
            mask_ray(r, f + 1, 0, 1),
            mask_ray(r, f - 1, 0, -1),
        );
        lemma_ray_sees_mask_only(r + 1, f, 1, 0, occ, o2);
        lemma_ray_sees_mask_only(r - 1, f, -1, 0, occ, o2);
        lemma_ray_sees_mask_only(r, f + 1, 0, 1, occ, o2);
        lemma_ray_sees_mask_only(r, f - 1, 0, -1, occ, o2);
    }
}

proof fn lemma_ray_ignores_unseen(r: int, f: int, dr: int, df: int, occ: u64, t: u64)
    requires
        t < 64,
        !is_member(blocked_ray(r, f, dr, df, occ), t),
    ensures
        blocked_ray(r, f, dr, df, occ | (1u64 << t)) == blocked_ray(r, f, dr, df, occ),
    decreases room(r, dr) + room(f, df),
{
    if on_board(r, f) && is_dir(dr, df) {
        let sq = square_at(r, f);
        assert(sq < 64);
        let b = 1u64 << sq;
        let rest = blocked_ray(r + dr, f + df, dr, df, occ);
        assert(sq < 64 && t < 64 && ((b >> t) & 1u64 != 1u64 || ((b | rest) >> t) & 1u64
            != 1u64) && b == 1u64 << sq ==> t != sq && (((occ | (1u64 << t)) >> sq) & 1u64
            == 1u64) == ((occ >> sq) & 1u64 == 1u64) && (((b | rest) >> t) & 1u64 != 1u64 ==> (
        rest >> t) & 1u64 != 1u64)) by (bit_vector);
        if !is_member(occ, sq) {
            lemma_ray_ignores_unseen(r + dr, f + df, dr, df, occ, t);
        }
    }
}

proof fn lemma_unseen_in_parts(a: u64, b: u64, c: u64, d: u64, t: u64)
    requires
        t < 64,
        !is_member(a | b | c | d, t),
    ensures
        !is_member(a, t),
        !is_member(b, t),
        !is_member(c, t),
        !is_member(d, t),
{
    assert(t < 64 && ((a | b | c | d) >> t) & 1u64 != 1u64 ==> (a >> t) & 1u64 != 1u64 && (b
        >> t) & 1u64 != 1u64 && (c >> t) & 1u64 != 1u64 && (d >> t) & 1u64 != 1u64)
        by (bit_vector);
}

/// Adding a piece on a square that a slider does not attack leaves its
/// attack set unchanged.
pub proof fn lemma_blocker_outside_attacks(sq: int, occ: u64, t: u64, bishop: bool)
    requires
        0 <= sq < 64,
        t < 64,
        !is_member(slider_rays(sq, occ, bishop), t),
    ensures
        slider_rays(sq, occ | (1u64 << t), bishop) == slider_rays(sq, occ, bishop),
{
    let r = sq / 8;
    let f = sq % 8;
    if bishop {
        lemma_unseen_in_parts(
            blocked_ray(r + 1, f + 1, 1, 1, occ),
            blocked_ray(r - 1, f + 1, -1, 1, occ),
            blocked_ray(r + 1, f - 1, 1, -1, occ),
            blocked_ray(r - 1, f - 1, -1, -1, occ),
            t,
        );
        lemma_ray_ignores_unseen(r + 1, f + 1, 1, 1, occ, t);
        lemma_ray_ignores_unseen(r - 1, f + 1, -1, 1, occ, t);
        lemma_ray_ignores_unseen(r + 1, f - 1, 1, -1, occ, t);
        lemma_ray_ignores_unseen(r - 1, f - 1, -1, -1, occ, t);
    } else {
        lemma_unseen_in_parts(
            blocked_ray(r + 1, f, 1, 0, occ),
            blocked_ray(r - 1, f, -1, 0, occ),
            blocked_ray(r, f + 1, 0, 1, occ),
            blocked_ray(r, f - 1, 0, -1, occ),
            t,
        );
        lemma_ray_ignores_unseen(r + 1, f, 1, 0, occ, t);
        lemma_ray_ignores_unseen(r - 1, f, -1, 0, occ, t);
        lemma_ray_ignores_unseen(r, f + 1, 0, 1, occ, t);
        lemma_ray_ignores_unseen(r, f - 1, 0, -1, occ, t);
    }
}

proof fn lemma_count_union(a: u64, b: u64, p: nat)
    requires
        p <= 64,
        forall|s: u64| p <= s < 64 ==> !(#[trigger] is_member(a, s) && is_member(b, s)),
    ensures
        count_from(a | b, p) == count_from(a, p) + count_from(b, p),
    decreases 64 - p,
{
    if p < 64 {
        let pu = p as u64;
        assert(pu < 64 ==> ((((a | b) >> pu) & 1u64 == 1u64) == (((a >> pu) & 1u64 == 1u64) || ((b
            >> pu) & 1u64 == 1u64)))) by (bit_vector);
        assert(!(is_member(a, pu) && is_member(b, pu)));
        lemma_count_union(a, b, p + 1);
    }
}

proof fn lemma_count_single(s: u64, p: nat)
    requires
        s < 64,
        p <= 64,
    ensures
        count_from(1u64 << s, p) == if p <= s {
            1nat
        } else {
            0nat
        },
    decreases 64 - p,
{
    if p < 64 {
        let pu = p as u64;
        assert(s < 64 && pu < 64 ==> ((((1u64 << s) >> pu) & 1u64 == 1u64) == (pu == s)))
            by (bit_vector);
        lemma_count_single(s, p + 1);
    }
}

/// Rank and file bounds of a square that a ray from (r, f) in direction
/// (dr, df) reaches.
pub open spec fn ahead(r: int, f: int, dr: int, df: int, s: int) -> bool {
    &&& 0 <= s < 64
    &&& (dr == 0 ==> s / 8 == r)
    &&& (dr == 1 ==> s / 8 >= r)
    &&& (dr == -1 ==> s / 8 <= r)
    &&& (df == 0 ==> s % 8 == f)
    &&& (df == 1 ==> s % 8 >= f)
    &&& (df == -1 ==> s % 8 <= f)
}

proof fn lemma_ray_members(r: int, f: int, dr: int, df: int, occ: u64, s: u64)
    requires
        s < 64,
        is_member(blocked_ray(r, f, dr, df, occ), s),
    ensures
        ahead(r, f, dr, df, s as int),
    decreases room(r, dr) + room(f, df),
{
    if on_board(r, f) && is_dir(dr, df) {
        let sq = square_at(r, f);
        assert(sq < 64);
        let b = 1u64 << sq;
        let rest = blocked_ray(r + dr, f + df, dr, df, occ);
        lemma_single_member(rest, sq, s);
        if s == sq {
            assert(s as int / 8 == r && s as int % 8 == f);
        } else {
            assert(!is_member(occ, sq));
            lemma_ray_members(r + dr, f + df, dr, df, occ, s);
        }
    } else {
        lemma_single_member(0, 0, s);
    }
}

/// How many squares a coordinate can still advance by in direction `d`
/// before leaving the board (8 when it does not move).
pub open spec fn reach(c: int, d: int) -> int {
    if d > 0 {
        8 - c
    } else if d < 0 {
        c + 1
    } else {
        8
    }
}

pub open spec fn min(a: int, b: int) -> int {
    if a <= b {
        a
    } else {
        b
    }
}

proof fn lemma_empty_ray_count(r: int, f: int, dr: int, df: int)
    requires
        is_dir(dr, df),
        -1 <= r <= 8,
        -1 <= f <= 8,
        dr == 0 ==> 0 <= r <= 7,
        df == 0 ==> 0 <= f <= 7,
    ensures
        popcount(blocked_ray(r, f, dr, df, 0)) == if on_board(r, f) {
            min(reach(r, dr), reach(f, df))
        } else {
            0
        },
    decreases room(r, dr) + room(f, df),
{
    if on_board(r, f) {
        let sq = square_at(r, f);
        assert(sq < 64);
        let b = 1u64 << sq;
        let rest = blocked_ray(r + dr, f + df, dr, df, 0);
        lemma_single_member(0, 0, sq);
        lemma_empty_ray_count(r + dr, f + df, dr, df);
        assert forall|s: u64| 0 <= s < 64 implies !(#[trigger] is_member(b, s) && is_member(
            rest,
            s,
        )) by {
            if is_member(b, s) && is_member(rest, s) {
                lemma_single_member(rest, sq, s);
                lemma_ray_members(r + dr, f + df, dr, df, 0, s);
                assert(s as int / 8 == r && s as int % 8 == f);
            }
        }
        lemma_count_union(b, rest, 0);
        lemma_count_single(sq, 0);
    } else {
        assert(popcount(0) == 0) by {
            lemma_count_zero(0);
        }
    }
}

proof fn lemma_count_zero(p: nat)
    ensures
        count_from(0, p) == 0,
    decreases 64 - p,
{
    if p < 64 {
        let pu = p as u64;
        assert((0u64 >> pu) & 1u64 == 0u64) by (bit_vector);
        lemma_count_zero(p + 1);
    }
}

/// No two of the four boards share square `s`.
pub open spec fn apart(a: u64, b: u64, c: u64, d: u64, s: u64) -> bool {
    &&& !(is_member(a, s) && is_member(b, s))
    &&& !(is_member(a, s) && is_member(c, s))
    &&& !(is_member(a, s) && is_member(d, s))
    &&& !(is_member(b, s) && is_member(c, s))
    &&& !(is_member(b, s) && is_member(d, s))
    &&& !(is_member(c, s) && is_member(d, s))
}

proof fn lemma_count_four(a: u64, b: u64, c: u64, d: u64)
    requires
        forall|s: u64| s < 64 ==> #[trigger] apart(a, b, c, d, s),
    ensures
        popcount(a | b | c | d) == popcount(a) + popcount(b) + popcount(c) + popcount(d),
{
    assert forall|s: u64| 0 <= s < 64 implies !(#[trigger] is_member(a, s) && is_member(b, s)) by {
        assert(apart(a, b, c, d, s));
    }
    lemma_count_union(a, b, 0);
    assert forall|s: u64| 0 <= s < 64 implies !(#[trigger] is_member(a | b, s) && is_member(c, s)) by {
        assert(s < 64 ==> ((((a | b) >> s) & 1u64 == 1u64) == (((a >> s) & 1u64 == 1u64) || ((b
            >> s) & 1u64 == 1u64)))) by (bit_vector);
        assert(apart(a, b, c, d, s));
    }
    lemma_count_union(a | b, c, 0);
    assert forall|s: u64| 0 <= s < 64 implies !(#[trigger] is_member(a | b | c, s) && is_member(
        d,
        s,
    )) by {
        assert(s < 64 ==> ((((a | b | c) >> s) & 1u64 == 1u64) == (((a >> s) & 1u64 == 1u64) || ((
        b >> s) & 1u64 == 1u64) || ((c >> s) & 1u64 == 1u64)))) by (bit_vector);
        assert(apart(a, b, c, d, s));
    }
    lemma_count_union(a | b | c, d, 0);
}

/// On an empty board a rook attacks 14 squares from anywhere.
pub proof fn lemma_rook_empty_board(sq: int)
    requires
        0 <= sq < 64,
    ensures
        popcount(rook_rays(sq, 0)) == 14,
{
    let r = sq / 8;
    let f = sq % 8;
    let up = blocked_ray(r + 1, f, 1, 0, 0);
    let down = blocked_ray(r - 1, f, -1, 0, 0);
    let right = blocked_ray(r, f + 1, 0, 1, 0);
    let left = blocked_ray(r, f - 1, 0, -1, 0);
    lemma_empty_ray_count(r + 1, f, 1, 0);
    lemma_empty_ray_count(r - 1, f, -1, 0);
    lemma_empty_ray_count(r, f + 1, 0, 1);
    lemma_empty_ray_count(r, f - 1, 0, -1);
    assert forall|s: u64| s < 64 implies #[trigger] apart(up, down, right, left, s) by {
        if is_member(up, s) {
            lemma_ray_members(r + 1, f, 1, 0, 0, s);
        }
        if is_member(down, s) {
            lemma_ray_members(r - 1, f, -1, 0, 0, s);
        }
        if is_member(right, s) {
            lemma_ray_members(r, f + 1, 0, 1, 0, s);
        }
        if is_member(left, s) {
            lemma_ray_members(r, f - 1, 0, -1, 0, s);
        }
    }
    lemma_count_four(up, down, right, left);
}

/// On an empty board a bishop attacks every other square of the two
/// diagonals through its square: `14 - |r - f| - |r + f - 7|` squares
/// for rank `r` and file `f`.
pub proof fn lemma_bishop_empty_board(sq: int)
    requires
        0 <= sq < 64,
    ensures
        popcount(bishop_rays(sq, 0)) == 14 - abs(sq / 8 - sq % 8) - abs(sq / 8 + sq % 8 - 7),
{
    let r = sq / 8;
    let f = sq % 8;
    let ne = blocked_ray(r + 1, f + 1, 1, 1, 0);
    let se = blocked_ray(r - 1, f + 1, -1, 1, 0);
    let nw = blocked_ray(r + 1, f - 1, 1, -1, 0);
    let sw = blocked_ray(r - 1, f - 1, -1, -1, 0);
    lemma_empty_ray_count(r + 1, f + 1, 1, 1);
    lemma_empty_ray_count(r - 1, f + 1, -1, 1);
    lemma_empty_ray_count(r + 1, f - 1, 1, -1);
    lemma_empty_ray_count(r - 1, f - 1, -1, -1);
    assert forall|s: u64| s < 64 implies #[trigger] apart(ne, se, nw, sw, s) by {
        if is_member(ne, s) {
            lemma_ray_members(r + 1, f + 1, 1, 1, 0, s);
        }
        if is_member(se, s) {
            lemma_ray_members(r - 1, f + 1, -1, 1, 0, s);
        }
        if is_member(nw, s) {
            lemma_ray_members(r + 1, f - 1, 1, -1, 0, s);
        }
        if is_member(sw, s) {
            lemma_ray_members(r - 1, f - 1, -1, -1, 0, s);
        }
    }
    lemma_count_four(ne, se, nw, sw);
}

/// Absolute value.
pub open spec fn abs(x: int) -> int {
    if x < 0 {
        -x
    } else {
        x
    }
}

/// The board seen from the other side: rank `r` becomes rank `7 - r`.
pub open spec fn flip_vertical(x: u64) -> u64 {
    (x >> 56u64) | ((x >> 40u64) & 0xff00u64) | ((x >> 24u64) & 0xff0000u64) | ((x >> 8u64)
        & 0xff000000u64) | ((x << 8u64) & 0xff00000000u64) | ((x << 24u64) & 0xff0000000000u64) | ((
    x << 40u64) & 0xff000000000000u64) | (x << 56u64)
}

/// The board mirrored left to right: file `f` becomes file `7 - f`.
pub open spec fn flip_horizontal(x: u64) -> u64 {
    let a = ((x >> 1u64) & 0x5555555555555555u64) | ((x & 0x5555555555555555u64) << 1u64);
    let b = ((a >> 2u64) & 0x3333333333333333u64) | ((a & 0x3333333333333333u64) << 2u64);
    ((b >> 4u64) & 0x0f0f0f0f0f0f0f0fu64) | ((b & 0x0f0f0f0f0f0f0f0fu64) << 4u64)
}

proof fn lemma_flip_facts(x: u64, y: u64, s: u64)
    by (bit_vector)
    requires
        s < 64,
    ensures
        flip_vertical(x | y) == flip_vertical(x) | flip_vertical(y),
        flip_horizontal(x | y) == flip_horizontal(x) | flip_horizontal(y),
        flip_vertical(1u64 << s) == 1u64 << (s ^ 56u64),
        flip_horizontal(1u64 << s) == 1u64 << (s ^ 7u64),
        is_member(flip_vertical(x), s ^ 56u64) == is_member(x, s),
        is_member(flip_horizontal(x), s ^ 7u64) == is_member(x, s),
        flip_vertical(0) == 0,
        flip_horizontal(0) == 0,
{
}

proof fn lemma_square_flips(r: u64, f: u64)
    by (bit_vector)
    requires
        r < 8,
        f < 8,
    ensures
        ((r * 8 + f) as u64) ^ 56u64 == (7 - r) * 8 + f,
        ((r * 8 + f) as u64) ^ 7u64 == r * 8 + (7 - f),
{
}

proof fn lemma_ray_flip_vertical(r: int, f: int, dr: int, df: int, occ: u64)
    ensures
        flip_vertical(blocked_ray(r, f, dr, df, occ)) == blocked_ray(
            7 - r,
            f,
            -dr,
            df,
            flip_vertical(occ),
        ),
    decreases room(r, dr) + room(f, df),
{
    if on_board(r, f) && is_dir(dr, df) {
        let sq = square_at(r, f);
        let sq2 = square_at(7 - r, f);
        lemma_square_flips(r as u64, f as u64);
        assert(sq ^ 56u64 == sq2);
        let rest = blocked_ray(r + dr, f + df, dr, df, occ);
        let rest2 = blocked_ray(7 - r - dr, f + df, -dr, df, flip_vertical(occ));
        lemma_ray_flip_vertical(r + dr, f + df, dr, df, occ);
        assert(7 - (r + dr) == 7 - r + -dr);
        assert(flip_vertical(rest) == rest2);
        lemma_flip_facts(1u64 << sq, rest, sq);
        lemma_flip_facts(occ, 0, sq);
        assert(is_member(flip_vertical(occ), sq2) == is_member(occ, sq));
        if is_member(occ, sq) {
            assert(blocked_ray(r, f, dr, df, occ) == 1u64 << sq);
            assert(blocked_ray(7 - r, f, -dr, df, flip_vertical(occ)) == 1u64 << sq2);
        } else {
            assert(blocked_ray(r, f, dr, df, occ) == (1u64 << sq) | rest);
            assert(blocked_ray(7 - r, f, -dr, df, flip_vertical(occ)) == (1u64 << sq2) | rest2);
        }
    } else {
        lemma_flip_facts(0, 0, 0);
    }
}

proof fn lemma_ray_flip_horizontal(r: int, f: int, dr: int, df: int, occ: u64)
    ensures
        flip_horizontal(blocked_ray(r, f, dr, df, occ)) == blocked_ray(
            r,
            7 - f,
            dr,
            -df,
            flip_horizontal(occ),
        ),
    decreases room(r, dr) + room(f, df),
{
    if on_board(r, f) && is_dir(dr, df) {
        let sq = square_at(r, f);
        let sq2 = square_at(r, 7 - f);
        lemma_square_flips(r as u64, f as u64);
        assert(sq ^ 7u64 == sq2);
        let rest = blocked_ray(r + dr, f + df, dr, df, occ);
        let rest2 = blocked_ray(r + dr, 7 - f - df, dr, -df, flip_horizontal(occ));
        lemma_ray_flip_horizontal(r + dr, f + df, dr, df, occ);
        assert(7 - (f + df) == 7 - f + -df);
        assert(flip_horizontal(rest) == rest2);
        lemma_flip_facts(1u64 << sq, rest, sq);
        lemma_flip_facts(occ, 0, sq);
        assert(is_member(flip_horizontal(occ), sq2) == is_member(occ, sq));
        if is_member(occ, sq) {
            assert(blocked_ray(r, f, dr, df, occ) == 1u64 << sq);
            assert(blocked_ray(r, 7 - f, dr, -df, flip_horizontal(occ)) == 1u64 << sq2);
        } else {
            assert(blocked_ray(r, f, dr, df, occ) == (1u64 << sq) | rest);
            assert(blocked_ray(r, 7 - f, dr, -df, flip_horizontal(occ)) == (1u64 << sq2) | rest2);
        }
    } else {
        lemma_flip_facts(0, 0, 0);
    }
}

proof fn lemma_or_orders(a: u64, b: u64, c: u64, d: u64)
    by (bit_vector)
    ensures
        a | b | c | d == b | a | d | c,
        a | b | c | d == c | d | a | b,
        a | b | c | d == b | a | c | d,
        a | b | c | d == a | b | d | c,
{
}

proof fn lemma_flip_four(a: u64, b: u64, c: u64, d: u64)
    ensures
        flip_vertical(a | b | c | d) == flip_vertical(a) | flip_vertical(b) | flip_vertical(c)
            | flip_vertical(d),
        flip_horizontal(a | b | c | d) == flip_horizontal(a) | flip_horizontal(b)
            | flip_horizontal(c) | flip_horizontal(d),
        a | b | c | d == b | a | d | c,
        a | b | c | d == c | d | a | b,
        a | b | c | d == b | a | c | d,
        a | b | c | d == a | b | d | c,
{
    lemma_flip_facts(a | b | c, d, 0);
    lemma_flip_facts(a | b, c, 0);
    lemma_flip_facts(a, b, 0);
    lemma_or_orders(a, b, c, d);
}

proof fn lemma_mirror_coords(sq: u64)
    requires
        sq < 64,
    ensures
        (sq ^ 56u64) as int / 8 == 7 - sq as int / 8,
        (sq ^ 56u64) as int % 8 == sq as int % 8,
        (sq ^ 7u64) as int / 8 == sq as int / 8,
        (sq ^ 7u64) as int % 8 == 7 - sq as int % 8,
{
    assert(sq < 64 ==> (sq ^ 56u64) / 8 == 7 - sq / 8 && (sq ^ 56u64) % 8 == sq % 8 && (sq
        ^ 7u64) / 8 == sq / 8 && (sq ^ 7u64) % 8 == 7 - sq % 8) by (bit_vector);
}

proof fn lemma_bishop_flip_vertical(sq: u64, occ: u64)
    requires
        sq < 64,
    ensures
        flip_vertical(bishop_rays(sq as int, occ)) == bishop_rays(
            (sq ^ 56u64) as int,
            flip_vertical(occ),
        ),
{
    let r = sq as int / 8;
    let f = sq as int % 8;
    lemma_mirror_coords(sq);
    let (ne, se, nw, sw) = (
        blocked_ray(r + 1, f + 1, 1, 1, occ),
        blocked_ray(r - 1, f + 1, -1, 1, occ),
        blocked_ray(r + 1, f - 1, 1, -1, occ),
        blocked_ray(r - 1, f - 1, -1, -1, occ),
    );
    lemma_flip_four(ne, se, nw, sw);
    lemma_ray_flip_vertical(r + 1, f + 1, 1, 1, occ);
    lemma_ray_flip_vertical(r - 1, f + 1, -1, 1, occ);
    lemma_ray_flip_vertical(r + 1, f - 1, 1, -1, occ);
    lemma_ray_flip_vertical(r - 1, f - 1, -1, -1, occ);
    lemma_flip_four(flip_vertical(se), flip_vertical(ne), flip_vertical(sw), flip_vertical(nw));
}

proof fn lemma_bishop_flip_horizontal(sq: u64, occ: u64)
    requires
        sq < 64,
    ensures
        flip_horizontal(bishop_rays(sq as int, occ)) == bishop_rays(
            (sq ^ 7u64) as int,
            flip_horizontal(occ),
        ),
{
    let r = sq as int / 8;
    let f = sq as int % 8;
    lemma_mirror_coords(sq);
    let (ne, se, nw, sw) = (
        blocked_ray(r + 1, f + 1, 1, 1, occ),
        blocked_ray(r - 1, f + 1, -1, 1, occ),
        blocked_ray(r + 1, f - 1, 1, -1, occ),
        blocked_ray(r - 1, f - 1, -1, -1, occ),
    );
    lemma_flip_four(ne, se, nw, sw);
    lemma_ray_flip_horizontal(r + 1, f + 1, 1, 1, occ);
    lemma_ray_flip_horizontal(r - 1, f + 1, -1, 1, occ);
    lemma_ray_flip_horizontal(r + 1, f - 1, 1, -1, occ);
    lemma_ray_flip_horizontal(r - 1, f - 1, -1, -1, occ);
    lemma_flip_four(
        flip_horizontal(nw),
        flip_horizontal(sw),
        flip_horizontal(ne),
        flip_horizontal(se),
    );
}

proof fn lemma_rook_flip_vertical(sq: u64, occ: u64)
    requires
        sq < 64,
    ensures
        flip_vertical(rook_rays(sq as int, occ)) == rook_rays(
            (sq ^ 56u64) as int,
            flip_vertical(occ),
        ),
{
    let r = sq as int / 8;
    let f = sq as int % 8;
    lemma_mirror_coords(sq);
    let (up, down, right, left) = (
        blocked_ray(r + 1, f, 1, 0, occ),
        blocked_ray(r - 1, f, -1, 0, occ),
        blocked_ray(r, f + 1, 0, 1, occ),
        blocked_ray(r, f - 1, 0, -1, occ),
    );
    lemma_flip_four(up, down, right, left);
    lemma_ray_flip_vertical(r + 1, f, 1, 0, occ);
    lemma_ray_flip_vertical(r - 1, f, -1, 0, occ);
    lemma_ray_flip_vertical(r, f + 1, 0, 1, occ);
    lemma_ray_flip_vertical(r, f - 1, 0, -1, occ);
    lemma_flip_four(
        flip_vertical(up),
        flip_vertical(down),
        flip_vertical(right),
        flip_vertical(left),
    );
}

proof fn lemma_rook_flip_horizontal(sq: u64, occ: u64)
    requires
        sq < 64,
    ensures
        flip_horizontal(rook_rays(sq as int, occ)) == rook_rays(
            (sq ^ 7u64) as int,
            flip_horizontal(occ),
        ),
{
    let r = sq as int / 8;
    let f = sq as int % 8;
    lemma_mirror_coords(sq);
    let (up, down, right, left) = (
        blocked_ray(r + 1, f, 1, 0, occ),
        blocked_ray(r - 1, f, -1, 0, occ),
        blocked_ray(r, f + 1, 0, 1, occ),
        blocked_ray(r, f - 1, 0, -1, occ),
    );
    lemma_flip_four(up, down, right, left);
    lemma_ray_flip_horizontal(r + 1, f, 1, 0, occ);
    lemma_ray_flip_horizontal(r - 1, f, -1, 0, occ);
    lemma_ray_flip_horizontal(r, f + 1, 0, 1, occ);
    lemma_ray_flip_horizontal(r, f - 1, 0, -1, occ);
    lemma_flip_four(
        flip_horizontal(up),
        flip_horizontal(down),
        flip_horizontal(right),
        flip_horizontal(left),
    );
}

/// Slider attacks are symmetric under flipping the board top to bottom and
/// under mirroring it left to right: the mirror of the attack set is the
/// attack set from the mirrored square among the mirrored pieces.
pub proof fn lemma_slider_mirror(sq: u64, occ: u64, bishop: bool)
    requires
        sq < 64,
    ensures
        flip_vertical(slider_rays(sq as int, occ, bishop)) == slider_rays(
            (sq ^ 56u64) as int,
            flip_vertical(occ),
            bishop,
        ),
        flip_horizontal(slider_rays(sq as int, occ, bishop)) == slider_rays(
            (sq ^ 7u64) as int,
            flip_horizontal(occ),
            bishop,
        ),
{
    if bishop {
        lemma_bishop_flip_vertical(sq, occ);
        lemma_bishop_flip_horizontal(sq, occ);
    } else {
        lemma_rook_flip_vertical(sq, occ);
        lemma_rook_flip_horizontal(sq, occ);
    }
}

/// Membership facts of a single square and of the empty board.
proof fn lemma_single_member(rest: u64, sq: u64, s: u64)
    by (bit_vector)
    requires
        s < 64,
        sq < 64,
    ensures
        is_member((1u64 << sq) | rest, s) ==> is_member(1u64 << sq, s) || is_member(rest, s),
        is_member(1u64 << sq, s) ==> s == sq,
        !is_member(0u64, s),
{
}

proof fn lemma_mask_ray_members(r: int, f: int, dr: int, df: int, s: u64)
    requires
        s < 64,
        is_member(mask_ray(r, f, dr, df), s),
    ensures
        ahead(r, f, dr, df, s as int),
    decreases room(r, dr) + room(f, df),
{
    if on_board(r, f) && is_dir(dr, df) && inner(r, dr) && inner(f, df) {
        let sq = square_at(r, f);
        assert(sq < 64);
        let b = 1u64 << sq;
        let rest = mask_ray(r + dr, f + df, dr, df);
        lemma_single_member(rest, sq, s);
        if s == sq {
            assert(s as int / 8 == r && s as int % 8 == f);
        } else {
            lemma_mask_ray_members(r + dr, f + df, dr, df, s);
        }
    } else {
        lemma_single_member(0, 0, s);
    }
}

/// How many interior squares a coordinate can still pass in direction `d`
/// (8 when it does not move).
pub open spec fn inner_reach(c: int, d: int) -> int {
    if d > 0 {
        7 - c
    } else if d < 0 {
        c
    } else {
        8
    }
}

/// `x`, or 0 when it is negative.
pub open spec fn at_least_zero(x: int) -> int {
    if x < 0 {
        0
    } else {
        x
    }
}

proof fn lemma_mask_ray_count(r: int, f: int, dr: int, df: int)
    requires
        is_dir(dr, df),
        stepped(r, dr),
        stepped(f, df),
        -1 <= r <= 8,
        -1 <= f <= 8,
    ensures
        popcount(mask_ray(r, f, dr, df)) == at_least_zero(
            min(inner_reach(r, dr), inner_reach(f, df)),
        ),
    decreases room(r, dr) + room(f, df),
{
    if on_board(r, f) && inner(r, dr) && inner(f, df) {
        let sq = square_at(r, f);
        assert(sq < 64);
        let b = 1u64 << sq;
        let rest = mask_ray(r + dr, f + df, dr, df);
        lemma_mask_ray_count(r + dr, f + df, dr, df);
        assert forall|s: u64| 0 <= s < 64 implies !(#[trigger] is_member(b, s) && is_member(
            rest,
            s,
        )) by {
            if is_member(b, s) && is_member(rest, s) {
                lemma_single_member(rest, sq, s);
                lemma_mask_ray_members(r + dr, f + df, dr, df, s);
                assert(s as int / 8 == r && s as int % 8 == f);
            }
        }
        lemma_count_union(b, rest, 0);
        lemma_count_single(sq, 0);
    } else {
        lemma_count_zero(0);
    }
}

/// A bishop's relevant mask has as many squares as the table says.
pub proof fn lemma_bishop_mask_count(sq: int)
    requires
        0 <= sq < 64,
    ensures
        popcount(bishop_mask(sq)) == BISHOP_RELEVANT_BITS[sq],
{
    let r = sq / 8;
    let f = sq % 8;
    let ne = mask_ray(r + 1, f + 1, 1, 1);
    let se = mask_ray(r - 1, f + 1, -1, 1);
    let nw = mask_ray(r + 1, f - 1, 1, -1);
    let sw = mask_ray(r - 1, f - 1, -1, -1);
    lemma_mask_ray_count(r + 1, f + 1, 1, 1);
    lemma_mask_ray_count(r - 1, f + 1, -1, 1);
    lemma_mask_ray_count(r + 1, f - 1, 1, -1);
    lemma_mask_ray_count(r - 1, f - 1, -1, -1);
    assert forall|s: u64| s < 64 implies #[trigger] apart(ne, se, nw, sw, s) by {
        if is_member(ne, s) {
            lemma_mask_ray_members(r + 1, f + 1, 1, 1, s);
        }
        if is_member(se, s) {
            lemma_mask_ray_members(r - 1, f + 1, -1, 1, s);
        }
        if is_member(nw, s) {
            lemma_mask_ray_members(r + 1, f - 1, 1, -1, s);
        }
        if is_member(sw, s) {
            lemma_mask_ray_members(r - 1, f - 1, -1, -1, s);
        }
    }
    lemma_count_four(ne, se, nw, sw);
    assert(sq == r * 8 + f);
    lemma_table_entries(r, f);
}

/// A rook's relevant mask has as many squares as the table says.
pub proof fn lemma_rook_mask_count(sq: int)
    requires
        0 <= sq < 64,
    ensures
        popcount(rook_mask(sq)) == ROOK_RELEVANT_BITS[sq],
{
    let r = sq / 8;
    let f = sq % 8;
    let up = mask_ray(r + 1, f, 1, 0);
    let down = mask_ray(r - 1, f, -1, 0);
    let right = mask_ray(r, f + 1, 0, 1);
    let left = mask_ray(r, f - 1, 0, -1);
    lemma_mask_ray_count(r + 1, f, 1, 0);
    lemma_mask_ray_count(r - 1, f, -1, 0);
    lemma_mask_ray_count(r, f + 1, 0, 1);
    lemma_mask_ray_count(r, f - 1, 0, -1);
    assert forall|s: u64| s < 64 implies #[trigger] apart(up, down, right, left, s) by {
        if is_member(up, s) {
            lemma_mask_ray_members(r + 1, f, 1, 0, s);
        }
        if is_member(down, s) {
            lemma_mask_ray_members(r - 1, f, -1, 0, s);
        }
        if is_member(right, s) {
            lemma_mask_ray_members(r, f + 1, 0, 1, s);
        }
        if is_member(left, s) {
            lemma_mask_ray_members(r, f - 1, 0, -1, s);
        }
    }
    lemma_count_four(up, down, right, left);
    assert(sq == r * 8 + f);
    lemma_table_entries(r, f);
}

/// The relevant-bit tables as closed forms of rank and file.
proof fn lemma_table_entries(r: int, f: int)
    requires
        0 <= r < 8,
        0 <= f < 8,
    ensures
        BISHOP_RELEVANT_BITS[r * 8 + f] == at_least_zero(min(7 - (r + 1), 7 - (f + 1)))
            + at_least_zero(min(r - 1, 7 - (f + 1))) + at_least_zero(min(7 - (r + 1), f - 1))
            + at_least_zero(min(r - 1, f - 1)),
        ROOK_RELEVANT_BITS[r * 8 + f] == at_least_zero(7 - (r + 1)) + at_least_zero(r - 1)
            + at_least_zero(7 - (f + 1)) + at_least_zero(f - 1),
{
    assert(r == 0 || r == 1 || r == 2 || r == 3 || r == 4 || r == 5 || r == 6 || r == 7);
    assert(f == 0 || f == 1 || f == 2 || f == 3 || f == 4 || f == 5 || f == 6 || f == 7);
}

} // verus!
