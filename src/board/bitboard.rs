use vstd::prelude::*;
use vstd::std_specs::bits::u64_trailing_zeros;

verus! {

/// A set of squares: bit `i` stands for square `i = rank * 8 + file`.
pub type Bitboard = u64;

/// Whether square `sq` is a member of `bb`.
pub open spec fn is_member(bb: u64, sq: u64) -> bool {
    (bb >> sq) & 1u64 == 1u64
}

/// The number of members of `bb` among squares `p..64`.
pub open spec fn count_from(bb: u64, p: nat) -> nat
    decreases 64 - p,
{
    if p >= 64 {
        0
    } else {
        (if is_member(bb, p as u64) {
            1nat
        } else {
            0nat
        }) + count_from(bb, p + 1)
    }
}

/// The number of members of `bb`.
pub open spec fn popcount(bb: u64) -> nat {
    count_from(bb, 0)
}

/// Tests whether square `sq` is set.
pub fn get_bit(bb: Bitboard, sq: usize) -> (r: bool)
    requires
        sq < 64,
    ensures
        r == is_member(bb, sq as u64),
{
    let s = sq as u64;
    assert((bb & (1u64 << s) != 0) == ((bb >> s) & 1u64 == 1u64)) by (bit_vector)
        requires
            s < 64,
    ;
    bb & (1u64 << s) != 0
}

/// Adds square `sq`.
pub fn set_bit(bb: &mut Bitboard, sq: usize)
    requires
        sq < 64,
    ensures
        *final(bb) == *old(bb) | (1u64 << sq as u64),
        forall|s: u64| s < 64 ==> is_member(*final(bb), s) == (is_member(*old(bb), s) || s == sq as u64),
{
    let s = sq as u64;
    let ghost b0 = *bb;
    *bb = *bb | (1u64 << s);
    assert forall|t: u64| t < 64 implies is_member(b0 | (1u64 << s), t) == (is_member(b0, t) || t == s) by {
        assert(t < 64 && s < 64 ==> (((b0 | (1u64 << s)) >> t) & 1u64 == 1u64) == (((b0 >> t)
            & 1u64 == 1u64) || t == s)) by (bit_vector);
    }
}

/// Removes square `sq`.
pub fn clear_bit(bb: &mut Bitboard, sq: usize)
    requires
        sq < 64,
    ensures
        *final(bb) == *old(bb) & !(1u64 << sq as u64),
        forall|s: u64| s < 64 ==> is_member(*final(bb), s) == (is_member(*old(bb), s) && s != sq as u64),
{
    let s = sq as u64;
    let ghost b0 = *bb;
    *bb = *bb & !(1u64 << s);
    assert forall|t: u64| t < 64 implies is_member(b0 & !(1u64 << s), t) == (is_member(b0, t) && t != s) by {
        assert(t < 64 && s < 64 ==> (((b0 & !(1u64 << s)) >> t) & 1u64 == 1u64) == (((b0 >> t)
            & 1u64 == 1u64) && t != s)) by (bit_vector);
    }
}

/// Removes square `sq` if it is set (by toggling it off), and leaves the
/// board unchanged otherwise.
pub fn pop_bit(bb: &mut Bitboard, sq: usize)
    requires
        sq < 64,
    ensures
        *final(bb) == *old(bb) & !(1u64 << sq as u64),
{
    let s = sq as u64;
    let ghost b0 = *bb;
    if get_bit(*bb, sq) {
        *bb = *bb ^ (1u64 << s);
        assert(s < 64 && (b0 >> s) & 1u64 == 1u64 ==> b0 ^ (1u64 << s) == b0 & !(1u64 << s))
            by (bit_vector);
    } else {
        assert(s < 64 && (b0 >> s) & 1u64 != 1u64 ==> b0 == b0 & !(1u64 << s)) by (bit_vector);
    }
}

/// Number of set squares.
pub fn count_bits(bb: Bitboard) -> (r: u32)
    ensures
        r as nat == popcount(bb),
        r <= 64,
{
    let mut x: u64 = bb;
    let mut c: u32 = 0;
    let mut i: u32 = 0;
    assert(bb >> 0u64 == bb) by (bit_vector);
    while i < 64
        invariant
            i <= 64,
            c <= i,
            c as nat + count_from(bb, i as nat) == popcount(bb),
            x == bb >> (i as u64),
        decreases 64 - i,
    {
        let ghost iu = i as u64;
        assert(x == bb >> iu ==> (x & 1u64 == 1u64) == ((bb >> iu) & 1u64 == 1u64) && (x & 1u64)
            <= 1) by (bit_vector);
        c = c + (x & 1u64) as u32;
        let ghost xi = x;
        x = x >> 1u64;
        assert(xi == bb >> (i as u64) && i < 64 ==> xi >> 1u64 == bb >> ((i + 1) as u64))
            by (bit_vector);
        i = i + 1;
    }
    c
}

/// Index of the lowest set square; 64 for the empty board.
pub fn get_lsb(bb: Bitboard) -> (r: usize)
    ensures
        r == u64_trailing_zeros(bb),
        r <= 64,
        bb == 0 <==> r == 64,
        r < 64 ==> is_member(bb, r as u64),
        forall|s: u64| (s as int) < r ==> !(is_member(bb, s)),
{
    proof {
        vstd::std_specs::bits::axiom_u64_trailing_zeros(bb);
    }
    bb.trailing_zeros() as usize
}

/// Removes the lowest set square and returns its index.
pub fn pop_lsb(bb: &mut Bitboard) -> (r: usize)
    requires
        *old(bb) != 0,
    ensures
        r < 64,
        r == u64_trailing_zeros(*old(bb)),
        is_member(*old(bb), r as u64),
        forall|s: u64| (s as int) < r ==> !(is_member(*old(bb), s)),
        *final(bb) == *old(bb) & !(1u64 << r as u64),
{
    let sq = get_lsb(*bb);
    pop_bit(bb, sq);
    sq
}

/// Membership of each square, by index.
pub fn bitboard_to_array(bb: Bitboard) -> (r: [bool; 64])
    ensures
        forall|s: int| 0 <= s < 64 ==> r[s] == is_member(bb, s as u64),
{
    let mut array = [false; 64];
    let mut i: usize = 0;
    while i < 64
        invariant
            i <= 64,
            forall|s: int| 0 <= s < i ==> array[s] == is_member(bb, s as u64),
        decreases 64 - i,
    {
        array[i] = get_bit(bb, i);
        i = i + 1;
    }
    array
}

} // verus!
