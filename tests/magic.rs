use magic_bitboards::board::bitboard::count_bits;
use magic_bitboards::magics::{BISHOP_MAGICS, ROOK_MAGICS};
use magic_bitboards::moves::{AttackTable, TableError};
use magic_bitboards::sorcery::{
    bishop_attacks, mask_bishop_attacks, set_occupancy, Sorcerer, BISHOP_RELEVANT_BITS,
};

#[test]
fn generator_starts_from_fixed_seed() {
    let mut s = Sorcerer::new();
    assert_eq!(s.state, 1804289383);
    assert_eq!(s.get_random_u32_number(), 1741896308);
    assert_eq!(s.state, 1741896308);
}

#[test]
fn generator_stitches_four_slices() {
    let mut s = Sorcerer::new();
    assert_eq!(s.get_random_u64_number(), 0x41e0fc38fd7a3a74);
}

#[test]
fn magic_candidate_is_and_of_three_draws() {
    let mut a = Sorcerer::new();
    let x = a.get_random_u64_number();
    let y = a.get_random_u64_number();
    let z = a.get_random_u64_number();
    let mut b = Sorcerer::new();
    assert_eq!(b.generate_magic_num(), x & y & z);
    assert_eq!(a.state, b.state);
}

#[test]
fn found_bishop_magic_hashes_without_harmful_collisions() {
    let mut s = Sorcerer::new();
    let sq = 27;
    let m = s
        .find_magic_number(sq, BISHOP_RELEVANT_BITS[sq], true)
        .expect("a magic for d4");
    let mask = mask_bishop_attacks(sq);
    let k = count_bits(mask) as usize;
    let mut slots = vec![None; 1 << k];
    for i in 0..(1u64 << k) {
        let occ = set_occupancy(i, k, mask);
        let idx = (occ.wrapping_mul(m) >> (64 - k)) as usize;
        let att = bishop_attacks(sq, occ);
        match slots[idx] {
            None => slots[idx] = Some(att),
            Some(prev) => assert_eq!(prev, att),
        }
    }
}

#[test]
fn shipped_magics_have_no_harmful_collisions() {
    assert!(AttackTable::with_magics(BISHOP_MAGICS, ROOK_MAGICS).is_ok());
}

#[test]
fn bad_magic_is_reported() {
    let mut bishops = BISHOP_MAGICS;
    bishops[27] = 1;
    match AttackTable::with_magics(bishops, ROOK_MAGICS) {
        Err(e) => assert_eq!(e, TableError::Collision { sq: 27, bishop: true }),
        Ok(_) => panic!("a magic of 1 cannot separate the blocker sets of d4"),
    }
    let mut rooks = ROOK_MAGICS;
    rooks[0] = 0;
    match AttackTable::with_magics(BISHOP_MAGICS, rooks) {
        Err(e) => assert_eq!(e, TableError::Collision { sq: 0, bishop: false }),
        Ok(_) => panic!("a zero magic sends everything to one slot"),
    }
}

fn collision_free(sq: usize, m: u64) -> bool {
    let mask = mask_bishop_attacks(sq);
    let k = count_bits(mask) as usize;
    let mut slots = vec![None; 1 << k];
    for i in 0..(1u64 << k) {
        let occ = set_occupancy(i, k, mask);
        let idx = (occ.wrapping_mul(m) >> (64 - k)) as usize;
        let att = bishop_attacks(sq, occ);
        match slots[idx] {
            None => slots[idx] = Some(att),
            Some(prev) if prev != att => return false,
            Some(_) => {}
        }
    }
    true
}

#[test]
fn search_returns_first_accepted_candidate() {
    let sq = 19;
    let mut s = Sorcerer::new();
    let found = s.find_magic_number(sq, BISHOP_RELEVANT_BITS[sq], true).unwrap();
    let mask = mask_bishop_attacks(sq);
    let mut replay = Sorcerer::new();
    loop {
        let m = replay.generate_magic_num();
        if count_bits(mask.wrapping_mul(m) & 0xFF00000000000000) >= 6 && collision_free(sq, m) {
            assert_eq!(m, found);
            break;
        }
    }
    assert_eq!(replay.state, s.state);
}
