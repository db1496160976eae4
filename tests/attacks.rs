use magic_bitboards::moves::{king_attacks, knight_attacks, pawn_attacks, AttackTable};
use magic_bitboards::sorcery::{
    bishop_attacks, calc_attacks, calc_attacks_with_blocks, mask_bishop_attacks,
    mask_rook_attacks, rook_attacks, set_occupancy, BISHOP_RELEVANT_BITS, ROOK_RELEVANT_BITS,
};
use magic_bitboards::board::bitboard::count_bits;

fn board_of(squares: &[usize]) -> u64 {
    let mut bb = 0u64;
    for &s in squares {
        bb |= 1u64 << s;
    }
    bb
}

fn flip_vertical(bb: u64) -> u64 {
    bb.swap_bytes()
}

fn flip_horizontal(bb: u64) -> u64 {
    let mut r = 0u64;
    for s in 0..64 {
        if bb >> s & 1 == 1 {
            r |= 1u64 << (s ^ 7);
        }
    }
    r
}

#[test]
fn pawn_attacks_go_forward_diagonally() {
    // white pawn on a2 attacks b3 only
    assert_eq!(pawn_attacks(0, 8), 1 << 17);
    // white pawn on e4 attacks d5 and f5
    assert_eq!(pawn_attacks(0, 28), board_of(&[35, 37]));
    // white pawn on h2 attacks g3 only
    assert_eq!(pawn_attacks(0, 15), 1 << 22);
    // black pawn on b7 attacks a6 and c6
    assert_eq!(pawn_attacks(1, 49), board_of(&[40, 42]));
    // black pawn on a7 attacks b6 only
    assert_eq!(pawn_attacks(1, 48), 1 << 41);
}

#[test]
fn pawn_attacks_of_both_colours_are_disjoint() {
    for sq in 0..64 {
        assert_eq!(pawn_attacks(0, sq) & pawn_attacks(1, sq), 0);
    }
}

#[test]
fn knight_attacks_from_corner_and_centre() {
    assert_eq!(knight_attacks(0), board_of(&[10, 17]));
    assert_eq!(knight_attacks(27), board_of(&[10, 12, 17, 21, 33, 37, 42, 44]));
    assert_eq!(knight_attacks(63), board_of(&[46, 53]));
}

#[test]
fn king_attacks_from_corner_and_centre() {
    assert_eq!(king_attacks(0), board_of(&[1, 8, 9]));
    assert_eq!(king_attacks(27), board_of(&[18, 19, 20, 26, 28, 34, 35, 36]));
    assert_eq!(king_attacks(63), board_of(&[54, 55, 62]));
}

#[test]
fn leaper_attacks_are_mirror_symmetric() {
    for sq in 0..64 {
        assert_eq!(knight_attacks(sq), flip_vertical(knight_attacks(sq ^ 56)));
        assert_eq!(knight_attacks(sq), flip_horizontal(knight_attacks(sq ^ 7)));
        assert_eq!(king_attacks(sq), flip_vertical(king_attacks(sq ^ 56)));
        assert_eq!(king_attacks(sq), flip_horizontal(king_attacks(sq ^ 7)));
    }
}

#[test]
fn relevant_masks_match_tabulated_counts() {
    for sq in 0..64 {
        let b = count_bits(mask_bishop_attacks(sq)) as i32;
        let r = count_bits(mask_rook_attacks(sq)) as i32;
        assert_eq!(b, BISHOP_RELEVANT_BITS[sq]);
        assert_eq!(r, ROOK_RELEVANT_BITS[sq]);
        assert!([5, 6, 7, 9].contains(&b));
        assert!([10, 11, 12].contains(&r));
    }
    assert_eq!(mask_rook_attacks(0), 0x000101010101017e);
    assert_eq!(mask_bishop_attacks(27), 0x0040221400142200);
}

#[test]
fn calc_attacks_traces_one_interior_ray() {
    let mut a = 0u64;
    calc_attacks(1, 0, 0, 0, &mut a);
    assert_eq!(a, board_of(&[8, 16, 24, 32, 40, 48]));
    let mut b = 1u64 << 63;
    calc_attacks(1, 1, 3, 3, &mut b);
    assert_eq!(b, board_of(&[36, 45, 54, 63]));
}

#[test]
fn calc_attacks_with_blocks_stops_at_blocker() {
    let mut a = 0u64;
    calc_attacks_with_blocks(0, 1, 0, 0, &mut a, 1 << 4);
    assert_eq!(a, board_of(&[1, 2, 3, 4]));
    let mut b = 0u64;
    calc_attacks_with_blocks(-1, -1, 3, 3, &mut b, 0);
    assert_eq!(b, board_of(&[18, 9, 0]));
}

#[test]
fn empty_board_rook_on_a1() {
    let a = rook_attacks(0, 0);
    assert_eq!(a, 0x01010101010101fe);
    assert_eq!(count_bits(a), 14);
}

#[test]
fn empty_board_rook_attacks_fourteen_squares() {
    for sq in 0..64 {
        assert_eq!(count_bits(rook_attacks(sq, 0)), 14);
    }
}

#[test]
fn empty_board_bishop_on_d4() {
    let a = bishop_attacks(27, 0);
    assert_eq!(a, 0x8041221400142241);
    assert_eq!(count_bits(a), 13);
}

#[test]
fn empty_board_bishop_counts_its_diagonals() {
    for sq in 0..64 {
        let (r, f) = ((sq / 8) as i32, (sq % 8) as i32);
        let mut n = 0;
        for t in 0..64 {
            let (tr, tf) = ((t / 8) as i32, (t % 8) as i32);
            if t != sq && (tr - r).abs() == (tf - f).abs() {
                n += 1;
            }
        }
        assert_eq!(count_bits(bishop_attacks(sq, 0)), n);
    }
}

#[test]
fn rook_on_e5_with_blockers() {
    // blockers on e2, e7, b5, g5: each blocked ray keeps its blocker
    let occ = board_of(&[12, 52, 33, 38]);
    let a = rook_attacks(36, occ);
    assert_eq!(a, board_of(&[28, 20, 12, 44, 52, 35, 34, 33, 37, 38]));
    assert_eq!(count_bits(a), 10);
    // more pieces behind the blockers change nothing
    let more = occ | board_of(&[4, 60, 32, 39]);
    assert_eq!(rook_attacks(36, more), a);
}

#[test]
fn bishop_on_d4_with_blockers() {
    let occ = board_of(&[34, 13, 54, 63, 9, 38, 12, 52]);
    let a = bishop_attacks(27, occ);
    assert_eq!(a, 0x0040201400142200);
}

#[test]
fn blocker_outside_attack_set_changes_nothing() {
    let occ = board_of(&[34, 13, 54, 63, 9, 38, 12, 52]);
    let a = bishop_attacks(27, occ);
    for t in 0..64 {
        if a >> t & 1 == 0 {
            assert_eq!(bishop_attacks(27, occ | (1u64 << t)), a);
        }
    }
}

#[test]
fn set_occupancy_selects_mask_members_in_order() {
    let mask = mask_rook_attacks(0);
    let k = count_bits(mask) as usize;
    assert_eq!(set_occupancy(0, k, mask), 0);
    assert_eq!(set_occupancy(1, k, mask), 1 << 1);
    assert_eq!(set_occupancy(0b11, k, mask), (1 << 1) | (1 << 2));
    assert_eq!(set_occupancy((1 << k) - 1, k, mask), mask);
    // each index of the range gives a different subset
    let mut seen = std::collections::HashSet::new();
    for i in 0..(1u64 << k) {
        let occ = set_occupancy(i, k, mask);
        assert_eq!(occ & !mask, 0);
        assert!(seen.insert(occ));
    }
}

#[test]
fn table_lookups_agree_with_ray_tracer() {
    let table = AttackTable::new().unwrap();
    let samples: [u64; 5] = [
        0,
        u64::MAX,
        0x8050004400003200,
        0x00FF00000000FF00,
        0x0123456789abcdef,
    ];
    for sq in 0..64 {
        for &occ in samples.iter() {
            assert_eq!(table.get_bishop_attacks(sq, occ), bishop_attacks(sq, occ));
            assert_eq!(table.get_rook_attacks(sq, occ), rook_attacks(sq, occ));
            assert_eq!(
                table.get_queen_attacks(sq, occ),
                bishop_attacks(sq, occ) | rook_attacks(sq, occ)
            );
        }
        assert_eq!(table.knights[sq], knight_attacks(sq));
        assert_eq!(table.kings[sq], king_attacks(sq));
        assert_eq!(table.pawns[0][sq], pawn_attacks(0, sq));
        assert_eq!(table.pawns[1][sq], pawn_attacks(1, sq));
    }
}

#[test]
fn table_lookup_bishop_d4_rook_e5() {
    let table = AttackTable::new().unwrap();
    let occ = board_of(&[34, 13, 54, 63, 9, 38, 12, 52]);
    assert_eq!(table.get_bishop_attacks(27, occ), 0x0040201400142200);
    assert_eq!(table.get_rook_attacks(36, occ), 0x0010106c10101000);
    assert_eq!(table.get_rook_attacks(0, 0), 0x01010101010101fe);
}

#[test]
fn table_lookups_on_every_blocker_subset() {
    let table = AttackTable::new().unwrap();
    for sq in [0usize, 27, 36, 63] {
        let mask = mask_rook_attacks(sq);
        let k = count_bits(mask) as usize;
        for i in 0..(1u64 << k) {
            let occ = set_occupancy(i, k, mask);
            assert_eq!(table.get_rook_attacks(sq, occ), rook_attacks(sq, occ));
        }
        let mask = mask_bishop_attacks(sq);
        let k = count_bits(mask) as usize;
        for i in 0..(1u64 << k) {
            let occ = set_occupancy(i, k, mask);
            assert_eq!(table.get_bishop_attacks(sq, occ), bishop_attacks(sq, occ));
        }
    }
}

#[test]
fn slider_attacks_are_mirror_symmetric() {
    let samples: [u64; 4] = [0, 0x8050004400003200, 0x0123456789abcdef, 0x00FF00000000FF00];
    for sq in 0..64 {
        for &occ in samples.iter() {
            assert_eq!(
                flip_vertical(bishop_attacks(sq, occ)),
                bishop_attacks(sq ^ 56, flip_vertical(occ))
            );
            assert_eq!(
                flip_horizontal(bishop_attacks(sq, occ)),
                bishop_attacks(sq ^ 7, flip_horizontal(occ))
            );
            assert_eq!(
                flip_vertical(rook_attacks(sq, occ)),
                rook_attacks(sq ^ 56, flip_vertical(occ))
            );
            assert_eq!(
                flip_horizontal(rook_attacks(sq, occ)),
                rook_attacks(sq ^ 7, flip_horizontal(occ))
            );
        }
    }
}

#[test]
fn leaper_lookups_read_the_table() {
    let table = AttackTable::new().unwrap();
    assert_eq!(table.get_pawn_attacks(0, 8), 1 << 17);
    assert_eq!(table.get_pawn_attacks(1, 49), board_of(&[40, 42]));
    assert_eq!(table.get_knight_attacks(0), board_of(&[10, 17]));
    assert_eq!(table.get_king_attacks(63), board_of(&[54, 55, 62]));
}
