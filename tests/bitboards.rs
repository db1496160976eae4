use magic_bitboards::board::bitboard::{
    bitboard_to_array, clear_bit, count_bits, get_bit, get_lsb, pop_bit, pop_lsb, set_bit,
};
use magic_bitboards::board::defs::{Colors, Pieces, Squares, EMPTY};
use magic_bitboards::defs::{init_bb_squares, Castling, NrOf};

#[test]
fn get_bit_reads_single_squares() {
    let bb: u64 = (1 << 0) | (1 << 63) | (1 << 27);
    assert!(get_bit(bb, 0));
    assert!(get_bit(bb, 63));
    assert!(get_bit(bb, 27));
    assert!(!get_bit(bb, 1));
    assert!(!get_bit(bb, 62));
}

#[test]
fn set_and_clear_bit() {
    let mut bb: u64 = EMPTY;
    set_bit(&mut bb, 5);
    set_bit(&mut bb, 60);
    assert_eq!(bb, (1 << 5) | (1 << 60));
    set_bit(&mut bb, 5);
    assert_eq!(bb, (1 << 5) | (1 << 60));
    clear_bit(&mut bb, 5);
    assert_eq!(bb, 1 << 60);
    clear_bit(&mut bb, 5);
    assert_eq!(bb, 1 << 60);
}

#[test]
fn pop_bit_only_removes_a_set_square() {
    let mut bb: u64 = 0b1010;
    pop_bit(&mut bb, 1);
    assert_eq!(bb, 0b1000);
    pop_bit(&mut bb, 1);
    assert_eq!(bb, 0b1000);
    pop_bit(&mut bb, 3);
    assert_eq!(bb, 0);
}

#[test]
fn count_bits_counts_members() {
    assert_eq!(count_bits(0), 0);
    assert_eq!(count_bits(u64::MAX), 64);
    assert_eq!(count_bits(0x00FF00000000FF00), 16);
    assert_eq!(count_bits(1 << 63), 1);
}

#[test]
fn get_lsb_finds_lowest_member() {
    assert_eq!(get_lsb(1), 0);
    assert_eq!(get_lsb(0b1011000), 3);
    assert_eq!(get_lsb(1 << 63), 63);
    assert_eq!(get_lsb(0), 64);
}

#[test]
fn bitboard_to_array_lists_membership() {
    let a = bitboard_to_array(0x8000000000000101);
    for i in 0..64 {
        assert_eq!(a[i], i == 0 || i == 8 || i == 63);
    }
}

#[test]
fn single_square_boards() {
    let squares = init_bb_squares();
    for i in 0..64 {
        assert_eq!(squares[i], 1u64 << i);
    }
}

#[test]
fn index_constants() {
    assert_eq!(Pieces::KING, 0);
    assert_eq!(Pieces::PAWN, 5);
    assert_eq!(Pieces::NONE, 6);
    assert_eq!(Colors::WHITE, 0);
    assert_eq!(Colors::BLACK, 1);
    assert_eq!(Squares::E1, 4);
    assert_eq!(Squares::H8, 63);
    assert_eq!(Squares::A3, 16);
    assert_eq!(Squares::H6, 47);
    assert_eq!(Castling::ALL, Castling::WK | Castling::WQ | Castling::BK | Castling::BQ);
    assert_eq!(NrOf::SQUARES, 64);
    assert_eq!(NrOf::PIECE_TYPES, 6);
}

#[test]
fn pop_lsb_takes_squares_lowest_first() {
    let mut bb: u64 = (1 << 3) | (1 << 40) | (1 << 63);
    assert_eq!(pop_lsb(&mut bb), 3);
    assert_eq!(pop_lsb(&mut bb), 40);
    assert_eq!(pop_lsb(&mut bb), 63);
    assert_eq!(bb, 0);
}
