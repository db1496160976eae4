use magic_bitboards::board::fen::FenError;
use magic_bitboards::board::Board;

const START: &str = "rnbqkbnr/pppppppp/8/8/8/8/PPPPPPPP/RNBQKBNR w KQkq - 0 1";

#[test]
fn new_board_is_empty() {
    let b = Board::new();
    assert_eq!(b.pieces, [0; 6]);
    assert_eq!(b.color, [0; 2]);
    assert_eq!(b.castling, 0);
    assert_eq!(b.en_passant, None);
    assert_eq!(b.half_move, 0);
    assert!(b.turn);
    assert_eq!(b.full_move, 1);
}

#[test]
fn add_remove_and_query_pieces() {
    let mut b = Board::new();
    b.add_piece(0, 4, 0);
    b.add_piece(0, 60, 1);
    b.add_piece(5, 12, 0);
    assert_eq!(b.get_pieces(0, 0), 1 << 4);
    assert_eq!(b.get_pieces(0, 1), 1 << 60);
    assert_eq!(b.get_pieces(5, 0), 1 << 12);
    assert_eq!(b.get_all_pieces(), (1 << 4) | (1 << 60) | (1 << 12));
    b.remove_piece(5, 12, 0);
    assert_eq!(b.get_pieces(5, 0), 0);
    assert_eq!(b.get_all_pieces(), (1 << 4) | (1 << 60));
}

#[test]
fn move_piece_keeps_its_colour() {
    let mut b = Board::new();
    b.add_piece(2, 0, 0);
    b.add_piece(2, 63, 1);
    b.move_piece(2, 0, 8);
    b.move_piece(2, 63, 55);
    assert_eq!(b.get_pieces(2, 0), 1 << 8);
    assert_eq!(b.get_pieces(2, 1), 1 << 55);
}

#[test]
fn reset_and_init() {
    let mut b = Board::new();
    b.parse_fen(None).unwrap();
    let before = b;
    b.init();
    assert_eq!(b, before);
    b.reset();
    assert_eq!(b, Board::new());
}

#[test]
fn parse_start_position() {
    let mut b = Board::new();
    assert!(b.parse_fen(Some(START)).is_ok());
    assert_eq!(b.color[0], 0x000000000000FFFF);
    assert_eq!(b.color[1], 0xFFFF000000000000);
    assert_eq!(b.pieces[5], 0x00FF00000000FF00);
    assert_eq!(b.pieces[0], 0x1000000000000010);
    assert_eq!(b.pieces[1], 0x0800000000000008);
    assert_eq!(b.pieces[2], 0x8100000000000081);
    assert_eq!(b.pieces[3], 0x2400000000000024);
    assert_eq!(b.pieces[4], 0x4200000000000042);
    assert_eq!(b.castling, 15);
    assert_eq!(b.en_passant, None);
    assert_eq!(b.half_move, 0);
    assert_eq!(b.full_move, 1);
    assert!(b.turn);
}

#[test]
fn parse_without_text_reads_start_position() {
    let mut a = Board::new();
    let mut b = Board::new();
    a.parse_fen(None).unwrap();
    b.parse_fen(Some(START)).unwrap();
    assert_eq!(a, b);
}

#[test]
fn parse_empty_board() {
    let mut b = Board::new();
    b.parse_fen(Some("8/8/8/8/8/8/8/8 w - - 0 1")).unwrap();
    assert_eq!(b.pieces, [0; 6]);
    assert_eq!(b.color, [0; 2]);
    assert!(b.turn);
    assert_eq!(b.castling, 0);
    assert_eq!(b.en_passant, None);
}

#[test]
fn parse_four_fields_and_en_dash() {
    let mut b = Board::new();
    b.parse_fen(Some("4k3/8/8/3pP3/8/8/8/4K3 b \u{2013} d6")).unwrap();
    assert!(!b.turn);
    assert_eq!(b.castling, 0);
    assert_eq!(b.en_passant, Some(43));
    assert_eq!(b.half_move, 0);
    assert_eq!(b.full_move, 1);
    assert_eq!(b.pieces[5], (1 << 35) | (1 << 36));
    assert_eq!(b.color[0], (1 << 36) | (1 << 4));
    assert_eq!(b.color[1], (1 << 35) | (1 << 60));
}

#[test]
fn parse_castling_subsets_and_clocks() {
    let mut b = Board::new();
    b.parse_fen(Some("r3k2r/8/8/8/8/8/8/R3K2R w Kq e3 12 40")).unwrap();
    assert_eq!(b.castling, 1 | 8);
    assert_eq!(b.en_passant, Some(20));
    assert_eq!(b.half_move, 12);
    assert_eq!(b.full_move, 40);
}

fn error_of(text: &str) -> FenError {
    let mut b = Board::new();
    b.parse_fen(Some(START)).unwrap();
    let before = b;
    let e = b.parse_fen(Some(text)).unwrap_err();
    assert_eq!(b, before);
    e
}

#[test]
fn parse_errors_name_the_field() {
    assert_eq!(error_of("8/8/8/8/8/8/8/8 w - -  0 1"), FenError::IncorrectLength);
    assert_eq!(error_of("8/8/8/8/8/8/8/8 w -"), FenError::IncorrectLength);
    assert_eq!(error_of("8/8/8/8/8/8/8/7 w - - 0 1"), FenError::InvalidPlacement);
    assert_eq!(error_of("8/8/8/8/8/8/8/9 w - - 0 1"), FenError::InvalidPlacement);
    assert_eq!(error_of("8/8/8/8/8/8/8 w - - 0 1"), FenError::InvalidPlacement);
    assert_eq!(error_of("8/8/8/8/8/8/8/8/8 w - - 0 1"), FenError::InvalidPlacement);
    assert_eq!(error_of("8/8/8/8/8/8/8/7x w - - 0 1"), FenError::InvalidPlacement);
    assert_eq!(error_of("8/8/8/8/8/8/8/8 x - - 0 1"), FenError::InvalidSideToMove);
    assert_eq!(error_of("8/8/8/8/8/8/8/8 w KK - 0 1"), FenError::InvalidCastling);
    assert_eq!(error_of("8/8/8/8/8/8/8/8 w KQkqK - 0 1"), FenError::InvalidCastling);
    assert_eq!(error_of("8/8/8/8/8/8/8/8 w Kx - 0 1"), FenError::InvalidCastling);
    assert_eq!(error_of("8/8/8/8/8/8/8/8 w - e4 0 1"), FenError::InvalidEnPassant);
    assert_eq!(error_of("8/8/8/8/8/8/8/8 w - i3 0 1"), FenError::InvalidEnPassant);
    assert_eq!(error_of("8/8/8/8/8/8/8/8 w - - 101 1"), FenError::InvalidHalfmoveClock);
    assert_eq!(error_of("8/8/8/8/8/8/8/8 w - - x 1"), FenError::InvalidHalfmoveClock);
    assert_eq!(error_of("8/8/8/8/8/8/8/8 w - - 0 0"), FenError::InvalidFullmoveNumber);
    assert_eq!(error_of("8/8/8/8/8/8/8/8 w - - 0 1000"), FenError::InvalidFullmoveNumber);
}

#[test]
fn error_messages_name_the_field() {
    assert_eq!(FenError::IncorrectLength.message(), "Error in FEN string: Must be 6 parts");
    assert_eq!(FenError::InvalidCastling.message(), "Error in FEN Part 3: Castling rights");
    assert_eq!(FenError::InvalidFullmoveNumber.message(), "Error in FEN Part 6: Full-move number");
}
