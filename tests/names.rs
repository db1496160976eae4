use magic_bitboards::defs::{Colors, Pieces, ALL_SQUARES};

#[test]
fn piece_names_and_letters() {
    assert_eq!(Pieces::KING.as_string(), "King");
    assert_eq!(Pieces::KNIGHT.as_string(), "Knight");
    assert_eq!(Pieces::NONE.as_string(), "_");
    assert_eq!(Pieces::QUEEN.as_char(), 'Q');
    assert_eq!(Pieces::KNIGHT.as_char(), 'N');
    assert_eq!(Pieces::NONE.as_char(), '_');
}

#[test]
fn colour_names() {
    assert_eq!(Colors::WHITE.as_string(), "White");
    assert_eq!(Colors::BLACK.as_string(), "Black");
}

#[test]
fn square_names_and_indices() {
    assert_eq!(ALL_SQUARES::A1.as_string(), "a1");
    assert_eq!(ALL_SQUARES::D4.as_string(), "d4");
    assert_eq!(ALL_SQUARES::H8.as_string(), "h8");
    assert_eq!(ALL_SQUARES::A1.index(), 0);
    assert_eq!(ALL_SQUARES::D4.index(), 27);
    assert_eq!(ALL_SQUARES::E5.index(), 36);
    assert_eq!(ALL_SQUARES::H8.index(), 63);
}
