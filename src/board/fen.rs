use vstd::prelude::*;
use vstd::string::StrSliceExecFns;

use crate::board::bitboard::is_member;
use crate::board::{kinds_on, lemma_toggle_square, square_ok, Board};
use crate::defs::{Castling, FEN_START_POSITION, MAX_MOVES};

verus! {

/// Which part of a position description is malformed.
#[derive(Debug, Clone, Copy, PartialEq, Eq, Structural)]
pub enum FenError {
    /// Not six space-separated fields (nor four, which get "0 1" added).
    IncorrectLength,
    /// Piece placement.
    InvalidPlacement,
    /// Side to move.
    InvalidSideToMove,
    /// Castling rights.
    InvalidCastling,
    /// En-passant target.
    InvalidEnPassant,
    /// Half-move clock.
    InvalidHalfmoveClock,
    /// Full-move number.
    InvalidFullmoveNumber,
}

impl FenError {
    /// A sentence naming the malformed part.
    pub fn message(&self) -> (r: &'static str)
        ensures
            r@ == match self {
                FenError::IncorrectLength => "Error in FEN string: Must be 6 parts"@,
                FenError::InvalidPlacement => "Error in FEN Part 1: Pieces or squares"@,
                FenError::InvalidSideToMove => "Error in FEN Part 2: Colors"@,
                FenError::InvalidCastling => "Error in FEN Part 3: Castling rights"@,
                FenError::InvalidEnPassant => "Error in FEN Part 4: En passant field"@,
                FenError::InvalidHalfmoveClock => "Error in FEN Part 5: Half-move clock"@,
                FenError::InvalidFullmoveNumber => "Error in FEN Part 6: Full-move number"@,
            },
    {
        match self {
            FenError::IncorrectLength => "Error in FEN string: Must be 6 parts",
            FenError::InvalidPlacement => "Error in FEN Part 1: Pieces or squares",
            FenError::InvalidSideToMove => "Error in FEN Part 2: Colors",
            FenError::InvalidCastling => "Error in FEN Part 3: Castling rights",
            FenError::InvalidEnPassant => "Error in FEN Part 4: En passant field",
            FenError::InvalidHalfmoveClock => "Error in FEN Part 5: Half-move clock",
            FenError::InvalidFullmoveNumber => "Error in FEN Part 6: Full-move number",
        }
    }
}

/// The dash that some sources write in place of `-`.
pub const EN_DASH: char = '\u{2013}';

/// `s` with every en dash turned into `-`.
pub open spec fn normalized(s: Seq<char>) -> Seq<char> {
    s.map_values(
        |c: char|
            if c == EN_DASH {
                '-'
            } else {
                c
            },
    )
}

/// `s` cut at every space, as `str::split(' ')` cuts it (empty fields
/// included).
pub open spec fn split_fields(s: Seq<char>) -> Seq<Seq<char>>
    decreases s.len(),
{
    if s.len() == 0 {
        seq![Seq::empty()]
    } else {
        let init = split_fields(s.drop_last());
        if s.last() == ' ' {
            init.push(Seq::empty())
        } else {
            init.update(init.len() - 1, init.last().push(s.last()))
        }
    }
}

/// The fields of a description: four fields get a half-move clock of 0
/// and a full-move number of 1.
pub open spec fn fen_fields(s: Seq<char>) -> Seq<Seq<char>> {
    let f = split_fields(normalized(s));
    if f.len() == 4 {
        f.push(seq!['0']).push(seq!['1'])
    } else {
        f
    }
}

/// Kind and colour of a piece letter: `KQRBNP` white, `kqrbnp` black, kinds
/// in the order king, queen, rook, bishop, knight, pawn.
pub open spec fn piece_letter(c: char) -> Option<(int, int)> {
    if c == 'K' {
        Some((0, 0))
    } else if c == 'Q' {
        Some((1, 0))
    } else if c == 'R' {
        Some((2, 0))
    } else if c == 'B' {
        Some((3, 0))
    } else if c == 'N' {
        Some((4, 0))
    } else if c == 'P' {
        Some((5, 0))
    } else if c == 'k' {
        Some((0, 1))
    } else if c == 'q' {
        Some((1, 1))
    } else if c == 'r' {
        Some((2, 1))
    } else if c == 'b' {
        Some((3, 1))
    } else if c == 'n' {
        Some((4, 1))
    } else if c == 'p' {
        Some((5, 1))
    } else {
        None
    }
}

/// Value of a decimal digit character, `None` for anything else.
pub open spec fn digit(c: char) -> Option<int> {
    if c == '0' {
        Some(0)
    } else if c == '1' {
        Some(1)
    } else if c == '2' {
        Some(2)
    } else if c == '3' {
        Some(3)
    } else if c == '4' {
        Some(4)
    } else if c == '5' {
        Some(5)
    } else if c == '6' {
        Some(6)
    } else if c == '7' {
        Some(7)
    } else if c == '8' {
        Some(8)
    } else if c == '9' {
        Some(9)
    } else {
        None
    }
}

/// Reading state of the placement field: rank, file, piece sets by kind,
/// piece sets by colour.
pub type Placing = (int, int, Seq<u64>, Seq<u64>);

/// One character of the placement field read in state `st`: a piece letter
/// fills the next square of the rank, a digit `1`..`8` skips that many
/// squares, `/` moves to the next rank down once the rank has all 8 files.
pub open spec fn place_step(st: Placing, c: char) -> Option<Placing> {
    let (rank, file, pieces, colors) = st;
    if piece_letter(c) is Some {
        let (kind, color) = piece_letter(c)->Some_0;
        if file < 8 {
            let b = 1u64 << ((rank * 8 + file) as u64);
            Some(
                (
                    rank,
                    file + 1,
                    pieces.update(kind, pieces[kind] | b),
                    colors.update(color, colors[color] | b),
                ),
            )
        } else {
            None
        }
    } else if digit(c) is Some && 1 <= digit(c)->Some_0 <= 8 {
        if file + digit(c)->Some_0 <= 8 {
            Some((rank, file + digit(c)->Some_0, pieces, colors))
        } else {
            None
        }
    } else if c == '/' {
        if file == 8 && rank > 0 {
            Some((rank - 1, 0, pieces, colors))
        } else {
            None
        }
    } else {
        None
    }
}

/// State after reading `f` from the top-left corner of an empty board.
pub open spec fn place_fold(f: Seq<char>) -> Option<Placing>
    decreases f.len(),
{
    if f.len() == 0 {
        Some((7, 0, seq![0u64, 0u64, 0u64, 0u64, 0u64, 0u64], seq![0u64, 0u64]))
    } else {
        match place_fold(f.drop_last()) {
            Some(st) => place_step(st, f.last()),
            None => None,
        }
    }
}

/// Squares the placement field has not reached yet, with the cursor on
/// (rank, file): lower ranks, and the rest of the current rank.
pub open spec fn not_reached(rank: int, file: int, s: u64) -> bool {
    s as int / 8 < rank || (s as int / 8 == rank && s as int % 8 >= file)
}

/// What holds of every state of the placement reading: the cursor is on
/// the board or just past the end of a rank, every square holds at most one
/// piece with one colour, and squares not reached yet are empty.
pub open spec fn placing_ok(st: Placing) -> bool {
    let (rank, file, pieces, colors) = st;
    &&& 0 <= rank <= 7
    &&& 0 <= file <= 8
    &&& pieces.len() == 6
    &&& colors.len() == 2
    &&& forall|s: u64|
        s < 64 ==> #[trigger] square_ok(pieces, colors, s) && (not_reached(rank, file, s)
            ==> kinds_on(pieces, s) == 0)
}

proof fn lemma_place_step_ok(st: Placing, c: char)
    requires
        placing_ok(st),
        place_step(st, c) is Some,
    ensures
        placing_ok(place_step(st, c)->Some_0),
{
    let (rank, file, pieces, colors) = st;
    let next = place_step(st, c)->Some_0;
    let (rank2, file2, pieces2, colors2) = next;
    if piece_letter(c) is Some {
        let (kind, color) = piece_letter(c)->Some_0;
        let q = (rank * 8 + file) as u64;
        assert(q < 64);
        assert forall|s: u64| s < 64 implies #[trigger] square_ok(pieces2, colors2, s) && (
        not_reached(rank2, file2, s) ==> kinds_on(pieces2, s) == 0) by {
            assert(square_ok(pieces, colors, s));
            lemma_toggle_square(pieces[kind], q, s);
            lemma_toggle_square(colors[color], q, s);
            if s == q {
                assert(s as int / 8 == rank && s as int % 8 == file);
                assert(kinds_on(pieces, s) == 0);
            } else {
                assert(is_member(pieces2[kind], s) == is_member(pieces[kind], s));
                assert(is_member(colors2[color], s) == is_member(colors[color], s));
                assert(kinds_on(pieces2, s) == kinds_on(pieces, s));
                if not_reached(rank2, file2, s) {
                    assert(not_reached(rank, file, s));
                }
            }
        }
    } else if digit(c) is Some && 1 <= digit(c)->Some_0 <= 8 {
        assert forall|s: u64| s < 64 implies #[trigger] square_ok(pieces2, colors2, s) && (
        not_reached(rank2, file2, s) ==> kinds_on(pieces2, s) == 0) by {
            assert(square_ok(pieces, colors, s));
        }
    } else {
        assert forall|s: u64| s < 64 implies #[trigger] square_ok(pieces2, colors2, s) && (
        not_reached(rank2, file2, s) ==> kinds_on(pieces2, s) == 0) by {
            assert(square_ok(pieces, colors, s));
        }
    }
}

proof fn lemma_place_fold_ok(f: Seq<char>)
    requires
        place_fold(f) is Some,
    ensures
        placing_ok(place_fold(f)->Some_0),
    decreases f.len(),
{
    if f.len() == 0 {
        let z = seq![0u64, 0u64, 0u64, 0u64, 0u64, 0u64];
        let zc = seq![0u64, 0u64];
        assert forall|s: u64| s < 64 implies #[trigger] square_ok(z, zc, s) && (not_reached(7, 0, s)
            ==> kinds_on(z, s) == 0) by {
            assert((0u64 >> s) & 1u64 == 0u64) by (bit_vector);
            assert(z[0] == 0 && z[1] == 0 && z[2] == 0 && z[3] == 0 && z[4] == 0 && z[5] == 0);
            assert(zc[0] == 0 && zc[1] == 0);
            assert(kinds_on(z, s) == 0);
        }
        assert(place_fold(f) == Some::<Placing>((7, 0, z, zc)));
        assert(placing_ok((7, 0, z, zc)));
    } else {
        lemma_place_fold_ok(f.drop_last());
        lemma_place_step_ok(place_fold(f.drop_last())->Some_0, f.last());
    }
}

/// Every placement field that reads cleanly describes a consistent set of
/// pieces: one piece at most per square, each with one colour.
pub proof fn lemma_placement_consistent(f: Seq<char>, s: u64)
    requires
        placement(f) is Some,
        s < 64,
    ensures
        square_ok(placement(f)->Some_0.0, placement(f)->Some_0.1, s),
{
    lemma_place_fold_ok(f);
}

/// Piece sets by kind and by colour that a placement field describes:
/// eight ranks of exactly eight files each.
pub open spec fn placement(f: Seq<char>) -> Option<(Seq<u64>, Seq<u64>)> {
    match place_fold(f) {
        Some((rank, file, pieces, colors)) => if rank == 0 && file == 8 {
            Some((pieces, colors))
        } else {
            None
        },
        None => None,
    }
}

/// Side to move: `w` (white, `true`) or `b`.
pub open spec fn side_field(f: Seq<char>) -> Option<bool> {
    if f == seq!['w'] {
        Some(true)
    } else if f == seq!['b'] {
        Some(false)
    } else {
        None
    }
}

/// Castling flag of a letter of `KQkq`, 0 for anything else.
pub open spec fn castle_flag(c: char) -> u8 {
    if c == 'K' {
        Castling::WK
    } else if c == 'Q' {
        Castling::WQ
    } else if c == 'k' {
        Castling::BK
    } else if c == 'q' {
        Castling::BQ
    } else {
        0
    }
}

/// Union of the flags of the letters of `f`.
pub open spec fn castle_bits(f: Seq<char>) -> u8
    decreases f.len(),
{
    if f.len() == 0 {
        0
    } else {
        castle_bits(f.drop_last()) | castle_flag(f.last())
    }
}

/// Castling rights: `-`, or one to four distinct letters of `KQkq`.
pub open spec fn castling_field(f: Seq<char>) -> Option<u8> {
    if f == seq!['-'] {
        Some(0)
    } else if 1 <= f.len() <= 4 && (forall|i: int| 0 <= i < f.len() ==> castle_flag(#[trigger] f[i])
        != 0) && (forall|i: int, j: int| 0 <= i < j < f.len() ==> f[i] != f[j]) {
        Some(castle_bits(f))
    } else {
        None
    }
}

/// File index of a file letter `a`..`h`.
pub open spec fn file_of_letter(c: char) -> Option<int> {
    if c == 'a' {
        Some(0)
    } else if c == 'b' {
        Some(1)
    } else if c == 'c' {
        Some(2)
    } else if c == 'd' {
        Some(3)
    } else if c == 'e' {
        Some(4)
    } else if c == 'f' {
        Some(5)
    } else if c == 'g' {
        Some(6)
    } else if c == 'h' {
        Some(7)
    } else {
        None
    }
}

/// En-passant target: `-` (none), or a square of rank 3 or rank 6.
pub open spec fn en_passant_field(f: Seq<char>) -> Option<Option<u8>> {
    if f == seq!['-'] {
        Some(None)
    } else if f.len() == 2 && file_of_letter(f[0]) is Some && (f[1] == '3' || f[1] == '6') {
        let rank: int = if f[1] == '3' {
            2
        } else {
            5
        };
        Some(Some((rank * 8 + file_of_letter(f[0])->Some_0) as u8))
    } else {
        None
    }
}

/// Whether every character of `f` is a decimal digit.
pub open spec fn all_digits(f: Seq<char>) -> bool {
    forall|i: int| 0 <= i < f.len() ==> #[trigger] digit(f[i]) is Some
}

/// Decimal value of a string of digits.
pub open spec fn digits_value(f: Seq<char>) -> int
    decreases f.len(),
{
    if f.len() == 0 {
        0
    } else {
        digits_value(f.drop_last()) * 10 + digit(f.last())->Some_0
    }
}

/// A clock: one to three digits, of value between `min` and `MAX_MOVES`.
pub open spec fn clock_field(f: Seq<char>, min: int) -> Option<u8> {
    if 1 <= f.len() <= 3 && all_digits(f) && min <= digits_value(f) <= MAX_MOVES {
        Some(digits_value(f) as u8)
    } else {
        None
    }
}

/// What a description holds: piece sets by kind and by colour, side to
/// move, castling rights, en-passant target, half-move clock, full-move
/// number.
pub type FenFields = (Seq<u64>, Seq<u64>, bool, u8, Option<u8>, u8, u8);

/// The meaning of a position description, or the first malformed part.
pub open spec fn fen_meaning(s: Seq<char>) -> Result<FenFields, FenError> {
    let f = fen_fields(s);
    if f.len() != 6 {
        Err(FenError::IncorrectLength)
    } else if placement(f[0]) is None {
        Err(FenError::InvalidPlacement)
    } else if side_field(f[1]) is None {
        Err(FenError::InvalidSideToMove)
    } else if castling_field(f[2]) is None {
        Err(FenError::InvalidCastling)
    } else if en_passant_field(f[3]) is None {
        Err(FenError::InvalidEnPassant)
    } else if clock_field(f[4], 0) is None {
        Err(FenError::InvalidHalfmoveClock)
    } else if clock_field(f[5], 1) is None {
        Err(FenError::InvalidFullmoveNumber)
    } else {
        let (pieces, colors) = placement(f[0])->Some_0;
        Ok(
            (
                pieces,
                colors,
                side_field(f[1])->Some_0,
                castling_field(f[2])->Some_0,
                en_passant_field(f[3])->Some_0,
                clock_field(f[4], 0)->Some_0,
                clock_field(f[5], 1)->Some_0,
            ),
        )
    }
}

/// Side to move of a field.
fn color(part: &Vec<char>) -> (r: Result<bool, FenError>)
    ensures
        match side_field(part@) {
            Some(t) => r == Ok::<bool, FenError>(t),
            None => r == Err::<bool, FenError>(FenError::InvalidSideToMove),
        },
{
    if part.len() == 1 {
        if part[0] == 'w' {
            assert(part@ =~= seq!['w']);
            return Ok(true);
        } else if part[0] == 'b' {
            assert(part@ =~= seq!['b']);
            return Ok(false);
        }
    }
    assert(part@ != seq!['w'] && part@ != seq!['b']) by {
        if part@.len() == 1 {
            assert(part@[0] == part[0]);
        }
    }
    Err(FenError::InvalidSideToMove)
}

fn castle_flag_of(c: char) -> (r: u8)
    ensures
        r == castle_flag(c),
{
    if c == 'K' {
        Castling::WK
    } else if c == 'Q' {
        Castling::WQ
    } else if c == 'k' {
        Castling::BK
    } else if c == 'q' {
        Castling::BQ
    } else {
        0
    }
}

/// Castling rights of a field.
fn castling(part: &Vec<char>) -> (r: Result<u8, FenError>)
    ensures
        match castling_field(part@) {
            Some(v) => r == Ok::<u8, FenError>(v),
            None => r == Err::<u8, FenError>(FenError::InvalidCastling),
        },
{
    if part.len() == 1 && part[0] == '-' {
        assert(part@ =~= seq!['-']);
        return Ok(0);
    }
    assert(part@ != seq!['-']) by {
        if part@.len() == 1 {
            assert(part@[0] == part[0]);
        }
    }
    if part.len() < 1 || part.len() > 4 {
        return Err(FenError::InvalidCastling);
    }
    let mut bits: u8 = 0;
    let mut i: usize = 0;
    while i < part.len()
        invariant
            1 <= part.len() <= 4,
            part@ != seq!['-'],
            i <= part.len(),
            bits == castle_bits(part@.take(i as int)),
            forall|k: int| 0 <= k < i ==> castle_flag(#[trigger] part@[k]) != 0,
            forall|k: int, l: int| 0 <= k < l < i ==> part@[k] != part@[l],
        decreases part.len() - i,
    {
        let c = part[i];
        let flag = castle_flag_of(c);
        if flag == 0 {
            return Err(FenError::InvalidCastling);
        }
        let mut j: usize = 0;
        while j < i
            invariant
                i < part.len(),
                j <= i,
                c == part@[i as int],
                forall|k: int| 0 <= k < j ==> part@[k] != c,
            decreases i - j,
        {
            if part[j] == c {
                return Err(FenError::InvalidCastling);
            }
            j = j + 1;
        }
        assert(part@.take(i + 1).drop_last() =~= part@.take(i as int));
        bits = bits | flag;
        i = i + 1;
    }
    assert(part@.take(part.len() as int) =~= part@);
    Ok(bits)
}

fn file_of(c: char) -> (r: Option<u8>)
    ensures
        match file_of_letter(c) {
            Some(f) => r == Some(f as u8),
            None => r is None,
        },
{
    if c == 'a' {
        Some(0)
    } else if c == 'b' {
        Some(1)
    } else if c == 'c' {
        Some(2)
    } else if c == 'd' {
        Some(3)
    } else if c == 'e' {
        Some(4)
    } else if c == 'f' {
        Some(5)
    } else if c == 'g' {
        Some(6)
    } else if c == 'h' {
        Some(7)
    } else {
        None
    }
}

/// En-passant target of a field.
fn en_passant(part: &Vec<char>) -> (r: Result<Option<u8>, FenError>)
    ensures
        match en_passant_field(part@) {
            Some(v) => r == Ok::<Option<u8>, FenError>(v),
            None => r == Err::<Option<u8>, FenError>(FenError::InvalidEnPassant),
        },
{
    if part.len() == 1 && part[0] == '-' {
        assert(part@ =~= seq!['-']);
        return Ok(None);
    }
    assert(part@ != seq!['-']) by {
        if part@.len() == 1 {
            assert(part@[0] == part[0]);
        }
    }
    if part.len() == 2 {
        if let Some(file) = file_of(part[0]) {
            if part[1] == '3' {
                return Ok(Some(16 + file));
            } else if part[1] == '6' {
                return Ok(Some(40 + file));
            }
        }
    }
    Err(FenError::InvalidEnPassant)
}

fn digit_of(c: char) -> (r: Option<u8>)
    ensures
        match digit(c) {
            Some(d) => r == Some(d as u8),
            None => r is None,
        },
{
    if c == '0' {
        Some(0)
    } else if c == '1' {
        Some(1)
    } else if c == '2' {
        Some(2)
    } else if c == '3' {
        Some(3)
    } else if c == '4' {
        Some(4)
    } else if c == '5' {
        Some(5)
    } else if c == '6' {
        Some(6)
    } else if c == '7' {
        Some(7)
    } else if c == '8' {
        Some(8)
    } else if c == '9' {
        Some(9)
    } else {
        None
    }
}

/// A clock of one to three digits, between `min` and `MAX_MOVES`.
fn read_clock(part: &Vec<char>, min: u8) -> (r: Option<u8>)
    ensures
        r == clock_field(part@, min as int),
{
    if part.len() < 1 || part.len() > 3 {
        return None;
    }
    let mut value: u32 = 0;
    let mut i: usize = 0;
    while i < part.len()
        invariant
            1 <= part.len() <= 3,
            i <= part.len(),
            value == digits_value(part@.take(i as int)),
            i == 0 ==> value == 0,
            i == 1 ==> value < 10,
            i == 2 ==> value < 100,
            value < 1000,
            all_digits(part@.take(i as int)),
        decreases part.len() - i,
    {
        match digit_of(part[i]) {
            Some(d) => {
                assert(part@.take(i + 1).drop_last() =~= part@.take(i as int));
                assert(all_digits(part@.take(i + 1))) by {
                    assert forall|k: int| 0 <= k < i + 1 implies #[trigger] digit(
                        part@.take(i + 1)[k],
                    ) is Some by {
                        if k < i {
                            assert(part@.take(i + 1)[k] == part@.take(i as int)[k]);
                        }
                    }
                }
                value = value * 10 + d as u32;
            },
            None => {
                assert(!all_digits(part@)) by {
                    assert(digit(part@[i as int]) is None);
                }
                return None;
            },
        }
        i = i + 1;
    }
    assert(part@.take(part.len() as int) =~= part@);
    if value < min as u32 || value > MAX_MOVES as u32 {
        return None;
    }
    Some(value as u8)
}

/// Half-move clock of a field.
fn half_move_clock(part: &Vec<char>) -> (r: Result<u8, FenError>)
    ensures
        match clock_field(part@, 0) {
            Some(v) => r == Ok::<u8, FenError>(v),
            None => r == Err::<u8, FenError>(FenError::InvalidHalfmoveClock),
        },
{
    match read_clock(part, 0) {
        Some(v) => Ok(v),
        None => Err(FenError::InvalidHalfmoveClock),
    }
}

/// Full-move number of a field.
fn full_move_number(part: &Vec<char>) -> (r: Result<u8, FenError>)
    ensures
        match clock_field(part@, 1) {
            Some(v) => r == Ok::<u8, FenError>(v),
            None => r == Err::<u8, FenError>(FenError::InvalidFullmoveNumber),
        },
{
    match read_clock(part, 1) {
        Some(v) => Ok(v),
        None => Err(FenError::InvalidFullmoveNumber),
    }
}

fn piece_of(c: char) -> (r: Option<(usize, usize)>)
    ensures
        match piece_letter(c) {
            Some((k, col)) => r == Some((k as usize, col as usize)),
            None => r is None,
        },
{
    if c == 'K' {
        Some((0, 0))
    } else if c == 'Q' {
        Some((1, 0))
    } else if c == 'R' {
        Some((2, 0))
    } else if c == 'B' {
        Some((3, 0))
    } else if c == 'N' {
        Some((4, 0))
    } else if c == 'P' {
        Some((5, 0))
    } else if c == 'k' {
        Some((0, 1))
    } else if c == 'q' {
        Some((1, 1))
    } else if c == 'r' {
        Some((2, 1))
    } else if c == 'b' {
        Some((3, 1))
    } else if c == 'n' {
        Some((4, 1))
    } else if c == 'p' {
        Some((5, 1))
    } else {
        None
    }
}

proof fn lemma_place_stuck(f: Seq<char>, i: int, j: int)
    requires
        0 <= i <= j <= f.len(),
        place_fold(f.take(i)) is None,
    ensures
        place_fold(f.take(j)) is None,
    decreases j - i,
{
    if i < j {
        lemma_place_stuck(f, i, j - 1);
        assert(f.take(j).drop_last() =~= f.take(j - 1));
    }
}

/// Piece sets by kind and by colour of a placement field.
fn pieces(part: &Vec<char>) -> (r: Result<([u64; 6], [u64; 2]), FenError>)
    ensures
        match placement(part@) {
            Some((p, c)) => r is Ok && r->Ok_0.0@ == p && r->Ok_0.1@ == c,
            None => r == Err::<([u64; 6], [u64; 2]), FenError>(FenError::InvalidPlacement),
        },
{
    let mut kinds: [u64; 6] = [0; 6];
    let mut colors: [u64; 2] = [0; 2];
    let mut rank: usize = 7;
    let mut file: usize = 0;
    let mut i: usize = 0;
    assert(part@.take(0) =~= Seq::<char>::empty());
    assert(kinds@ =~= seq![0u64, 0u64, 0u64, 0u64, 0u64, 0u64]);
    assert(colors@ =~= seq![0u64, 0u64]);
    while i < part.len()
        invariant
            i <= part.len(),
            rank <= 7,
            file <= 8,
            place_fold(part@.take(i as int)) == Some::<Placing>(
                (rank as int, file as int, kinds@, colors@),
            ),
        decreases part.len() - i,
    {
        let c = part[i];
        proof {
            assert(part@.take(i + 1).drop_last() =~= part@.take(i as int));
            assert(part@.take(i + 1).last() == c);
        }
        match piece_of(c) {
            Some((kind, color)) => {
                if file >= 8 {
                    proof {
                        lemma_place_stuck(part@, i + 1, part@.len() as int);
                        assert(part@.take(part@.len() as int) =~= part@);
                    }
                    return Err(FenError::InvalidPlacement);
                }
                let b: u64 = 1u64 << (rank * 8 + file) as u64;
                kinds[kind] = kinds[kind] | b;
                colors[color] = colors[color] | b;
                file = file + 1;
            },
            None => {
                match digit_of(c) {
                    Some(d) => {
                        if d < 1 || d > 8 || file + d as usize > 8 {
                            proof {
                                lemma_place_stuck(part@, i + 1, part@.len() as int);
                                assert(part@.take(part@.len() as int) =~= part@);
                            }
                            return Err(FenError::InvalidPlacement);
                        }
                        file = file + d as usize;
                    },
                    None => {
                        if c != '/' || file != 8 || rank == 0 {
                            proof {
                                lemma_place_stuck(part@, i + 1, part@.len() as int);
                                assert(part@.take(part@.len() as int) =~= part@);
                            }
                            return Err(FenError::InvalidPlacement);
                        }
                        rank = rank - 1;
                        file = 0;
                    },
                }
            },
        }
        i = i + 1;
    }
    assert(part@.take(part.len() as int) =~= part@);
    if rank != 0 || file != 8 {
        return Err(FenError::InvalidPlacement);
    }
    Ok((kinds, colors))
}

/// The text a description argument stands for: the starting position when
/// none is given.
pub open spec fn fen_text(fen: Option<&str>) -> Seq<char> {
    match fen {
        Some(t) => t@,
        None => FEN_START_POSITION@,
    }
}

/// The six fields of a description (en dashes read as `-`, four fields
/// completed with "0" and "1"), or `IncorrectLength`.
fn split_fen_string(fen: Option<&str>) -> (r: Result<Vec<Vec<char>>, FenError>)
    ensures
        match r {
            Ok(v) => fen_fields(fen_text(fen)).len() == 6 && v.len() == 6 && forall|j: int|
                0 <= j < 6 ==> #[trigger] v[j]@ == fen_fields(fen_text(fen))[j],
            Err(e) => e == FenError::IncorrectLength && fen_fields(fen_text(fen)).len() != 6,
        },
{
    let text: &str = match fen {
        Some(t) => t,
        None => FEN_START_POSITION,
    };
    let n = text.unicode_len();
    let mut chars: Vec<char> = Vec::new();
    let mut i: usize = 0;
    while i < n
        invariant
            n == text@.len(),
            i <= n,
            chars.len() == i,
            forall|k: int| 0 <= k < i ==> chars@[k] == normalized(text@)[k],
        decreases n - i,
    {
        let c = text.get_char(i);
        if c == EN_DASH {
            chars.push('-');
        } else {
            chars.push(c);
        }
        i = i + 1;
    }
    assert(chars@ =~= normalized(text@));
    let mut fields: Vec<Vec<char>> = Vec::new();
    let mut cur: Vec<char> = Vec::new();
    let mut i: usize = 0;
    assert(chars@.take(0) =~= Seq::<char>::empty());
    while i < chars.len()
        invariant
            i <= chars.len(),
            split_fields(chars@.take(i as int)).len() == fields.len() + 1,
            forall|j: int|
                0 <= j < fields.len() ==> #[trigger] fields[j]@ == split_fields(
                    chars@.take(i as int),
                )[j],
            cur@ == split_fields(chars@.take(i as int)).last(),
        decreases chars.len() - i,
    {
        let c = chars[i];
        assert(chars@.take(i + 1).drop_last() =~= chars@.take(i as int));
        let ghost before = split_fields(chars@.take(i as int));
        if c == ' ' {
            fields.push(cur);
            cur = Vec::new();
            assert(cur@ =~= Seq::<char>::empty());
        } else {
            cur.push(c);
        }
        i = i + 1;
        assert forall|j: int| 0 <= j < fields.len() implies #[trigger] fields[j]@ == split_fields(
            chars@.take(i as int),
        )[j] by {
            if j < before.len() - 1 {
                assert(fields[j]@ == before[j]);
            }
        }
    }
    assert(chars@.take(chars.len() as int) =~= chars@);
    fields.push(cur);
    let ghost split = split_fields(chars@);
    assert forall|j: int| 0 <= j < fields.len() implies #[trigger] fields[j]@ == split[j] by {}
    if fields.len() == 4 {
        fields.push(vec!['0']);
        fields.push(vec!['1']);
    }
    if fields.len() != 6 {
        return Err(FenError::IncorrectLength);
    }
    proof {
        let f = fen_fields(fen_text(fen));
        assert forall|j: int| 0 <= j < 6 implies #[trigger] fields[j]@ == f[j] by {
            if split.len() == 4 && j >= 4 {
                if j == 4 {
                    assert(fields[j]@ =~= seq!['0']);
                } else {
                    assert(fields[j]@ =~= seq!['1']);
                }
            }
        }
    }
    Ok(fields)
}

impl Board {
    /// Reads a position description (the starting position when `fen` is
    /// `None`). On success the board holds exactly what it describes; on
    /// failure the board is left as it was and the error names the first
    /// malformed part.
    pub fn parse_fen(&mut self, fen: Option<&str>) -> (r: Result<(), FenError>)
        ensures
            match fen_meaning(fen_text(fen)) {
                Ok((p, c, turn, castling, ep, half, full)) => {
                    &&& r is Ok
                    &&& final(self).is_consistent()
                    &&& final(self).pieces@ == p
                    &&& final(self).color@ == c
                    &&& final(self).turn == turn
                    &&& final(self).castling == castling
                    &&& final(self).en_passant == ep
                    &&& final(self).half_move == half
                    &&& final(self).full_move == full
                },
                Err(e) => r == Err::<(), FenError>(e) && *final(self) == *old(self),
            },
    {
        let parts = match split_fen_string(fen) {
            Ok(p) => p,
            Err(e) => {
                return Err(e);
            },
        };
        let mut temp = *self;
        temp.reset();
        let (kinds, colors) = match pieces(&parts[0]) {
            Ok(x) => x,
            Err(e) => {
                return Err(e);
            },
        };
        let turn = match color(&parts[1]) {
            Ok(x) => x,
            Err(e) => {
                return Err(e);
            },
        };
        let rights = match castling(&parts[2]) {
            Ok(x) => x,
            Err(e) => {
                return Err(e);
            },
        };
        let ep = match en_passant(&parts[3]) {
            Ok(x) => x,
            Err(e) => {
                return Err(e);
            },
        };
        let half = match half_move_clock(&parts[4]) {
            Ok(x) => x,
            Err(e) => {
                return Err(e);
            },
        };
        let full = match full_move_number(&parts[5]) {
            Ok(x) => x,
            Err(e) => {
                return Err(e);
            },
        };
        proof {
            assert forall|s: u64| s < 64 implies #[trigger] square_ok(kinds@, colors@, s) by {
                lemma_placement_consistent(parts[0]@, s);
            }
        }
        temp.pieces = kinds;
        temp.color = colors;
        temp.turn = turn;
        temp.castling = rights;
        temp.en_passant = ep;
        temp.half_move = half;
        temp.full_move = full;
        temp.init();
        *self = temp;
        Ok(())
    }
}

} // verus!
