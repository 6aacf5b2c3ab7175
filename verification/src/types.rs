//! Core data types for the chess move-generation engine: colors, pieces,
//! moves, and the board with its square mapping.

use vstd::prelude::*;

verus! {

/// The two sides of the game.
#[derive(Copy, Clone, Debug, PartialEq, Eq, Structural)]
pub enum Color {
    White,
    Black,
}

/// The six piece kinds.
#[derive(Copy, Clone, Debug, PartialEq, Eq, Structural)]
pub enum Piece {
    Pawn,
    Knight,
    Bishop,
    Rook,
    Queen,
    King,
}

/// A candidate move: origin square, destination square, and the piece a pawn
/// promotes to when it reaches the opponent's back rank (`None` otherwise).
/// Squares are encoded `rank * 8 + file`, with square 0 = a1 and square 63 = h8.
#[derive(Copy, Clone, Debug, PartialEq, Eq, Structural)]
pub struct Move {
    pub from: u8,
    pub to: u8,
    pub promotion: Option<Piece>,
}

/// A chess position. `squares` maps each of the 64 squares (index
/// `rank * 8 + file`) to its occupant, if any; the vector always holds
/// exactly 64 entries. `castling_rights` is the raw rights field of the
/// position notation (a subset of `KQkq`, or `-`). `en_passant` is the square
/// skipped by an immediately preceding pawn double push, if any.
#[derive(Clone, Debug, PartialEq, Eq)]
pub struct Board {
    pub squares: Vec<Option<(Piece, Color)>>,
    pub side_to_move: Color,
    pub castling_rights: String,
    pub en_passant: Option<u8>,
    pub halfmove_clock: u32,
    pub fullmove_number: u32,
}

/// Rank (0-based row, rank 1 of the game = 0) of a square index.
pub open spec fn rank_of(sq: int) -> int {
    sq / 8
}

/// File (0-based column, file a = 0) of a square index.
pub open spec fn file_of(sq: int) -> int {
    sq % 8
}

/// Whether a square index lies on the board.
pub open spec fn on_board(sq: int) -> bool {
    0 <= sq < 64
}

/// The square index of a rank/file pair.
pub open spec fn square_at(rank: int, file: int) -> int {
    rank * 8 + file
}

/// The structural well-formedness of a board value: one slot per square.
/// The square table stands in for a fixed 64-entry array, so every operation
/// asks for exactly 64 entries.
pub open spec fn board_ok(b: &Board) -> bool {
    b.squares@.len() == 64
}

/// The occupant of a square.
pub open spec fn occ(b: &Board, sq: int) -> Option<(Piece, Color)> {
    b.squares@[sq]
}

} // verus!
