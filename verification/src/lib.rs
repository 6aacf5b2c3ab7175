//! A verified chess move-generation engine: board representation, bit-mask
//! attack primitives, per-piece pseudo-legal move enumeration, castling and
//! en-passant handling, attacked-square detection, a king-safety legality
//! filter, and a codec for the compact textual position notation.

pub mod laws;
pub mod move_gen;
pub mod pgn;
pub mod rules;
pub mod types;

use vstd::prelude::*;
use crate::types::{Board, Color, Move, Piece};
use crate::types::board_ok;
use crate::move_gen::{color_move_at, generate_moves, generate_piece_moves, piece_move_at};
use crate::rules::{board_valid, is_legal_move, legal_move_spec, validate_board};

verus! {

/// All pseudo-legal moves of the pieces of `color`; the caller filters them
/// for king safety with `is_move_legal`.
pub fn legal_moves(board: &Board, color: Color) -> (r: Vec<Move>)
    requires
        board_ok(board),
    ensures
        forall|m: Move| #[trigger] r@.contains(m) <==> color_move_at(board, color, m),
{
    generate_moves(board, color)
}

/// The pseudo-legal moves of the piece standing on `sq`.
pub fn piece_moves(board: &Board, piece: Piece, sq: u8) -> (r: Vec<Move>)
    requires
        board_ok(board),
    ensures
        forall|m: Move| #[trigger] r@.contains(m) <==> piece_move_at(board, piece, sq, m),
{
    generate_piece_moves(board, piece, sq)
}

/// Whether the move is legal: pseudo-legal for the piece on its origin square
/// and not leaving the mover's own king attacked.
pub fn is_move_legal(board: &Board, mv: &Move) -> (r: bool)
    requires
        board_ok(board),
    ensures
        r == legal_move_spec(board, *mv),
{
    is_legal_move(board, mv)
}

/// Whether the board holds exactly one king of each color.
pub fn is_board_valid(board: &Board) -> (r: bool)
    requires
        board_ok(board),
    ensures
        r == board_valid(board.squares@),
{
    validate_board(board)
}

} // verus!
