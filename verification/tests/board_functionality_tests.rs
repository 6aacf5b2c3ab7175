use move_generation::types::{Board, Color, Piece};
use move_generation::move_gen::generate_moves;

#[test]
fn test_random_board_position() {
    let mut squares: Vec<Option<(Piece, Color)>> = vec![None; 64];
    squares[0] = Some((Piece::Rook, Color::White));
    squares[4] = Some((Piece::King, Color::White));
    squares[7] = Some((Piece::Rook, Color::White));
    squares[56] = Some((Piece::Rook, Color::Black));
    squares[60] = Some((Piece::King, Color::Black));
    squares[63] = Some((Piece::Rook, Color::Black));
    let board = Board {
        squares,
        side_to_move: Color::White,
        castling_rights: "KQkq".to_string(),
        en_passant: None,
        halfmove_clock: 0,
        fullmove_number: 1,
    };

    let moves = generate_moves(&board, Color::White);

    // Debugging output
    println!("Generated moves: {:?}", moves);

    assert!(!moves.is_empty(), "No moves generated for the given board position.");
}
