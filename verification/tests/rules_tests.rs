use move_generation::types::{Board, Color, Move, Piece};
use move_generation::rules::{is_legal_move, validate_board};
use move_generation::move_gen::is_square_attacked;
use move_generation::{is_board_valid, is_move_legal, legal_moves, piece_moves};

fn empty_board(side: Color) -> Board {
    Board {
        squares: vec![None; 64],
        side_to_move: side,
        castling_rights: "-".to_string(),
        en_passant: None,
        halfmove_clock: 0,
        fullmove_number: 1,
    }
}

#[test]
fn test_validate_board_king_counts() {
    // Exactly one king of each color: valid.
    let mut board = empty_board(Color::White);
    board.squares[4] = Some((Piece::King, Color::White));
    board.squares[60] = Some((Piece::King, Color::Black));
    assert!(validate_board(&board));
    assert!(is_board_valid(&board));

    // A missing black king: invalid.
    let mut no_black = board.clone();
    no_black.squares[60] = None;
    assert!(!validate_board(&no_black));

    // A second white king: invalid.
    let mut two_white = board.clone();
    two_white.squares[30] = Some((Piece::King, Color::White));
    assert!(!validate_board(&two_white));

    // An empty board: invalid.
    assert!(!validate_board(&empty_board(Color::White)));
}

#[test]
fn test_pinned_king_must_capture() {
    // White king on e1, black queen adjacent on e2 (pinning the king in
    // place): the sideways step to d1 leaves the king attacked and is
    // rejected, while capturing the queen is accepted.
    let mut board = empty_board(Color::White);
    board.squares[4] = Some((Piece::King, Color::White)); // e1
    board.squares[12] = Some((Piece::Queen, Color::Black)); // e2
    board.squares[63] = Some((Piece::King, Color::Black)); // h8

    let sideways = Move { from: 4, to: 3, promotion: None }; // e1d1
    assert!(!is_legal_move(&board, &sideways));
    assert!(!is_move_legal(&board, &sideways));

    let capture = Move { from: 4, to: 12, promotion: None }; // e1e2
    assert!(is_legal_move(&board, &capture));
    assert!(is_move_legal(&board, &capture));
}

#[test]
fn test_illegal_shapes_rejected() {
    let mut board = empty_board(Color::White);
    board.squares[4] = Some((Piece::King, Color::White));
    board.squares[60] = Some((Piece::King, Color::Black));
    board.squares[0] = Some((Piece::Rook, Color::White));

    // A rook does not move diagonally.
    assert!(!is_legal_move(&board, &Move { from: 0, to: 9, promotion: None }));
    // An empty origin square has no legal moves.
    assert!(!is_legal_move(&board, &Move { from: 20, to: 28, promotion: None }));
    // Out-of-range squares yield false rather than failing.
    assert!(!is_legal_move(&board, &Move { from: 200, to: 20, promotion: None }));
    assert!(!is_legal_move(&board, &Move { from: 0, to: 200, promotion: None }));
}

#[test]
fn test_attack_detection_is_blocker_aware() {
    let mut board = empty_board(Color::White);
    board.squares[0] = Some((Piece::Rook, Color::White)); // a1
    board.squares[24] = Some((Piece::Pawn, Color::White)); // a4

    // The rook attacks a3 but not a5: its own pawn blocks the file.
    assert!(is_square_attacked(&board, 16, Color::Black));
    assert!(!is_square_attacked(&board, 32, Color::Black));
    // A pawn attacks diagonally forward, not straight ahead.
    assert!(is_square_attacked(&board, 33, Color::Black)); // b5
    assert!(!is_square_attacked(&board, 32, Color::Black)); // a5
}

#[test]
fn test_en_passant_capture_is_legal() {
    // After black's double push e7e5, white d5xe6 must be legal, and the
    // legality filter must remove the passed pawn when testing for check.
    let mut board = empty_board(Color::White);
    board.squares[4] = Some((Piece::King, Color::White));
    board.squares[60] = Some((Piece::King, Color::Black));
    board.squares[35] = Some((Piece::Pawn, Color::White)); // d5
    board.squares[36] = Some((Piece::Pawn, Color::Black)); // e5
    board.en_passant = Some(44); // e6

    let ep = Move { from: 35, to: 44, promotion: None };
    assert!(is_legal_move(&board, &ep));
}

#[test]
fn test_legal_moves_and_piece_moves_agree() {
    let mut board = empty_board(Color::White);
    board.squares[4] = Some((Piece::King, Color::White));
    board.squares[60] = Some((Piece::King, Color::Black));
    board.squares[1] = Some((Piece::Knight, Color::White));

    let all = legal_moves(&board, Color::White);
    let knight = piece_moves(&board, Piece::Knight, 1);
    for m in &knight {
        assert!(all.contains(m));
    }
    // Every generated knight move starts at the knight's square.
    assert!(knight.iter().all(|m| m.from == 1));
}
