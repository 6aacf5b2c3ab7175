use move_generation::types::{Board, Color, Move, Piece};
use move_generation::move_gen::generate_moves;
use move_generation::move_gen::generate_piece_moves;

fn empty_board(side: Color) -> Board {
    Board {
        squares: vec![None; 64],
        side_to_move: side,
        castling_rights: "-".to_string(),
        en_passant: None,
        halfmove_clock: 0,
        fullmove_number: 1,
    }
}

#[test]
fn test_pawn_moves() {
    let mut board = empty_board(Color::White);

    // Place a white pawn at e2 (square 12)
    board.squares[12] = Some((Piece::Pawn, Color::White));

    let moves = generate_moves(&board, Color::White);

    // Expect the pawn to move to e3 (20) and e4 (28)
    let expected_moves = vec![(12, 20), (12, 28)];

    for &(from, to) in &expected_moves {
        assert!(moves.iter().any(|m| m.from == from && m.to == to));
    }
}

#[test]
fn test_knight_moves() {
    let mut board = empty_board(Color::White);

    // Place a white knight at b1 (square 1)
    board.squares[1] = Some((Piece::Knight, Color::White));

    let moves = generate_moves(&board, Color::White);

    // Expect the knight to move to a3 (16), c3 (18), and other valid squares
    let expected_moves = vec![(1, 16), (1, 18)];

    for &(from, to) in &expected_moves {
        assert!(moves.iter().any(|m| m.from == from && m.to == to));
    }
}

#[test]
fn test_rook_moves() {
    let mut board = empty_board(Color::White);

    // Place a white rook at a1 (square 0)
    board.squares[0] = Some((Piece::Rook, Color::White));

    let moves = generate_moves(&board, Color::White);

    // Expect the rook to move along the first rank and first file
    let expected_moves = vec![
        (0, 8),
        (0, 16),
        (0, 24),
        (0, 32),
        (0, 40),
        (0, 48),
        (0, 56),
        (0, 1),
        (0, 2),
        (0, 3),
        (0, 4),
        (0, 5),
        (0, 6),
        (0, 7),
    ];

    for &(from, to) in &expected_moves {
        assert!(moves.iter().any(|m| m.from == from && m.to == to));
    }
}

#[test]
fn test_rook_blocked_by_own_pawn() {
    let mut board = empty_board(Color::White);
    board.squares[0] = Some((Piece::Rook, Color::White));
    board.squares[24] = Some((Piece::Pawn, Color::White)); // a4

    let moves = generate_piece_moves(&board, Piece::Rook, 0);

    // The rook reaches a2 and a3 but neither a4 (own pawn) nor beyond.
    assert!(moves.iter().any(|m| m.to == 8));
    assert!(moves.iter().any(|m| m.to == 16));
    assert!(!moves.iter().any(|m| m.to == 24));
    assert!(!moves.iter().any(|m| m.to == 32));
}

#[test]
fn test_bishop_capture_stops_ray() {
    let mut board = empty_board(Color::White);
    board.squares[0] = Some((Piece::Bishop, Color::White)); // a1
    board.squares[18] = Some((Piece::Pawn, Color::Black)); // c3

    let moves = generate_piece_moves(&board, Piece::Bishop, 0);

    // b2, then the capture on c3, and nothing past it.
    assert!(moves.iter().any(|m| m.to == 9));
    assert!(moves.iter().any(|m| m.to == 18));
    assert!(!moves.iter().any(|m| m.to == 27));
}

#[test]
fn test_knight_no_wraparound() {
    let mut board = empty_board(Color::White);
    // Knight on h4 (square 31): offsets that would wrap to the a-file must
    // not appear.
    board.squares[31] = Some((Piece::Knight, Color::White));

    let moves = generate_piece_moves(&board, Piece::Knight, 31);
    let targets: Vec<u8> = moves.iter().map(|m| m.to).collect();

    let mut expected = vec![14u8, 21, 37, 46]; // g2, f3, f5, g6
    expected.sort();
    let mut got = targets.clone();
    got.sort();
    assert_eq!(got, expected);
}

#[test]
fn test_promotion_completeness() {
    // A white pawn on e7 with e8 empty generates exactly the four promotions.
    let mut board = empty_board(Color::White);
    board.squares[52] = Some((Piece::Pawn, Color::White)); // e7

    let moves = generate_piece_moves(&board, Piece::Pawn, 52);

    assert_eq!(moves.len(), 4);
    for m in &moves {
        assert_eq!(m.from, 52);
        assert_eq!(m.to, 60);
    }
    for promo in [Piece::Queen, Piece::Rook, Piece::Bishop, Piece::Knight] {
        assert!(moves.iter().any(|m| m.promotion == Some(promo)));
    }
    assert!(!moves.iter().any(|m| m.promotion.is_none()));
}

#[test]
fn test_en_passant_capture_generated() {
    // Black pawn just double-pushed to e5; the target square is e6 and the
    // white pawn on d5 may capture onto it.
    let mut board = empty_board(Color::White);
    board.squares[35] = Some((Piece::Pawn, Color::White)); // d5
    board.squares[36] = Some((Piece::Pawn, Color::Black)); // e5
    board.en_passant = Some(44); // e6

    let moves = generate_piece_moves(&board, Piece::Pawn, 35);

    assert!(moves.iter().any(|m| m.from == 35 && m.to == 44));
}

#[test]
fn test_castling_gating() {
    // Rights KQkq, back rank empty between king and rooks, nothing attacking
    // the transit squares: both castling moves appear for the white king.
    let mut board = empty_board(Color::White);
    board.squares[0] = Some((Piece::Rook, Color::White));
    board.squares[4] = Some((Piece::King, Color::White));
    board.squares[7] = Some((Piece::Rook, Color::White));
    board.squares[56] = Some((Piece::Rook, Color::Black));
    board.squares[60] = Some((Piece::King, Color::Black));
    board.squares[63] = Some((Piece::Rook, Color::Black));
    board.castling_rights = "KQkq".to_string();

    let moves = generate_piece_moves(&board, Piece::King, 4);
    assert!(moves.iter().any(|m| m.from == 4 && m.to == 6)); // e1g1
    assert!(moves.iter().any(|m| m.from == 4 && m.to == 2)); // e1c1

    // Removing the K flag removes exactly e1g1.
    let mut no_k = board.clone();
    no_k.castling_rights = "Qkq".to_string();
    let moves_no_k = generate_piece_moves(&no_k, Piece::King, 4);
    assert!(!moves_no_k.iter().any(|m| m.from == 4 && m.to == 6));
    assert!(moves_no_k.iter().any(|m| m.from == 4 && m.to == 2));

    // Occupying f1 removes e1g1 regardless of rights.
    let mut blocked = board.clone();
    blocked.squares[5] = Some((Piece::Knight, Color::White));
    let moves_blocked = generate_piece_moves(&blocked, Piece::King, 4);
    assert!(!moves_blocked.iter().any(|m| m.from == 4 && m.to == 6));
    assert!(moves_blocked.iter().any(|m| m.from == 4 && m.to == 2));
}

#[test]
fn test_castling_blocked_by_attack() {
    // A black rook on f8 attacks f1, so kingside castling is barred while
    // queenside stays available.
    let mut board = empty_board(Color::White);
    board.squares[0] = Some((Piece::Rook, Color::White));
    board.squares[4] = Some((Piece::King, Color::White));
    board.squares[7] = Some((Piece::Rook, Color::White));
    board.squares[61] = Some((Piece::Rook, Color::Black)); // f8
    board.squares[60] = Some((Piece::King, Color::Black));
    board.castling_rights = "KQ".to_string();

    let moves = generate_piece_moves(&board, Piece::King, 4);
    assert!(!moves.iter().any(|m| m.from == 4 && m.to == 6));
    assert!(moves.iter().any(|m| m.from == 4 && m.to == 2));
}

#[test]
fn test_empty_origin_yields_no_moves() {
    let board = empty_board(Color::White);
    assert!(generate_piece_moves(&board, Piece::Queen, 27).is_empty());
    // A mismatched piece kind also yields nothing.
    let mut board2 = empty_board(Color::White);
    board2.squares[27] = Some((Piece::Rook, Color::White));
    assert!(generate_piece_moves(&board2, Piece::Queen, 27).is_empty());
    // An out-of-range square yields nothing rather than failing.
    assert!(generate_piece_moves(&board, Piece::King, 200).is_empty());
}

#[test]
fn test_move_values_are_plain_data() {
    let m = Move { from: 12, to: 28, promotion: None };
    let m2 = m;
    assert_eq!(m, m2);
    assert_ne!(m, Move { from: 12, to: 28, promotion: Some(Piece::Queen) });
}
