use move_generation::types::{Board, Color, Piece};
use move_generation::move_gen::{generate_moves, generate_piece_moves, is_square_attacked};

fn empty_board(side: Color) -> Board {
    Board {
        squares: vec![None; 64],
        side_to_move: side,
        castling_rights: "KQkq".to_string(),
        en_passant: None,
        halfmove_clock: 0,
        fullmove_number: 1,
    }
}

fn crowded_board() -> Board {
    let mut board = empty_board(Color::White);
    board.squares[0] = Some((Piece::Rook, Color::White));
    board.squares[4] = Some((Piece::King, Color::White));
    board.squares[9] = Some((Piece::Pawn, Color::White));
    board.squares[18] = Some((Piece::Bishop, Color::White));
    board.squares[27] = Some((Piece::Queen, Color::White));
    board.squares[36] = Some((Piece::Knight, Color::Black));
    board.squares[45] = Some((Piece::Pawn, Color::Black));
    board.squares[56] = Some((Piece::Rook, Color::Black));
    board.squares[60] = Some((Piece::King, Color::Black));
    board.squares[62] = Some((Piece::Knight, Color::White));
    board
}

#[test]
fn test_no_self_capture_concrete() {
    let board = crowded_board();
    for color in [Color::White, Color::Black] {
        for m in generate_moves(&board, color) {
            if let Some((_, c)) = board.squares[m.to as usize] {
                assert_ne!(c, color, "move {:?} lands on its own piece", m);
            }
        }
    }
}

#[test]
fn test_sliding_containment_concrete() {
    let board = crowded_board();
    for (sq, piece) in [(0u8, Piece::Rook), (18u8, Piece::Bishop), (27u8, Piece::Queen)] {
        for m in generate_piece_moves(&board, piece, sq) {
            // Walk the ray between origin and destination: every strictly
            // intermediate square must be empty.
            let (fr, ff) = ((m.from / 8) as i8, (m.from % 8) as i8);
            let (tr, tf) = ((m.to / 8) as i8, (m.to % 8) as i8);
            let dr = (tr - fr).signum();
            let df = (tf - ff).signum();
            let (mut r, mut f) = (fr + dr, ff + df);
            while (r, f) != (tr, tf) {
                let between = (r * 8 + f) as usize;
                assert!(
                    board.squares[between].is_none(),
                    "move {:?} jumps over square {}",
                    m,
                    between
                );
                r += dr;
                f += df;
            }
        }
    }
}

#[test]
fn test_attack_implies_empty_board_reach() {
    // Attack symmetry for non-pawns on concrete values: the queen on d4
    // attacks g7 through open squares, and on an otherwise empty board the
    // queen also reaches g7 under its movement rule.
    let mut lone = empty_board(Color::White);
    lone.squares[27] = Some((Piece::Queen, Color::White)); // d4
    assert!(is_square_attacked(&lone, 54, Color::Black)); // g7
    let reach = generate_piece_moves(&lone, Piece::Queen, 27);
    assert!(reach.iter().any(|m| m.to == 54));

    // With a blocker in between the attack disappears, while the empty-board
    // reach of course remains.
    let board = crowded_board();
    assert!(board.squares[45].is_some()); // f6 blocks d4-g7
    let queen_moves = generate_piece_moves(&board, Piece::Queen, 27);
    assert!(!queen_moves.iter().any(|m| m.to == 54));
}
