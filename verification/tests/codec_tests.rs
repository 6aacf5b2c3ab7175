use move_generation::pgn::{ChessError, PgnReader, Position};
use move_generation::types::{Color, Piece};
use move_generation::move_gen::{AttackTables, Bitboard};

const START: &str = "rnbqkbnr/pppppppp/8/8/8/8/PPPPPPPP/RNBQKBNR w KQkq - 0 1";

#[test]
fn test_round_trip_start_position() {
    let pos = Position::from_str(START).unwrap();
    assert_eq!(pos.to_fen(), START);
    assert_eq!(pos.side_to_move, Color::White);
    assert_eq!(pos.castling_rights, "KQkq");
    assert_eq!(pos.en_passant, None);
    assert_eq!(pos.halfmove_clock, 0);
    assert_eq!(pos.fullmove_number, 1);
    assert_eq!(pos.pieces.len(), 32);
}

#[test]
fn test_round_trip_assorted_positions() {
    let fens = [
        "r3k2r/8/8/8/8/8/8/R3K2R w KQkq - 0 1",
        "rnbqkbnr/pppppppp/8/8/4P3/8/PPPP1PPP/RNBQKBNR b KQkq e3 0 1",
        "8/8/8/8/8/8/8/8 w - - 0 1",
        "4k3/8/8/8/8/8/4P3/4K3 b - - 99 123",
        "8/P7/8/8/8/8/8/k6K w - - 4294967295 1",
    ];
    for fen in fens {
        let pos = Position::from_str(fen).unwrap();
        assert_eq!(pos.to_fen(), fen, "round trip failed for {}", fen);
    }
}

#[test]
fn test_parse_field_values() {
    let pos = Position::from_str("8/8/8/8/8/8/8/7N b - e6 12 34").unwrap();
    assert_eq!(pos.pieces, vec![(Piece::Knight, Color::White, 7)]);
    assert_eq!(pos.side_to_move, Color::Black);
    assert_eq!(pos.en_passant, Some(44));
    assert_eq!(pos.halfmove_clock, 12);
    assert_eq!(pos.fullmove_number, 34);
}

#[test]
fn test_parse_errors_are_distinct() {
    // Too few fields.
    let e = Position::from_str("8/8/8/8/8/8/8/8 w -").unwrap_err();
    let ChessError::ParseError(msg) = e;
    assert_eq!(msg, "Invalid FEN: not enough fields");

    // An unknown placement character.
    let e = Position::from_str("8/8/8/8/8/8/8/7x w - - 0 1").unwrap_err();
    let ChessError::ParseError(msg) = e;
    assert_eq!(msg, "Invalid FEN character");

    // An overfull rank is also a placement error.
    assert!(Position::from_str("9/8/8/8/8/8/8/8 w - - 0 1").is_err());
    assert!(Position::from_str("44P/8/8/8/8/8/8/8 w - - 0 1").is_err());

    // An unknown side token.
    let e = Position::from_str("8/8/8/8/8/8/8/8 x - - 0 1").unwrap_err();
    let ChessError::ParseError(msg) = e;
    assert_eq!(msg, "Invalid side to move");

    // A malformed en-passant square.
    let e = Position::from_str("8/8/8/8/8/8/8/8 w - z9 0 1").unwrap_err();
    let ChessError::ParseError(msg) = e;
    assert_eq!(msg, "Invalid en passant square");
}

#[test]
fn test_clock_fallback_is_lossy() {
    // Unparsable clock fields fall back to 0 and 1 rather than failing.
    let pos = Position::from_str("8/8/8/8/8/8/8/8 w - - abc xyz").unwrap();
    assert_eq!(pos.halfmove_clock, 0);
    assert_eq!(pos.fullmove_number, 1);
    // A clock too large for the field falls back too.
    let pos = Position::from_str("8/8/8/8/8/8/8/8 w - - 4294967296 2").unwrap();
    assert_eq!(pos.halfmove_clock, 0);
    assert_eq!(pos.fullmove_number, 2);
}

#[test]
fn test_pgn_reader_embedded_position() {
    let lines: Vec<String> = vec![
        "[Event \"casual\"]".to_string(),
        "[FEN \"r3k2r/8/8/8/8/8/8/R3K2R w KQkq - 0 1\"]".to_string(),
        "".to_string(),
        "1. O-O".to_string(),
    ];
    let mut reader = PgnReader::new(lines);
    let pos = reader.next_position().unwrap().unwrap();
    assert_eq!(pos.to_fen(), "r3k2r/8/8/8/8/8/8/R3K2R w KQkq - 0 1");
    // The lines are exhausted afterwards.
    assert!(reader.next_position().unwrap().is_none());
}

#[test]
fn test_pgn_reader_default_start() {
    let lines: Vec<String> = vec!["[Event \"casual\"]".to_string(), "1. e4 e5".to_string()];
    let mut reader = PgnReader::new(lines);
    let pos = reader.next_position().unwrap().unwrap();
    assert_eq!(pos.to_fen(), START);
}

#[test]
fn test_pgn_reader_empty_input() {
    let mut reader = PgnReader::new(Vec::new());
    assert!(reader.next_position().unwrap().is_none());
}

#[test]
fn test_bitboard_operations() {
    let mut bb = Bitboard::empty();
    assert!(bb.bits().is_empty());
    bb.set(0);
    bb.set(63);
    bb.set(12);
    assert!(bb.is_set(12));
    assert!(bb.contains(63));
    assert!(!bb.is_set(5));
    assert_eq!(bb.bits(), vec![0, 12, 63]);
    bb.clear(12);
    assert_eq!(bb.bits(), vec![0, 63]);
    let mut other = Bitboard::empty();
    other.set(7);
    let both = bb.union(other);
    assert_eq!(both.bits(), vec![0, 7, 63]);
}

#[test]
fn test_attack_tables_edge_rays() {
    let tables = AttackTables::new();
    // From a1 the rook mask covers the whole first rank and a-file.
    let a1_rook = &tables.rook_attacks[0];
    for sq in [1u8, 7, 8, 56] {
        assert!(a1_rook.contains(sq));
    }
    assert!(!a1_rook.contains(9));
    // From d4 the bishop mask covers its diagonals only.
    let d4_bishop = &tables.bishop_attacks[27];
    for sq in [0u8, 9, 18, 36, 45, 54, 63, 34, 41, 48, 20, 13, 6] {
        assert!(d4_bishop.contains(sq));
    }
    assert!(!d4_bishop.contains(28));
}
