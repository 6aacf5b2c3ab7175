//! Chess rules and validation: the one-king-per-side board predicate,
//! per-piece move validity, and the king-safety legality filter.

use vstd::prelude::*;
use crate::types::{Board, Color, Move, Piece};
use crate::types::{board_ok, file_of, occ, rank_of, square_at};
use crate::move_gen::{
    can_castle_ks, can_castle_qs, king_home_sq, pseudo_legal_move, sq_attacked,
};
use crate::move_gen::{
    generate_bishop_moves, generate_king_moves, generate_knight_moves, generate_pawn_moves,
    generate_rook_moves,
};

verus! {

// ---------------------------------------------------------------------------
// Board validation
// ---------------------------------------------------------------------------

/// How many squares of the table hold exactly the given piece and color.
pub open spec fn count_pieces(s: Seq<Option<(Piece, Color)>>, p: Piece, c: Color) -> int
    decreases s.len(),
{
    if s.len() == 0 {
        0
    } else {
        count_pieces(s.drop_last(), p, c) + if s.last() == Some((p, c)) {
            1int
        } else {
            0int
        }
    }
}

/// A board is valid iff it holds exactly one king of each color.
pub open spec fn board_valid(s: Seq<Option<(Piece, Color)>>) -> bool {
    count_pieces(s, Piece::King, Color::White) == 1 && count_pieces(s, Piece::King, Color::Black)
        == 1
}

/// Validate the board state: true iff there is exactly one king of each color.
pub fn validate_board(board: &Board) -> (r: bool)
    requires
        board_ok(board),
    ensures
        r == board_valid(board.squares@),
{
    let ghost s = board.squares@;
    let mut white_king_count: u8 = 0;
    let mut black_king_count: u8 = 0;
    let mut i: u8 = 0;
    while i < 64
        invariant
            board_ok(board),
            s == board.squares@,
            i <= 64,
            white_king_count <= i,
            black_king_count <= i,
            white_king_count as int == count_pieces(s.take(i as int), Piece::King, Color::White),
            black_king_count as int == count_pieces(s.take(i as int), Piece::King, Color::Black),
        decreases 64 - i,
    {
        proof {
            assert(s.take(i as int + 1).drop_last() =~= s.take(i as int));
            assert(s.take(i as int + 1).last() == s[i as int]);
        }
        match board.squares[i as usize] {
            Some((Piece::King, Color::White)) => {
                white_king_count = white_king_count + 1;
            },
            Some((Piece::King, Color::Black)) => {
                black_king_count = black_king_count + 1;
            },
            _ => {},
        }
        i = i + 1;
    }
    proof {
        assert(s.take(64) =~= s);
    }
    white_king_count == 1 && black_king_count == 1
}

// ---------------------------------------------------------------------------
// Applying a move to a scratch board
// ---------------------------------------------------------------------------

/// The square table after a move is applied: the piece is relocated from
/// `from` to `to` (a capture is overwritten); an en-passant capture also
/// removes the passed pawn, and a castling king move also relocates the rook.
pub open spec fn apply_squares(b: &Board, mv: Move) -> Seq<Option<(Piece, Color)>> {
    let s = b.squares@;
    let from = mv.from as int;
    let to = mv.to as int;
    let moved = s.update(to, s[from]).update(from, None);
    match s[from] {
        Some((p, c)) => if p == Piece::Pawn && (match b.en_passant {
            Some(e) => e as int == to,
            None => false,
        }) && file_of(to) != file_of(from) {
            moved.update(square_at(rank_of(from), file_of(to)), None)
        } else if p == Piece::King && from == king_home_sq(c) && to == from + 2 {
            moved.update(from + 3, None).update(from + 1, s[from + 3])
        } else if p == Piece::King && from == king_home_sq(c) && to == from - 2 {
            moved.update(from - 4, None).update(from - 1, s[from - 4])
        } else {
            moved
        },
        None => moved,
    }
}

/// Build the square table of the scratch board for a candidate move, without
/// touching the caller's board.
fn apply_move_squares(board: &Board, mv: &Move) -> (ns: Vec<Option<(Piece, Color)>>)
    requires
        board_ok(board),
        mv.from < 64,
        mv.to < 64,
    ensures
        ns@ == apply_squares(board, *mv),
        ns@.len() == 64,
{
    let ghost s = board.squares@;
    let mut ns: Vec<Option<(Piece, Color)>> = Vec::new();
    let mut i: usize = 0;
    while i < 64
        invariant
            board_ok(board),
            s == board.squares@,
            i <= 64,
            ns@ =~= s.take(i as int),
        decreases 64 - i,
    {
        ns.push(board.squares[i]);
        i = i + 1;
    }
    proof {
        assert(ns@ =~= s);
    }
    let moved_piece = board.squares[mv.from as usize];
    ns.set(mv.to as usize, moved_piece);
    ns.set(mv.from as usize, None);
    match moved_piece {
        Some((Piece::Pawn, c)) => {
            let ep_capture = match board.en_passant {
                Some(e) => e == mv.to && e % 8 != mv.from % 8,
                None => false,
            };
            if ep_capture {
                let captured_sq = (mv.from / 8) * 8 + mv.to % 8;
                ns.set(captured_sq as usize, None);
            }
        },
        Some((Piece::King, c)) => {
            let home: u8 = match c {
                Color::White => 4,
                Color::Black => 60,
            };
            if mv.from == home && mv.to == home + 2 {
                let rook = board.squares[(home + 3) as usize];
                ns.set((home + 3) as usize, None);
                ns.set((home + 1) as usize, rook);
            } else if mv.from == home && mv.to == home - 2 {
                let rook = board.squares[(home - 4) as usize];
                ns.set((home - 4) as usize, None);
                ns.set((home - 1) as usize, rook);
            }
        },
        _ => {},
    }
    proof {
        assert(ns@ =~= apply_squares(board, *mv));
    }
    ns
}

/// The first square, scanning from `i` upward, that holds the king of `c`.
pub open spec fn find_king_from(s: Seq<Option<(Piece, Color)>>, c: Color, i: int) -> Option<int>
    decreases (if i < 64 {
        64 - i
    } else {
        0
    }),
{
    if !(0 <= i < 64) {
        None
    } else if s[i] == Some((Piece::King, c)) {
        Some(i)
    } else {
        find_king_from(s, c, i + 1)
    }
}

/// Whether applying the move leaves the mover's own king attacked: the move
/// is applied to a scratch table (including the en-passant pawn removal and
/// the castling rook relocation), the mover's first king is located, and the
/// opponent's attack on it is decided. A position without that king is not
/// "in check".
pub open spec fn leaves_in_check(b: &Board, mv: Move) -> bool {
    let s2 = apply_squares(b, mv);
    match occ(b, mv.from as int) {
        Some((p, c)) => match find_king_from(s2, c, 0) {
            Some(k) => sq_attacked(s2, k, c),
            None => false,
        },
        None => false,
    }
}

/// Check if a move leaves the mover's king in check, on a scratch copy of the
/// board.
fn leaves_king_in_check(board: &Board, mv: &Move) -> (r: bool)
    requires
        board_ok(board),
        mv.from < 64,
        mv.to < 64,
    ensures
        r == leaves_in_check(board, *mv),
{
    let (mover_piece, mover) = match board.squares[mv.from as usize] {
        Some((p, c)) => (p, c),
        None => {
            return false;
        },
    };
    proof {
        assert(occ(board, mv.from as int) == Some((mover_piece, mover)));
    }
    let new_squares = apply_move_squares(board, mv);
    let new_board = Board {
        squares: new_squares,
        side_to_move: board.side_to_move,
        castling_rights: board.castling_rights.clone(),
        en_passant: board.en_passant,
        halfmove_clock: board.halfmove_clock,
        fullmove_number: board.fullmove_number,
    };
    let ghost s2 = new_board.squares@;

    let mut i: u8 = 0;
    while i < 64
        invariant
            board_ok(board),
            board_ok(&new_board),
            mv.from < 64,
            mv.to < 64,
            s2 == new_board.squares@,
            s2 == apply_squares(board, *mv),
            occ(board, mv.from as int) == Some((mover_piece, mover)),
            i <= 64,
            find_king_from(s2, mover, 0) == find_king_from(s2, mover, i as int),
        decreases 64 - i,
    {
        let is_king = match new_board.squares[i as usize] {
            Some((p, kc)) => match p {
                Piece::King => kc == mover,
                _ => false,
            },
            None => false,
        };
        if is_king {
            proof {
                assert(find_king_from(s2, mover, i as int) == Some(i as int));
                assert(find_king_from(s2, mover, 0) == Some(i as int));
            }
            return is_square_attacked(&new_board, i, mover);
        }
        i = i + 1;
    }
    proof {
        assert(find_king_from(s2, mover, 64) is None);
    }
    false
}

/// Check if a square is attacked by any piece of a color other than `color`.
/// Blocker-aware for the sliding pieces, as every call site requires.
fn is_square_attacked(board: &Board, sq: u8, color: Color) -> (r: bool)
    requires
        board_ok(board),
        sq < 64,
    ensures
        r == sq_attacked(board.squares@, sq as int, color),
{
    crate::move_gen::is_square_attacked(board, sq, color)
}

// ---------------------------------------------------------------------------
// Per-piece move validity and the legality filter
// ---------------------------------------------------------------------------

/// Whether the sequence of moves holds this move.
fn contains_move(moves: &Vec<Move>, mv: &Move) -> (r: bool)
    ensures
        r == moves@.contains(*mv),
{
    let mut i: usize = 0;
    while i < moves.len()
        invariant
            i <= moves@.len(),
            forall|j: int| 0 <= j < i ==> moves@[j] != *mv,
        decreases moves@.len() - i,
    {
        let m = moves[i];
        if m.from == mv.from && m.to == mv.to && promo_eq(m.promotion, mv.promotion) {
            proof {
                assert(moves@[i as int] == *mv);
            }
            return true;
        }
        i = i + 1;
    }
    false
}

/// Promotion fields compared by value.
fn promo_eq(a: Option<Piece>, b: Option<Piece>) -> (r: bool)
    ensures
        r == (a == b),
{
    match (a, b) {
        (None, None) => true,
        (Some(x), Some(y)) => x == y,
        _ => false,
    }
}

/// Whether the move obeys the movement rule of the piece standing on its
/// origin square: its pseudo-legal validity.
pub open spec fn valid_piece_move_spec(b: &Board, mv: Move) -> bool {
    mv.from < 64 && match occ(b, mv.from as int) {
        Some((p, c)) => pseudo_legal_move(b, p, c, mv),
        None => false,
    }
}

/// Validate pawn moves: membership in the pawn's pseudo-legal move set.
fn is_valid_pawn_move(board: &Board, mv: &Move, color: Color) -> (r: bool)
    requires
        board_ok(board),
        mv.from < 64,
    ensures
        r == crate::move_gen::pawn_move(board.squares@, board.en_passant, color, *mv),
{
    let moves = generate_pawn_moves(board, color, mv.from);
    contains_move(&moves, mv)
}

/// Validate knight moves: membership in the knight's pseudo-legal move set.
fn is_valid_knight_move(board: &Board, mv: &Move, color: Color) -> (r: bool)
    requires
        board_ok(board),
        mv.from < 64,
    ensures
        r == crate::move_gen::knight_move(board.squares@, color, *mv),
{
    let moves = generate_knight_moves(board, color, mv.from);
    contains_move(&moves, mv)
}

/// Validate bishop moves: membership in the bishop's pseudo-legal move set.
fn is_valid_bishop_move(board: &Board, mv: &Move, color: Color) -> (r: bool)
    requires
        board_ok(board),
        mv.from < 64,
    ensures
        r == crate::move_gen::bishop_move(board.squares@, color, *mv),
{
    let moves = generate_bishop_moves(board, color, mv.from);
    contains_move(&moves, mv)
}

/// Validate rook moves: membership in the rook's pseudo-legal move set.
fn is_valid_rook_move(board: &Board, mv: &Move, color: Color) -> (r: bool)
    requires
        board_ok(board),
        mv.from < 64,
    ensures
        r == crate::move_gen::rook_move(board.squares@, color, *mv),
{
    let moves = generate_rook_moves(board, color, mv.from);
    contains_move(&moves, mv)
}

/// Validate queen moves: membership in the queen's pseudo-legal move set.
fn is_valid_queen_move(board: &Board, mv: &Move, color: Color) -> (r: bool)
    requires
        board_ok(board),
        mv.from < 64,
    ensures
        r == crate::move_gen::queen_move(board.squares@, color, *mv),
{
    let mut moves = generate_rook_moves(board, color, mv.from);
    let ghost rook_part = moves@;
    let mut diag = generate_bishop_moves(board, color, mv.from);
    let ghost diag_part = diag@;
    moves.append(&mut diag);
    proof {
        crate::move_gen::lemma_contains_concat(rook_part, diag_part);
        assert(moves@ == rook_part + diag_part);
    }
    contains_move(&moves, mv)
}

/// Validate king moves, castling included: membership in the king's
/// pseudo-legal move set.
fn is_valid_king_move(board: &Board, mv: &Move, color: Color) -> (r: bool)
    requires
        board_ok(board),
        mv.from < 64,
    ensures
        r == crate::move_gen::king_move(board.squares@, board.castling_rights@, color, *mv),
{
    let moves = generate_king_moves(board, color, mv.from);
    contains_move(&moves, mv)
}

/// Validate castling rules: the move is a two-square king move from the
/// king's starting square, and the corresponding castling evaluation allows it.
fn is_valid_castling(board: &Board, mv: &Move) -> (r: bool)
    requires
        board_ok(board),
        mv.from < 64,
        mv.to < 64,
    ensures
        r == (match occ(board, mv.from as int) {
            Some((p, c)) => p == Piece::King && mv.from as int == king_home_sq(c) && ((mv.to as int
                == mv.from as int + 2 && can_castle_ks(board.squares@, board.castling_rights@, c))
                || (mv.to as int == mv.from as int - 2 && can_castle_qs(
                board.squares@,
                board.castling_rights@,
                c,
            ))),
            None => false,
        }),
{
    match board.squares[mv.from as usize] {
        Some((Piece::King, c)) => {
            let home: u8 = match c {
                Color::White => 4,
                Color::Black => 60,
            };
            if mv.from != home {
                return false;
            }
            if mv.to == home + 2 {
                crate::move_gen::can_castle_kingside(board, c)
            } else if mv.to + 2 == home {
                crate::move_gen::can_castle_queenside(board, c)
            } else {
                false
            }
        },
        _ => false,
    }
}

/// Check if a move adheres to the rules of the piece on its origin square.
fn is_valid_piece_move(board: &Board, mv: &Move) -> (r: bool)
    requires
        board_ok(board),
        mv.from < 64,
    ensures
        r == valid_piece_move_spec(board, *mv),
{
    match board.squares[mv.from as usize] {
        Some((piece, color)) => match piece {
            Piece::Pawn => is_valid_pawn_move(board, mv, color),
            Piece::Knight => is_valid_knight_move(board, mv, color),
            Piece::Bishop => is_valid_bishop_move(board, mv, color),
            Piece::Rook => is_valid_rook_move(board, mv, color),
            Piece::Queen => is_valid_queen_move(board, mv, color),
            Piece::King => is_valid_king_move(board, mv, color),
        },
        None => false,
    }
}

/// A legal move: pseudo-legal for the piece on its origin square, and not
/// leaving the mover's own king attacked afterward.
pub open spec fn legal_move_spec(b: &Board, mv: Move) -> bool {
    mv.from < 64 && mv.to < 64 && valid_piece_move_spec(b, mv) && !leaves_in_check(b, mv)
}

/// Check if a move is legal. Out-of-range squares and empty origins yield
/// `false` rather than an error, so a caller probing arbitrary candidate
/// moves is never stopped.
pub fn is_legal_move(board: &Board, mv: &Move) -> (r: bool)
    requires
        board_ok(board),
    ensures
        r == legal_move_spec(board, *mv),
{
    if mv.from >= 64 || mv.to >= 64 {
        return false;
    }
    // Ensure the move adheres to the rules of the piece
    if !is_valid_piece_move(board, mv) {
        return false;
    }
    // Ensure the move does not leave the king in check
    if leaves_king_in_check(board, mv) {
        return false;
    }
    true
}

} // verus!
