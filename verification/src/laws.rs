//! Laws of the move generator, stated and proved over the same predicates the
//! generators' contracts use.

use vstd::prelude::*;
use crate::types::{Board, Color, Move, Piece};
use crate::types::{board_ok, file_of, on_board, rank_of, square_at};
use crate::move_gen::{
    bishop_dir, bishop_reach, empty_sq, has_color, lemma_coords_sq, lemma_ray_coords,
    lemma_sq_coords, pawn_move, piece_attacks, pseudo_legal_move, ray_on, ray_sq, rook_dir,
    rook_reach, slide_to,
};
use crate::pgn::empty64;

verus! {

/// No self-capture: a pseudo-legal move never lands on a piece of the mover's
/// own color. The en-passant target square must be empty, as the position
/// model demands of it.
pub proof fn lemma_no_self_capture(b: &Board, p: Piece, c: Color, m: Move)
    requires
        board_ok(b),
        match b.en_passant {
            Some(e) => e < 64 && empty_sq(b.squares@, e as int),
            None => true,
        },
        pseudo_legal_move(b, p, c, m),
    ensures
        !has_color(b.squares@, m.to as int, c),
{
    match p {
        Piece::Pawn => {
            assert(pawn_move(b.squares@, b.en_passant, c, m));
        },
        _ => {},
    }
}

/// Every square within `k` steps of an on-board ray stays on the board.
proof fn lemma_ray_on_range(from: int, dr: int, df: int, k: int, j: int)
    requires
        on_board(from),
        -1 <= dr <= 1,
        -1 <= df <= 1,
        0 <= j <= k,
        ray_on(from, dr, df, k),
    ensures
        ray_on(from, dr, df, j),
{
    lemma_sq_coords(from);
    assert(0 <= rank_of(from) + j * dr < 8) by (nonlinear_arith)
        requires
            -1 <= dr <= 1 && 0 <= j <= k && 0 <= rank_of(from) < 8 && 0 <= rank_of(from) + k * dr
                < 8,
    ;
    assert(0 <= file_of(from) + j * df < 8) by (nonlinear_arith)
        requires
            -1 <= df <= 1 && 0 <= j <= k && 0 <= file_of(from) < 8 && 0 <= file_of(from) + k * df
                < 8,
    ;
}

/// A blocker-aware slide also exists on the empty board.
proof fn lemma_slide_to_empty(
    s: Seq<Option<(Piece, Color)>>,
    from: int,
    dr: int,
    df: int,
    to: int,
)
    requires
        on_board(from),
        -1 <= dr <= 1,
        -1 <= df <= 1,
        slide_to(s, from, dr, df, to),
    ensures
        slide_to(empty64(), from, dr, df, to),
{
    let k = choose|k: int|
        1 <= k && #[trigger] ray_sq(from, dr, df, k) == to && ray_on(from, dr, df, k) && (forall|
            j: int,
        |
            1 <= j < k ==> empty_sq(s, ray_sq(from, dr, df, j)));
    assert forall|j: int| 1 <= j < k implies empty_sq(empty64(), #[trigger] ray_sq(from, dr, df, j)) by {
        lemma_ray_on_range(from, dr, df, k, j);
        lemma_ray_coords(from, dr, df, j);
    }
    assert(1 <= k && ray_sq(from, dr, df, k) == to && ray_on(from, dr, df, k) && (forall|j: int|
        1 <= j < k ==> empty_sq(empty64(), ray_sq(from, dr, df, j))));
}

/// Attack symmetry for non-pawns: a piece that attacks a square on the real
/// board, blockers and all, also reaches that square on an otherwise empty
/// board under its movement rule with the friendly-occupancy filter removed.
pub proof fn lemma_attack_within_empty_reach(
    s: Seq<Option<(Piece, Color)>>,
    p: Piece,
    c: Color,
    from: int,
    to: int,
)
    requires
        p != Piece::Pawn,
        on_board(from),
        piece_attacks(s, p, c, from, to),
    ensures
        piece_attacks(empty64(), p, c, from, to),
{
    match p {
        Piece::Bishop => {
            let (dr, df) = choose|dr: int, df: int|
                bishop_dir(dr, df) && #[trigger] slide_to(s, from, dr, df, to);
            lemma_slide_to_empty(s, from, dr, df, to);
        },
        Piece::Rook => {
            let (dr, df) = choose|dr: int, df: int|
                rook_dir(dr, df) && #[trigger] slide_to(s, from, dr, df, to);
            lemma_slide_to_empty(s, from, dr, df, to);
        },
        Piece::Queen => {
            if bishop_reach(s, from, to) {
                let (dr, df) = choose|dr: int, df: int|
                    bishop_dir(dr, df) && #[trigger] slide_to(s, from, dr, df, to);
                lemma_slide_to_empty(s, from, dr, df, to);
            } else {
                let (dr, df) = choose|dr: int, df: int|
                    rook_dir(dr, df) && #[trigger] slide_to(s, from, dr, df, to);
                lemma_slide_to_empty(s, from, dr, df, to);
            }
        },
        _ => {},
    }
}

/// A square strictly between two squares on their common straight or diagonal
/// line: collinear with both (zero cross product) and inside the bounding box,
/// excluding the endpoints.
pub open spec fn strictly_between(from: int, to: int, sq: int) -> bool {
    on_board(from) && on_board(to) && on_board(sq) && sq != from && sq != to && {
        let dr = rank_of(to) - rank_of(from);
        let df = file_of(to) - file_of(from);
        let qr = rank_of(sq) - rank_of(from);
        let qf = file_of(sq) - file_of(from);
        qr * df == qf * dr && (0 <= qr <= dr || dr <= qr <= 0) && (0 <= qf <= df || df <= qf <= 0)
    }
}

/// Sliding containment: a generated bishop, rook or queen move never jumps
/// over a piece — every square strictly between its origin and destination is
/// empty.
pub proof fn lemma_sliding_containment(b: &Board, p: Piece, c: Color, m: Move, sq: int)
    requires
        board_ok(b),
        p == Piece::Bishop || p == Piece::Rook || p == Piece::Queen,
        pseudo_legal_move(b, p, c, m),
        strictly_between(m.from as int, m.to as int, sq),
    ensures
        empty_sq(b.squares@, sq),
{
    let s = b.squares@;
    let from = m.from as int;
    let to = m.to as int;
    lemma_sq_coords(from);
    lemma_sq_coords(to);
    lemma_sq_coords(sq);
    assert(bishop_reach(s, from, to) || rook_reach(s, from, to));
    let (udr, udf): (int, int) = if bishop_reach(s, from, to) {
        choose|a: int, b2: int| bishop_dir(a, b2) && #[trigger] slide_to(s, from, a, b2, to)
    } else {
        choose|a: int, b2: int| rook_dir(a, b2) && #[trigger] slide_to(s, from, a, b2, to)
    };
    assert(slide_to(s, from, udr, udf, to) && -1 <= udr <= 1 && -1 <= udf <= 1 && !(udr == 0 && udf
        == 0));
    let k = choose|k: int|
        1 <= k && #[trigger] ray_sq(from, udr, udf, k) == to && ray_on(from, udr, udf, k) && (
        forall|j: int| 1 <= j < k ==> empty_sq(s, ray_sq(from, udr, udf, j)));
    lemma_ray_coords(from, udr, udf, k);
    let qr = rank_of(sq) - rank_of(from);
    let qf = file_of(sq) - file_of(from);
    if qr == 0 && qf == 0 {
        assert(sq == square_at(rank_of(from), file_of(from)));
        assert(false);
    }
    if qr == k * udr && qf == k * udf {
        assert(sq == square_at(rank_of(to), file_of(to)));
        assert(false);
    }
    let j = if udr != 0 {
        qr * udr
    } else {
        qf * udf
    };
    assert(qr == j * udr && qf == j * udf && 1 <= j < k) by (nonlinear_arith)
        requires
            -1 <= udr <= 1,
            -1 <= udf <= 1,
            !(udr == 0 && udf == 0),
            k >= 1,
            j == (if udr != 0 {
                qr * udr
            } else {
                qf * udf
            }),
            qr * (k * udf) == qf * (k * udr),
            (0 <= qr <= k * udr || k * udr <= qr <= 0),
            (0 <= qf <= k * udf || k * udf <= qf <= 0),
            !(qr == 0 && qf == 0),
            !(qr == k * udr && qf == k * udf),
    ;
    lemma_coords_sq(rank_of(from) + j * udr, file_of(from) + j * udf);
    assert(sq == ray_sq(from, udr, udf, j));
    assert(empty_sq(s, ray_sq(from, udr, udf, j)));
}

} // verus!
