//! Move generation: bit-mask primitives, edge-ray attack tables, per-piece
//! pseudo-legal move enumeration, castling evaluation, and blocker-aware
//! attacked-square detection.

use vstd::prelude::*;
use crate::types::{Board, Color, Move, Piece};
use crate::types::{board_ok, file_of, occ, on_board, rank_of, square_at};

verus! {

// ---------------------------------------------------------------------------
// Coordinate arithmetic
// ---------------------------------------------------------------------------

/// `square_at` and `rank_of`/`file_of` are inverse on the board.
pub proof fn lemma_sq_coords(sq: int)
    requires
        on_board(sq),
    ensures
        0 <= rank_of(sq) < 8,
        0 <= file_of(sq) < 8,
        square_at(rank_of(sq), file_of(sq)) == sq,
{
    vstd::arithmetic::div_mod::lemma_fundamental_div_mod(sq, 8);
}

/// The coordinates of `square_at(r, f)` are `r` and `f` again.
pub proof fn lemma_coords_sq(r: int, f: int)
    requires
        0 <= r < 8,
        0 <= f < 8,
    ensures
        on_board(square_at(r, f)),
        rank_of(square_at(r, f)) == r,
        file_of(square_at(r, f)) == f,
{
    vstd::arithmetic::div_mod::lemma_fundamental_div_mod_converse(8 * r + f, 8, r, f);
}

// ---------------------------------------------------------------------------
// Movement rules as predicates over the square table
// ---------------------------------------------------------------------------

/// Whether a square of the table is empty.
pub open spec fn empty_sq(s: Seq<Option<(Piece, Color)>>, sq: int) -> bool {
    s[sq] is None
}

/// Whether a square of the table holds a piece of color `c`.
pub open spec fn has_color(s: Seq<Option<(Piece, Color)>>, sq: int, c: Color) -> bool {
    match s[sq] {
        Some((p, pc)) => pc == c,
        None => false,
    }
}

/// Whether a square of the table holds a piece of some color other than `c`.
pub open spec fn has_enemy(s: Seq<Option<(Piece, Color)>>, sq: int, c: Color) -> bool {
    match s[sq] {
        Some((p, pc)) => pc != c,
        None => false,
    }
}

/// A knight jump: rank and file deltas are (2, 1) or (1, 2).
pub open spec fn knight_jump(from: int, to: int) -> bool {
    on_board(from) && on_board(to) && {
        let dr = vstd::math::abs(rank_of(to) - rank_of(from));
        let df = vstd::math::abs(file_of(to) - file_of(from));
        (dr == 2 && df == 1) || (dr == 1 && df == 2)
    }
}

/// A single king step: both deltas at most 1, not staying in place.
pub open spec fn king_step(from: int, to: int) -> bool {
    on_board(from) && on_board(to) && vstd::math::abs(rank_of(to) - rank_of(from)) <= 1
        && vstd::math::abs(file_of(to) - file_of(from)) <= 1 && from != to
}

/// The square `k` steps from `from` in direction `(dr, df)` (rank/file deltas).
pub open spec fn ray_sq(from: int, dr: int, df: int, k: int) -> int {
    square_at(rank_of(from) + k * dr, file_of(from) + k * df)
}

/// Whether the square `k` steps from `from` in direction `(dr, df)` is on the board.
pub open spec fn ray_on(from: int, dr: int, df: int, k: int) -> bool {
    0 <= rank_of(from) + k * dr < 8 && 0 <= file_of(from) + k * df < 8
}

/// Blocker-aware reach in one direction: `to` is some positive number of steps
/// away along `(dr, df)`, on the board, and every square strictly between is
/// empty. The occupancy of `to` itself is not constrained here.
pub open spec fn slide_to(
    s: Seq<Option<(Piece, Color)>>,
    from: int,
    dr: int,
    df: int,
    to: int,
) -> bool {
    exists|k: int|
        1 <= k && #[trigger] ray_sq(from, dr, df, k) == to && ray_on(from, dr, df, k) && (forall|
            j: int,
        |
            1 <= j < k ==> empty_sq(s, ray_sq(from, dr, df, j)))
}

/// The four diagonal step directions.
pub open spec fn bishop_dir(dr: int, df: int) -> bool {
    (dr == -1 || dr == 1) && (df == -1 || df == 1)
}

/// The four orthogonal step directions.
pub open spec fn rook_dir(dr: int, df: int) -> bool {
    (dr == 0 && (df == -1 || df == 1)) || (df == 0 && (dr == -1 || dr == 1))
}

/// Blocker-aware diagonal reach.
pub open spec fn bishop_reach(s: Seq<Option<(Piece, Color)>>, from: int, to: int) -> bool {
    exists|dr: int, df: int| bishop_dir(dr, df) && #[trigger] slide_to(s, from, dr, df, to)
}

/// Blocker-aware orthogonal reach.
pub open spec fn rook_reach(s: Seq<Option<(Piece, Color)>>, from: int, to: int) -> bool {
    exists|dr: int, df: int| rook_dir(dr, df) && #[trigger] slide_to(s, from, dr, df, to)
}

/// Blocker-aware reach along any straight or diagonal line.
pub open spec fn queen_reach(s: Seq<Option<(Piece, Color)>>, from: int, to: int) -> bool {
    bishop_reach(s, from, to) || rook_reach(s, from, to)
}

/// Pawn forward direction: +1 rank for White, -1 for Black.
pub open spec fn pawn_dir(c: Color) -> int {
    match c {
        Color::White => 1,
        Color::Black => -1,
    }
}

/// The rank a pawn double-pushes from.
pub open spec fn pawn_start_rank(c: Color) -> int {
    match c {
        Color::White => 1,
        Color::Black => 6,
    }
}

/// The opponent's back rank, where a pawn promotes.
pub open spec fn back_rank(c: Color) -> int {
    match c {
        Color::White => 7,
        Color::Black => 0,
    }
}

/// The king's starting square (e1 for White, e8 for Black).
pub open spec fn king_home_sq(c: Color) -> int {
    match c {
        Color::White => 4,
        Color::Black => 60,
    }
}

/// The pieces a pawn may promote to.
pub open spec fn promo_choice(p: Piece) -> bool {
    p == Piece::Knight || p == Piece::Bishop || p == Piece::Rook || p == Piece::Queen
}

/// A move to the opponent's back rank must carry a promotion piece; any other
/// move carries none.
pub open spec fn promo_ok(c: Color, to: int, promo: Option<Piece>) -> bool {
    if rank_of(to) == back_rank(c) {
        match promo {
            Some(p) => promo_choice(p),
            None => false,
        }
    } else {
        promo is None
    }
}

/// A pawn capture direction: one rank forward, one file sideways.
pub open spec fn pawn_diag(c: Color, from: int, to: int) -> bool {
    on_board(from) && on_board(to) && rank_of(to) == rank_of(from) + pawn_dir(c) && vstd::math::abs(
        file_of(to) - file_of(from),
    ) == 1
}

/// A pseudo-legal pawn move: single push to an empty square, double push from
/// the starting rank through an empty square, diagonal capture of an enemy
/// piece, or en-passant capture onto the recorded target square; a move that
/// lands on the opponent's back rank carries one of the four promotion pieces.
pub open spec fn pawn_move(
    s: Seq<Option<(Piece, Color)>>,
    ep: Option<u8>,
    c: Color,
    m: Move,
) -> bool {
    let from = m.from as int;
    let to = m.to as int;
    let d = pawn_dir(c);
    on_board(from) && on_board(to) && promo_ok(c, to, m.promotion) && {
        let push1 = rank_of(to) == rank_of(from) + d && file_of(to) == file_of(from) && empty_sq(
            s,
            to,
        );
        let push2 = rank_of(from) == pawn_start_rank(c) && rank_of(to) == rank_of(from) + 2 * d
            && file_of(to) == file_of(from) && empty_sq(s, square_at(rank_of(from) + d, file_of(from)))
            && empty_sq(s, to);
        let capture = pawn_diag(c, from, to) && has_enemy(s, to, c);
        let ep_capture = pawn_diag(c, from, to) && (match ep {
            Some(e) => e as int == to,
            None => false,
        });
        push1 || push2 || capture || ep_capture
    }
}

/// A pseudo-legal knight move.
pub open spec fn knight_move(s: Seq<Option<(Piece, Color)>>, c: Color, m: Move) -> bool {
    m.promotion is None && knight_jump(m.from as int, m.to as int) && !has_color(
        s,
        m.to as int,
        c,
    )
}

/// A pseudo-legal bishop move: blocker-aware diagonal reach, not onto a friend.
pub open spec fn bishop_move(s: Seq<Option<(Piece, Color)>>, c: Color, m: Move) -> bool {
    m.promotion is None && on_board(m.from as int) && on_board(m.to as int) && bishop_reach(
        s,
        m.from as int,
        m.to as int,
    ) && !has_color(s, m.to as int, c)
}

/// A pseudo-legal rook move: blocker-aware orthogonal reach, not onto a friend.
pub open spec fn rook_move(s: Seq<Option<(Piece, Color)>>, c: Color, m: Move) -> bool {
    m.promotion is None && on_board(m.from as int) && on_board(m.to as int) && rook_reach(
        s,
        m.from as int,
        m.to as int,
    ) && !has_color(s, m.to as int, c)
}

/// A pseudo-legal queen move.
pub open spec fn queen_move(s: Seq<Option<(Piece, Color)>>, c: Color, m: Move) -> bool {
    m.promotion is None && on_board(m.from as int) && on_board(m.to as int) && queen_reach(
        s,
        m.from as int,
        m.to as int,
    ) && !has_color(s, m.to as int, c)
}

/// Whether a piece standing on `from` attacks `to`: blocker-aware reach for
/// sliding pieces, jump patterns for knight and king, and for a pawn the two
/// capture directions only (a pawn does not attack the square it pushes to).
pub open spec fn piece_attacks(
    s: Seq<Option<(Piece, Color)>>,
    p: Piece,
    c: Color,
    from: int,
    to: int,
) -> bool {
    match p {
        Piece::Pawn => pawn_diag(c, from, to),
        Piece::Knight => knight_jump(from, to),
        Piece::Bishop => on_board(from) && on_board(to) && bishop_reach(s, from, to),
        Piece::Rook => on_board(from) && on_board(to) && rook_reach(s, from, to),
        Piece::Queen => on_board(from) && on_board(to) && queen_reach(s, from, to),
        Piece::King => king_step(from, to),
    }
}

/// Whether any piece of a color other than `c` attacks `sq`.
pub open spec fn sq_attacked(s: Seq<Option<(Piece, Color)>>, sq: int, c: Color) -> bool {
    exists|i: int|
        0 <= i < 64 && (match #[trigger] s[i] {
            Some((p, pc)) => pc != c && piece_attacks(s, p, pc, i, sq),
            None => false,
        })
}

/// The castling-rights letter for a side and wing.
pub open spec fn right_char(c: Color, kingside: bool) -> char {
    match c {
        Color::White => if kingside { 'K' } else { 'Q' },
        Color::Black => if kingside { 'k' } else { 'q' },
    }
}

/// Kingside castling is available to `c`: the rights letter is present, the
/// two squares between king and rook are empty, and no square of the king's
/// transit path (origin and the two squares toward the rook) is attacked.
pub open spec fn can_castle_ks(
    s: Seq<Option<(Piece, Color)>>,
    rights: Seq<char>,
    c: Color,
) -> bool {
    let h = king_home_sq(c);
    rights.contains(right_char(c, true)) && empty_sq(s, h + 1) && empty_sq(s, h + 2)
        && !sq_attacked(s, h, c) && !sq_attacked(s, h + 1, c) && !sq_attacked(s, h + 2, c)
}

/// Queenside castling is available to `c`: the rights letter is present, the
/// three squares between king and rook are empty, and no square of the king's
/// transit path is attacked.
pub open spec fn can_castle_qs(
    s: Seq<Option<(Piece, Color)>>,
    rights: Seq<char>,
    c: Color,
) -> bool {
    let h = king_home_sq(c);
    rights.contains(right_char(c, false)) && empty_sq(s, h - 1) && empty_sq(s, h - 2) && empty_sq(
        s,
        h - 3,
    ) && !sq_attacked(s, h, c) && !sq_attacked(s, h - 1, c) && !sq_attacked(s, h - 2, c)
}

/// A pseudo-legal king move: a single step not onto a friend, or a castling
/// move (two squares sideways from the king's starting square).
pub open spec fn king_move(
    s: Seq<Option<(Piece, Color)>>,
    rights: Seq<char>,
    c: Color,
    m: Move,
) -> bool {
    let from = m.from as int;
    let to = m.to as int;
    m.promotion is None && on_board(from) && on_board(to) && ((king_step(from, to) && !has_color(
        s,
        to,
        c,
    )) || (from == king_home_sq(c) && to == from + 2 && can_castle_ks(s, rights, c)) || (from
        == king_home_sq(c) && to == from - 2 && can_castle_qs(s, rights, c)))
}

/// A pseudo-legal move of piece `p` of color `c` on board `b`, from anywhere.
pub open spec fn pseudo_legal_move(b: &Board, p: Piece, c: Color, m: Move) -> bool {
    let s = b.squares@;
    match p {
        Piece::Pawn => pawn_move(s, b.en_passant, c, m),
        Piece::Knight => knight_move(s, c, m),
        Piece::Bishop => bishop_move(s, c, m),
        Piece::Rook => rook_move(s, c, m),
        Piece::Queen => queen_move(s, c, m),
        Piece::King => king_move(s, b.castling_rights@, c, m),
    }
}

/// What `generate_piece_moves(board, piece, sq)` returns: nothing unless `sq`
/// holds exactly `piece`, and otherwise the pseudo-legal moves of that piece
/// from `sq`.
pub open spec fn piece_move_at(b: &Board, piece: Piece, sq: u8, m: Move) -> bool {
    sq < 64 && match occ(b, sq as int) {
        Some((p, c)) => p == piece && m.from == sq && pseudo_legal_move(b, piece, c, m),
        None => false,
    }
}

// ---------------------------------------------------------------------------
// Bit-mask primitive
// ---------------------------------------------------------------------------

/// A 64-bit set over board squares.
#[derive(Clone, Copy, Debug, PartialEq, Eq, Structural)]
pub struct Bitboard(pub u64);

impl Bitboard {
    /// Whether the bit for square `sq` is set.
    pub open spec fn spec_is_set(self, sq: u8) -> bool {
        self.0 & (1u64 << (sq as u64)) != 0
    }

    /// Create an empty bitboard
    pub fn empty() -> (r: Self)
        ensures
            forall|t: u8| t < 64 ==> !r.spec_is_set(t),
    {
        let r = Bitboard(0);
        proof {
            assert forall|t: u8| t < 64 implies !r.spec_is_set(t) by {
                lemma_bit_and_zero(t as u64);
            }
        }
        r
    }

    /// Set a bit at a specific square
    pub fn set(&mut self, sq: u8)
        requires
            sq < 64,
        ensures
            forall|t: u8| t < 64 ==> final(self).spec_is_set(t) == (t == sq
                || old(self).spec_is_set(t)),
    {
        self.0 |= 1u64 << (sq as u64);
        proof {
            assert forall|t: u8| t < 64 implies self.spec_is_set(t) == (t == sq
                || old(self).spec_is_set(t)) by {
                lemma_bit_or_one(old(self).0, sq as u64, t as u64);
            }
        }
    }

    /// Clear a bit at a specific square
    pub fn clear(&mut self, sq: u8)
        requires
            sq < 64,
        ensures
            forall|t: u8| t < 64 ==> final(self).spec_is_set(t) == (t != sq
                && old(self).spec_is_set(t)),
    {
        self.0 &= !(1u64 << (sq as u64));
        proof {
            assert forall|t: u8| t < 64 implies self.spec_is_set(t) == (t != sq
                && old(self).spec_is_set(t)) by {
                lemma_bit_clear_one(old(self).0, sq as u64, t as u64);
            }
        }
    }

    /// Check if a bit is set at a specific square
    pub fn is_set(&self, sq: u8) -> (r: bool)
        requires
            sq < 64,
        ensures
            r == self.spec_is_set(sq),
    {
        (self.0 & (1u64 << (sq as u64))) != 0
    }

    /// Get all set bits as a vector of square indices, in ascending order
    pub fn bits(&self) -> (r: Vec<u8>)
        ensures
            forall|i: int| 0 <= i < r@.len() ==> r@[i] < 64 && self.spec_is_set(r@[i]),
            forall|t: u8| t < 64 && self.spec_is_set(t) ==> r@.contains(t),
            forall|i: int, j: int| 0 <= i < j < r@.len() ==> r@[i] < r@[j],
    {
        let mut bits: Vec<u8> = Vec::new();
        let mut sq: u8 = 0;
        while sq < 64
            invariant
                sq <= 64,
                forall|i: int| 0 <= i < bits@.len() ==> bits@[i] < sq && self.spec_is_set(
                    bits@[i],
                ),
                forall|t: u8| t < sq && self.spec_is_set(t) ==> bits@.contains(t),
                forall|i: int, j: int| 0 <= i < j < bits@.len() ==> bits@[i] < bits@[j],
            decreases 64 - sq,
        {
            let ghost prev = bits@;
            if self.is_set(sq) {
                bits.push(sq);
            }
            proof {
                assert forall|t: u8| t < sq + 1 && self.spec_is_set(t) implies bits@.contains(
                    t,
                ) by {
                    if t < sq {
                        let i = choose|i: int| 0 <= i < prev.len() && prev[i] == t;
                        assert(bits@[i] == t);
                    } else {
                        assert(bits@[bits@.len() - 1] == sq);
                    }
                }
            }
            sq = sq + 1;
        }
        bits
    }

    /// Check if the bitboard contains a specific square
    pub fn contains(&self, sq: u8) -> (r: bool)
        requires
            sq < 64,
        ensures
            r == self.spec_is_set(sq),
    {
        self.0 & (1u64 << (sq as u64)) != 0
    }

    /// The union of two square sets.
    pub fn union(self, rhs: Self) -> (r: Self)
        ensures
            forall|t: u8| t < 64 ==> r.spec_is_set(t) == (self.spec_is_set(t)
                || rhs.spec_is_set(t)),
    {
        let r = Bitboard(self.0 | rhs.0);
        proof {
            assert forall|t: u8| t < 64 implies r.spec_is_set(t) == (self.spec_is_set(t)
                || rhs.spec_is_set(t)) by {
                lemma_bit_or_union(self.0, rhs.0, t as u64);
            }
        }
        r
    }
}

// ---------------------------------------------------------------------------
// Directions and edge rays
// ---------------------------------------------------------------------------

/// The eight step offsets: a direction is `8 * dr + df` for rank/file deltas
/// `dr`, `df` in {-1, 0, 1}, not both zero.
pub open spec fn valid_dir(dir: int) -> bool {
    dir == -9 || dir == -8 || dir == -7 || dir == -1 || dir == 1 || dir == 7 || dir == 8 || dir
        == 9
}

/// The rank delta a step offset intends.
pub open spec fn dir_dr(dir: int) -> int {
    if dir == -9 || dir == -8 || dir == -7 {
        -1
    } else if dir == 7 || dir == 8 || dir == 9 {
        1
    } else {
        0
    }
}

/// The file delta a step offset intends.
pub open spec fn dir_df(dir: int) -> int {
    if dir == -9 || dir == -1 || dir == 7 {
        -1
    } else if dir == -7 || dir == 1 || dir == 9 {
        1
    } else {
        0
    }
}

/// Whether a single step from `sq` along `dir` stays on the board without
/// wrapping across a rank or file edge.
pub open spec fn step_ok(sq: int, dir: int) -> bool {
    0 <= rank_of(sq) + dir_dr(dir) < 8 && 0 <= file_of(sq) + dir_df(dir) < 8
}

/// `to` lies on the unobstructed ray from `from` along `dir`, some positive
/// number of steps away (occupancy is ignored: this is the edge-ray relation).
pub open spec fn on_ray(from: int, dir: int, to: int) -> bool {
    exists|k: int|
        1 <= k && ray_on(from, dir_dr(dir), dir_df(dir), k) && #[trigger] ray_sq(
            from,
            dir_dr(dir),
            dir_df(dir),
            k,
        ) == to
}

/// Coordinates of a ray square, when it is on the board.
pub proof fn lemma_ray_coords(from: int, dr: int, df: int, k: int)
    requires
        ray_on(from, dr, df, k),
    ensures
        on_board(ray_sq(from, dr, df, k)),
        rank_of(ray_sq(from, dr, df, k)) == rank_of(from) + k * dr,
        file_of(ray_sq(from, dr, df, k)) == file_of(from) + k * df,
{
    lemma_coords_sq(rank_of(from) + k * dr, file_of(from) + k * df);
}

/// Step 0 of a ray is its origin.
pub proof fn lemma_ray_zero(from: int, dr: int, df: int)
    requires
        on_board(from),
    ensures
        ray_on(from, dr, df, 0),
        ray_sq(from, dr, df, 0) == from,
{
    lemma_sq_coords(from);
}

/// If steps `k` and `k2 > k` of a ray are on the board, so is step `k + 1`.
pub proof fn lemma_ray_between(from: int, dr: int, df: int, k: int, k2: int)
    requires
        -1 <= dr <= 1,
        -1 <= df <= 1,
        0 <= k < k2,
        ray_on(from, dr, df, k),
        ray_on(from, dr, df, k2),
    ensures
        ray_on(from, dr, df, k + 1),
{
    assert(0 <= rank_of(from) + (k + 1) * dr < 8) by (nonlinear_arith)
        requires
            -1 <= dr <= 1 && 0 <= k < k2 && 0 <= rank_of(from) + k * dr < 8 && 0 <= rank_of(from)
                + k2 * dr < 8,
    ;
    assert(0 <= file_of(from) + (k + 1) * df < 8) by (nonlinear_arith)
        requires
            -1 <= df <= 1 && 0 <= k < k2 && 0 <= file_of(from) + k * df < 8 && 0 <= file_of(from)
                + k2 * df < 8,
    ;
}

/// Step in a direction and return the next square, or None if the step would
/// leave the board or wrap across an edge.
pub fn step_in_direction(sq: i8, dir: i8) -> (r: Option<i8>)
    requires
        0 <= sq < 64,
        valid_dir(dir as int),
    ensures
        r is Some <==> step_ok(sq as int, dir as int),
        r matches Some(n) ==> 0 <= n < 64 && n as int == square_at(
            rank_of(sq as int) + dir_dr(dir as int),
            file_of(sq as int) + dir_df(dir as int),
        ),
{
    let next_sq = sq + dir;

    if next_sq < 0 || next_sq >= 64 {
        proof {
            lemma_step_target(sq as int, dir as int);
        }
        return None;
    }
    let from_rank = (sq as u8) / 8;
    let from_file = (sq as u8) % 8;
    let to_rank = (next_sq as u8) / 8;
    let to_file = (next_sq as u8) % 8;

    let (want_dr, want_df): (i8, i8) = match dir {
        -9 => (-1, -1),
        -8 => (-1, 0),
        -7 => (-1, 1),
        -1 => (0, -1),
        1 => (0, 1),
        7 => (1, -1),
        8 => (1, 0),
        _ => (1, 1),
    };
    proof {
        lemma_step_target(sq as int, dir as int);
    }
    if (to_rank as i8) - (from_rank as i8) == want_dr && (to_file as i8) - (from_file as i8)
        == want_df {
        Some(next_sq)
    } else {
        None
    }
}

/// A single step along `dir` stays on the board exactly when the target's
/// coordinates move by the intended deltas; the target is then `sq + dir`.
proof fn lemma_step_target(sq: int, dir: int)
    requires
        on_board(sq),
        valid_dir(dir),
    ensures
        step_ok(sq, dir) ==> on_board(sq + dir) && rank_of(sq + dir) == rank_of(sq) + dir_dr(dir)
            && file_of(sq + dir) == file_of(sq) + dir_df(dir) && sq + dir == square_at(
            rank_of(sq) + dir_dr(dir),
            file_of(sq) + dir_df(dir),
        ),
        !step_ok(sq, dir) && on_board(sq + dir) ==> rank_of(sq + dir) != rank_of(sq) + dir_dr(dir)
            || file_of(sq + dir) != file_of(sq) + dir_df(dir),
{
    lemma_sq_coords(sq);
    if step_ok(sq, dir) {
        lemma_coords_sq(rank_of(sq) + dir_dr(dir), file_of(sq) + dir_df(dir));
    }
    if !step_ok(sq, dir) && on_board(sq + dir) {
        lemma_sq_coords(sq + dir);
        if rank_of(sq + dir) == rank_of(sq) + dir_dr(dir) && file_of(sq + dir) == file_of(sq)
            + dir_df(dir) {
            assert(false);
        }
    }
}

/// How far a walk along `dir` can still go before leaving the board: the sum
/// of the distances to the edges it moves toward.
pub open spec fn edge_dist(cur: int, dir: int) -> int {
    (if dir_dr(dir) > 0 {
        7 - rank_of(cur)
    } else if dir_dr(dir) < 0 {
        rank_of(cur)
    } else {
        7
    }) + (if dir_df(dir) > 0 {
        7 - file_of(cur)
    } else if dir_df(dir) < 0 {
        file_of(cur)
    } else {
        7
    })
}

/// Walk the unobstructed ray from `sq` along `dir`, setting every traversed
/// square's bit.
fn walk_dir(attacks: &mut Bitboard, sq: u8, dir: i8)
    requires
        sq < 64,
        valid_dir(dir as int),
    ensures
        forall|t: u8|
            t < 64 ==> final(attacks).spec_is_set(t) == (old(attacks).spec_is_set(t) || on_ray(
                sq as int,
                dir as int,
                t as int,
            )),
{
    let ghost from = sq as int;
    let ghost d = dir as int;
    let mut current_sq: i8 = sq as i8;
    let ghost mut k: int = 0;
    proof {
        lemma_ray_zero(from, dir_dr(d), dir_df(d));
    }
    loop
        invariant
            sq < 64,
            valid_dir(d),
            d == dir as int,
            from == sq as int,
            k >= 0,
            ray_on(from, dir_dr(d), dir_df(d), k),
            current_sq as int == ray_sq(from, dir_dr(d), dir_df(d), k),
            0 <= current_sq < 64,
            forall|t: u8|
                t < 64 ==> attacks.spec_is_set(t) == (old(attacks).spec_is_set(t) || (exists|
                    k2: int,
                |
                    1 <= k2 <= k && ray_on(from, dir_dr(d), dir_df(d), k2) && #[trigger] ray_sq(
                        from,
                        dir_dr(d),
                        dir_df(d),
                        k2,
                    ) == t as int)),
        ensures
            forall|t: u8|
                t < 64 ==> attacks.spec_is_set(t) == (old(attacks).spec_is_set(t) || on_ray(
                    from,
                    d,
                    t as int,
                )),
        decreases edge_dist(current_sq as int, d),
    {
        proof {
            lemma_ray_coords(from, dir_dr(d), dir_df(d), k);
        }
        match step_in_direction(current_sq, dir) {
            None => {
                proof {
                    assert forall|t: u8|
                        t < 64 && on_ray(from, d, t as int) implies (exists|k2: int|
                        1 <= k2 <= k && ray_on(from, dir_dr(d), dir_df(d), k2) && #[trigger] ray_sq(
                            from,
                            dir_dr(d),
                            dir_df(d),
                            k2,
                        ) == t as int) by {
                        let k2 = choose|k2: int|
                            1 <= k2 && ray_on(from, dir_dr(d), dir_df(d), k2) && #[trigger] ray_sq(
                                from,
                                dir_dr(d),
                                dir_df(d),
                                k2,
                            ) == t as int;
                        if k2 > k {
                            lemma_ray_between(from, dir_dr(d), dir_df(d), k, k2);
                            lemma_ray_coords(from, dir_dr(d), dir_df(d), k + 1);
                            lemma_ray_coords(from, dir_dr(d), dir_df(d), k);
                            assert((k + 1) * dir_dr(d) == k * dir_dr(d) + dir_dr(d))
                                by (nonlinear_arith);
                            assert((k + 1) * dir_df(d) == k * dir_df(d) + dir_df(d))
                                by (nonlinear_arith);
                            assert(step_ok(current_sq as int, d));
                            assert(false);
                        }
                    }
                    assert forall|t: u8|
                        t < 64 implies attacks.spec_is_set(t) == (old(attacks).spec_is_set(t)
                        || on_ray(from, d, t as int)) by {
                        if exists|k2: int|
                            1 <= k2 <= k && ray_on(from, dir_dr(d), dir_df(d), k2)
                                && #[trigger] ray_sq(from, dir_dr(d), dir_df(d), k2) == t as int {
                            let k2 = choose|k2: int|
                                1 <= k2 <= k && ray_on(from, dir_dr(d), dir_df(d), k2)
                                    && #[trigger] ray_sq(from, dir_dr(d), dir_df(d), k2) == t
                                    as int;
                            assert(on_ray(from, d, t as int));
                        }
                    }
                }
                break ;
            },
            Some(n) => {
                proof {
                    assert((k + 1) * dir_dr(d) == k * dir_dr(d) + dir_dr(d)) by (nonlinear_arith);
                    assert((k + 1) * dir_df(d) == k * dir_df(d) + dir_df(d)) by (nonlinear_arith);
                }
                attacks.set(n as u8);
                current_sq = n;
                proof {
                    k = k + 1;
                    assert(ray_sq(from, dir_dr(d), dir_df(d), k) == current_sq as int);
                    lemma_ray_coords(from, dir_dr(d), dir_df(d), k);
                    assert forall|t: u8|
                        t < 64 implies attacks.spec_is_set(t) == (old(attacks).spec_is_set(t) || (
                        exists|k2: int|
                            1 <= k2 <= k && ray_on(from, dir_dr(d), dir_df(d), k2)
                                && #[trigger] ray_sq(from, dir_dr(d), dir_df(d), k2) == t
                                as int)) by {
                        if t as int == ray_sq(from, dir_dr(d), dir_df(d), k) {
                            assert(ray_on(from, dir_dr(d), dir_df(d), k));
                        } else {
                            if exists|k2: int|
                                1 <= k2 <= k && ray_on(from, dir_dr(d), dir_df(d), k2)
                                    && #[trigger] ray_sq(from, dir_dr(d), dir_df(d), k2) == t
                                    as int {
                                let k2 = choose|k2: int|
                                    1 <= k2 <= k && ray_on(from, dir_dr(d), dir_df(d), k2)
                                        && #[trigger] ray_sq(from, dir_dr(d), dir_df(d), k2) == t
                                        as int;
                                assert(1 <= k2 <= k - 1 || k2 == k);
                            }
                        }
                    }
                }
            },
        }
    }
}

/// Two distinct squares on the same rank or file.
pub open spec fn same_line(a: int, b: int) -> bool {
    a != b && (rank_of(a) == rank_of(b) || file_of(a) == file_of(b))
}

/// Two distinct squares on a common diagonal.
pub open spec fn same_diag(a: int, b: int) -> bool {
    a != b && vstd::math::abs(rank_of(a) - rank_of(b)) == vstd::math::abs(
        file_of(a) - file_of(b),
    )
}

/// The four orthogonal edge rays from a square cover exactly the other
/// squares of its rank and file.
proof fn lemma_rook_rays(from: int, t: int)
    requires
        on_board(from),
        on_board(t),
    ensures
        (on_ray(from, -8, t) || on_ray(from, -1, t) || on_ray(from, 1, t) || on_ray(from, 8, t))
            <==> same_line(from, t),
{
    lemma_sq_coords(from);
    lemma_sq_coords(t);
    if on_ray(from, -8, t) || on_ray(from, -1, t) || on_ray(from, 1, t) || on_ray(from, 8, t) {
        if on_ray(from, -8, t) {
            let k = choose|k: int|
                1 <= k && ray_on(from, dir_dr(-8), dir_df(-8), k) && #[trigger] ray_sq(
                    from,
                    dir_dr(-8),
                    dir_df(-8),
                    k,
                ) == t;
            lemma_ray_coords(from, -1, 0, k);
            assert(k * -1 == -k && k * 0 == 0) by (nonlinear_arith);
        } else if on_ray(from, -1, t) {
            let k = choose|k: int|
                1 <= k && ray_on(from, dir_dr(-1), dir_df(-1), k) && #[trigger] ray_sq(
                    from,
                    dir_dr(-1),
                    dir_df(-1),
                    k,
                ) == t;
            lemma_ray_coords(from, 0, -1, k);
            assert(k * -1 == -k && k * 0 == 0) by (nonlinear_arith);
        } else if on_ray(from, 1, t) {
            let k = choose|k: int|
                1 <= k && ray_on(from, dir_dr(1), dir_df(1), k) && #[trigger] ray_sq(
                    from,
                    dir_dr(1),
                    dir_df(1),
                    k,
                ) == t;
            lemma_ray_coords(from, 0, 1, k);
            assert(k * 1 == k && k * 0 == 0) by (nonlinear_arith);
        } else {
            let k = choose|k: int|
                1 <= k && ray_on(from, dir_dr(8), dir_df(8), k) && #[trigger] ray_sq(
                    from,
                    dir_dr(8),
                    dir_df(8),
                    k,
                ) == t;
            lemma_ray_coords(from, 1, 0, k);
            assert(k * 1 == k && k * 0 == 0) by (nonlinear_arith);
        }
    }
    if same_line(from, t) {
        if rank_of(t) == rank_of(from) {
            let d = file_of(t) - file_of(from);
            if d > 0 {
                assert(d * 1 == d && d * 0 == 0) by (nonlinear_arith);
                assert(ray_sq(from, dir_dr(1), dir_df(1), d) == t);
                assert(ray_on(from, dir_dr(1), dir_df(1), d));
                assert(on_ray(from, 1, t));
            } else {
                assert(d * -1 == -d && d * 0 == 0) by (nonlinear_arith);
                assert((-d) * -1 == d && (-d) * 0 == 0) by (nonlinear_arith);
                assert(ray_sq(from, dir_dr(-1), dir_df(-1), -d) == t);
                assert(ray_on(from, dir_dr(-1), dir_df(-1), -d));
                assert(on_ray(from, -1, t));
            }
        } else {
            let d = rank_of(t) - rank_of(from);
            if d > 0 {
                assert(d * 1 == d && d * 0 == 0) by (nonlinear_arith);
                assert(ray_sq(from, dir_dr(8), dir_df(8), d) == t);
                assert(ray_on(from, dir_dr(8), dir_df(8), d));
                assert(on_ray(from, 8, t));
            } else {
                assert((-d) * -1 == d && (-d) * 0 == 0) by (nonlinear_arith);
                assert(ray_sq(from, dir_dr(-8), dir_df(-8), -d) == t);
                assert(ray_on(from, dir_dr(-8), dir_df(-8), -d));
                assert(on_ray(from, -8, t));
            }
        }
    }
}

/// The four diagonal edge rays from a square cover exactly the other squares
/// of its two diagonals.
proof fn lemma_bishop_rays(from: int, t: int)
    requires
        on_board(from),
        on_board(t),
    ensures
        (on_ray(from, -9, t) || on_ray(from, -7, t) || on_ray(from, 7, t) || on_ray(from, 9, t))
            <==> same_diag(from, t),
{
    lemma_sq_coords(from);
    lemma_sq_coords(t);
    if on_ray(from, -9, t) || on_ray(from, -7, t) || on_ray(from, 7, t) || on_ray(from, 9, t) {
        if on_ray(from, -9, t) {
            let k = choose|k: int|
                1 <= k && ray_on(from, dir_dr(-9), dir_df(-9), k) && #[trigger] ray_sq(
                    from,
                    dir_dr(-9),
                    dir_df(-9),
                    k,
                ) == t;
            lemma_ray_coords(from, -1, -1, k);
            assert(k * -1 == -k) by (nonlinear_arith);
        } else if on_ray(from, -7, t) {
            let k = choose|k: int|
                1 <= k && ray_on(from, dir_dr(-7), dir_df(-7), k) && #[trigger] ray_sq(
                    from,
                    dir_dr(-7),
                    dir_df(-7),
                    k,
                ) == t;
            lemma_ray_coords(from, -1, 1, k);
            assert(k * -1 == -k && k * 1 == k) by (nonlinear_arith);
        } else if on_ray(from, 7, t) {
            let k = choose|k: int|
                1 <= k && ray_on(from, dir_dr(7), dir_df(7), k) && #[trigger] ray_sq(
                    from,
                    dir_dr(7),
                    dir_df(7),
                    k,
                ) == t;
            lemma_ray_coords(from, 1, -1, k);
            assert(k * -1 == -k && k * 1 == k) by (nonlinear_arith);
        } else {
            let k = choose|k: int|
                1 <= k && ray_on(from, dir_dr(9), dir_df(9), k) && #[trigger] ray_sq(
                    from,
                    dir_dr(9),
                    dir_df(9),
                    k,
                ) == t;
            lemma_ray_coords(from, 1, 1, k);
            assert(k * 1 == k) by (nonlinear_arith);
        }
    }
    if same_diag(from, t) {
        let dr = rank_of(t) - rank_of(from);
        let df = file_of(t) - file_of(from);
        if dr > 0 && df > 0 {
            assert(dr * 1 == dr) by (nonlinear_arith);
            assert(ray_sq(from, dir_dr(9), dir_df(9), dr) == t);
            assert(ray_on(from, dir_dr(9), dir_df(9), dr));
            assert(on_ray(from, 9, t));
        } else if dr > 0 && df < 0 {
            assert(dr * 1 == dr && dr * -1 == -dr) by (nonlinear_arith);
            assert(ray_sq(from, dir_dr(7), dir_df(7), dr) == t);
            assert(ray_on(from, dir_dr(7), dir_df(7), dr));
            assert(on_ray(from, 7, t));
        } else if dr < 0 && df > 0 {
            assert((-dr) * 1 == -dr && (-dr) * -1 == dr) by (nonlinear_arith);
            assert(ray_sq(from, dir_dr(-7), dir_df(-7), -dr) == t);
            assert(ray_on(from, dir_dr(-7), dir_df(-7), -dr));
            assert(on_ray(from, -7, t));
        } else {
            assert((-dr) * -1 == dr) by (nonlinear_arith);
            assert(ray_sq(from, dir_dr(-9), dir_df(-9), -dr) == t);
            assert(ray_on(from, dir_dr(-9), dir_df(-9), -dr));
            assert(on_ray(from, -9, t));
        }
    }
}

/// Compute the rook edge-ray mask for a given square: every other square of
/// its rank and file, with no regard for occupancy. A building block for
/// precomputed tables only; attack queries must use the blocker-aware walk.
fn compute_rook_attacks(sq: u8) -> (r: Bitboard)
    requires
        sq < 64,
    ensures
        forall|t: u8|
            t < 64 ==> (r.spec_is_set(t) <==> same_line(sq as int, t as int)),
{
    let mut attacks = Bitboard::empty();
    walk_dir(&mut attacks, sq, -8);
    walk_dir(&mut attacks, sq, -1);
    walk_dir(&mut attacks, sq, 1);
    walk_dir(&mut attacks, sq, 8);
    proof {
        assert forall|t: u8|
            t < 64 implies (attacks.spec_is_set(t) <==> same_line(sq as int, t as int)) by {
            lemma_rook_rays(sq as int, t as int);
        }
    }
    attacks
}

/// Compute the bishop edge-ray mask for a given square: every other square of
/// its diagonals, with no regard for occupancy.
fn compute_bishop_attacks(sq: u8) -> (r: Bitboard)
    requires
        sq < 64,
    ensures
        forall|t: u8|
            t < 64 ==> (r.spec_is_set(t) <==> same_diag(sq as int, t as int)),
{
    let mut attacks = Bitboard::empty();
    walk_dir(&mut attacks, sq, -9);
    walk_dir(&mut attacks, sq, -7);
    walk_dir(&mut attacks, sq, 7);
    walk_dir(&mut attacks, sq, 9);
    proof {
        assert forall|t: u8|
            t < 64 implies (attacks.spec_is_set(t) <==> same_diag(sq as int, t as int)) by {
            lemma_bishop_rays(sq as int, t as int);
        }
    }
    attacks
}

/// Precomputed edge-ray tables for the sliding pieces: for each origin, the
/// unobstructed ray squares. These ignore blockers, so they must never answer
/// an attack or legality query on their own.
pub struct AttackTables {
    pub rook_attacks: Vec<Bitboard>,
    pub bishop_attacks: Vec<Bitboard>,
}

impl AttackTables {
    /// The tables hold, for every origin square, exactly the edge-ray squares.
    pub open spec fn wf(&self) -> bool {
        self.rook_attacks@.len() == 64 && self.bishop_attacks@.len() == 64 && (forall|
            sq: u8,
            t: u8,
        |
            sq < 64 && t < 64 ==> (self.rook_attacks@[sq as int].spec_is_set(t) <==> same_line(
                sq as int,
                t as int,
            ))) && (forall|sq: u8, t: u8|
            sq < 64 && t < 64 ==> (self.bishop_attacks@[sq as int].spec_is_set(t) <==> same_diag(
                sq as int,
                t as int,
            )))
    }

    /// Initialize attack tables
    pub fn new() -> (r: Self)
        ensures
            r.wf(),
    {
        let mut rook_attacks: Vec<Bitboard> = Vec::new();
        let mut bishop_attacks: Vec<Bitboard> = Vec::new();

        let mut sq: u8 = 0;
        while sq < 64
            invariant
                sq <= 64,
                rook_attacks@.len() == sq as int,
                bishop_attacks@.len() == sq as int,
                forall|i: u8, t: u8|
                    i < sq && t < 64 ==> (rook_attacks@[i as int].spec_is_set(t) <==> same_line(
                        i as int,
                        t as int,
                    )),
                forall|i: u8, t: u8|
                    i < sq && t < 64 ==> (bishop_attacks@[i as int].spec_is_set(t) <==> same_diag(
                        i as int,
                        t as int,
                    )),
            decreases 64 - sq,
        {
            rook_attacks.push(compute_rook_attacks(sq));
            bishop_attacks.push(compute_bishop_attacks(sq));
            sq = sq + 1;
        }

        AttackTables { rook_attacks, bishop_attacks }
    }
}

// ---------------------------------------------------------------------------
// Per-piece pseudo-legal move generation
// ---------------------------------------------------------------------------

/// Membership in a sequence after a push.
pub(crate) proof fn lemma_contains_push<A>(s: Seq<A>, v: A)
    ensures
        forall|x: A| #[trigger] s.push(v).contains(x) <==> s.contains(x) || x == v,
{
    assert forall|x: A| #[trigger] s.push(v).contains(x) implies s.contains(x) || x == v by {
        let i = choose|i: int| 0 <= i < s.push(v).len() && s.push(v)[i] == x;
        if i < s.len() {
            assert(s[i] == x);
        }
    }
    assert forall|x: A| s.contains(x) implies #[trigger] s.push(v).contains(x) by {
        let i = choose|i: int| 0 <= i < s.len() && s[i] == x;
        assert(s.push(v)[i] == x);
    }
    assert(s.push(v)[s.len() as int] == v);
}

/// Coordinates of an offset target whose deltas stay in range.
proof fn lemma_offset_coords_any(sq: u8, dr: int, df: int)
    requires
        sq < 64,
        0 <= rank_of(sq as int) + dr < 8,
        0 <= file_of(sq as int) + df < 8,
    ensures
        on_board(offset_tgt(sq, dr, df)),
        rank_of(offset_tgt(sq, dr, df)) == rank_of(sq as int) + dr,
        file_of(offset_tgt(sq, dr, df)) == file_of(sq as int) + df,
{
    lemma_coords_sq(rank_of(sq as int) + dr, file_of(sq as int) + df);
}

/// Coordinates of an offset target that stays on the board.
proof fn lemma_offset_coords(b: &Board, c: Color, sq: u8, dr: int, df: int)
    requires
        sq < 64,
        offset_ok(b, c, sq, dr, df),
    ensures
        on_board(offset_tgt(sq, dr, df)),
        rank_of(offset_tgt(sq, dr, df)) == rank_of(sq as int) + dr,
        file_of(offset_tgt(sq, dr, df)) == file_of(sq as int) + df,
{
    lemma_coords_sq(rank_of(sq as int) + dr, file_of(sq as int) + df);
}

/// The target square one offset away from `sq`.
pub open spec fn offset_tgt(sq: u8, dr: int, df: int) -> int {
    square_at(rank_of(sq as int) + dr, file_of(sq as int) + df)
}

/// Whether the offset target is on the board and free of a friendly piece.
pub open spec fn offset_ok(b: &Board, c: Color, sq: u8, dr: int, df: int) -> bool {
    0 <= rank_of(sq as int) + dr < 8 && 0 <= file_of(sq as int) + df < 8 && !has_color(
        b.squares@,
        offset_tgt(sq, dr, df),
        c,
    )
}

/// Push the move one offset away from `sq`, unless the step leaves the board
/// or the target holds a piece of the mover's color.
fn push_offset_move(board: &Board, c: Color, sq: u8, dr: i8, df: i8, moves: &mut Vec<Move>)
    requires
        board_ok(board),
        sq < 64,
        -2 <= dr <= 2,
        -2 <= df <= 2,
    ensures
        forall|m: Move|
            final(moves)@.contains(m) <==> old(moves)@.contains(m) || (offset_ok(
                board,
                c,
                sq,
                dr as int,
                df as int,
            ) && m == (Move { from: sq, to: offset_tgt(sq, dr as int, df as int) as u8, promotion: None })),
{
    proof {
        lemma_sq_coords(sq as int);
    }
    let rank = (sq / 8) as i8;
    let file = (sq % 8) as i8;
    let r2 = rank + dr;
    let f2 = file + df;
    if 0 <= r2 && r2 < 8 && 0 <= f2 && f2 < 8 {
        proof {
            lemma_coords_sq(r2 as int, f2 as int);
        }
        let t = (r2 * 8 + f2) as u8;
        let push_it = match board.squares[t as usize] {
            Some((p2, c2)) => c2 != c,
            None => true,
        };
        if push_it {
            proof {
                lemma_contains_push(moves@, Move { from: sq, to: t, promotion: None });
            }
            moves.push(Move { from: sq, to: t, promotion: None });
        }
    }
}

/// Walk the blocker-aware ray from `sq` along `dir`, pushing a move for every
/// empty square traversed and for a final enemy-occupied square.
fn slide_dir_moves(board: &Board, c: Color, sq: u8, dir: i8, moves: &mut Vec<Move>)
    requires
        board_ok(board),
        sq < 64,
        valid_dir(dir as int),
    ensures
        forall|m: Move|
            final(moves)@.contains(m) <==> old(moves)@.contains(m) || (m.from == sq && m.to < 64
                && m.promotion is None && slide_to(
                board.squares@,
                sq as int,
                dir_dr(dir as int),
                dir_df(dir as int),
                m.to as int,
            ) && !has_color(board.squares@, m.to as int, c)),
{
    let ghost s = board.squares@;
    let ghost from = sq as int;
    let ghost d = dir as int;
    let mut current_sq: i8 = sq as i8;
    let ghost mut k: int = 0;
    proof {
        lemma_ray_zero(from, dir_dr(d), dir_df(d));
    }
    loop
        invariant_except_break
            forall|m: Move|
                moves@.contains(m) <==> old(moves)@.contains(m) || (exists|k2: int|
                    1 <= k2 <= k && ray_on(from, dir_dr(d), dir_df(d), k2) && m.from == sq
                        && m.promotion is None && m.to as int
                        == #[trigger] ray_sq(from, dir_dr(d), dir_df(d), k2)),
        invariant
            board_ok(board),
            s == board.squares@,
            sq < 64,
            valid_dir(d),
            d == dir as int,
            from == sq as int,
            k >= 0,
            ray_on(from, dir_dr(d), dir_df(d), k),
            current_sq as int == ray_sq(from, dir_dr(d), dir_df(d), k),
            0 <= current_sq < 64,
            forall|j: int| 1 <= j <= k ==> empty_sq(s, #[trigger] ray_sq(from, dir_dr(d), dir_df(d), j)),
        ensures
            forall|m: Move|
                moves@.contains(m) <==> old(moves)@.contains(m) || (m.from == sq && m.to < 64
                    && m.promotion is None && slide_to(s, from, dir_dr(d), dir_df(d), m.to as int)
                    && !has_color(s, m.to as int, c)),
        decreases edge_dist(current_sq as int, d),
    {
        proof {
            lemma_ray_coords(from, dir_dr(d), dir_df(d), k);
        }
        match step_in_direction(current_sq, dir) {
            None => {
                proof {
                    assert forall|m: Move|
                        moves@.contains(m) <==> old(moves)@.contains(m) || (m.from == sq && m.to
                            < 64 && m.promotion is None && slide_to(
                            s,
                            from,
                            dir_dr(d),
                            dir_df(d),
                            m.to as int,
                        ) && !has_color(s, m.to as int, c)) by {
                        if slide_to(s, from, dir_dr(d), dir_df(d), m.to as int) && m.to < 64 {
                            let k2 = choose|k2: int|
                                1 <= k2 && #[trigger] ray_sq(from, dir_dr(d), dir_df(d), k2)
                                    == m.to as int && ray_on(from, dir_dr(d), dir_df(d), k2) && (
                                forall|j: int|
                                    1 <= j < k2 ==> empty_sq(
                                        s,
                                        ray_sq(from, dir_dr(d), dir_df(d), j),
                                    ));
                            if k2 > k {
                                lemma_ray_between(from, dir_dr(d), dir_df(d), k, k2);
                                lemma_ray_coords(from, dir_dr(d), dir_df(d), k + 1);
                                assert((k + 1) * dir_dr(d) == k * dir_dr(d) + dir_dr(d))
                                    by (nonlinear_arith);
                                assert((k + 1) * dir_df(d) == k * dir_df(d) + dir_df(d))
                                    by (nonlinear_arith);
                                assert(step_ok(current_sq as int, d));
                                assert(false);
                            }
                        }
                        if exists|k2: int|
                            1 <= k2 <= k && ray_on(from, dir_dr(d), dir_df(d), k2) && m.from == sq
                        && m.promotion is None && m.to as int
                                == #[trigger] ray_sq(from, dir_dr(d), dir_df(d), k2) {
                            let k2 = choose|k2: int|
                                1 <= k2 <= k && ray_on(from, dir_dr(d), dir_df(d), k2) && m.from == sq
                        && m.promotion is None && m.to as int
                                    == #[trigger] ray_sq(from, dir_dr(d), dir_df(d), k2);
                            lemma_ray_coords(from, dir_dr(d), dir_df(d), k2);
                            assert(slide_to(s, from, dir_dr(d), dir_df(d), m.to as int));
                        }
                    }
                }
                break ;
            },
            Some(n) => {
                proof {
                    assert((k + 1) * dir_dr(d) == k * dir_dr(d) + dir_dr(d)) by (nonlinear_arith);
                    assert((k + 1) * dir_df(d) == k * dir_df(d) + dir_df(d)) by (nonlinear_arith);
                    assert(ray_sq(from, dir_dr(d), dir_df(d), k + 1) == n as int);
                    assert(ray_on(from, dir_dr(d), dir_df(d), k + 1));
                }
                match board.squares[n as usize] {
                    Some((p2, c2)) => {
                        let ghost pre = moves@;
                        if c2 != c {
                            proof {
                                lemma_contains_push(
                                    moves@,
                                    Move { from: sq, to: n as u8, promotion: None },
                                );
                            }
                            moves.push(Move { from: sq, to: n as u8, promotion: None });
                        }
                        proof {
                            assert forall|m: Move|
                                moves@.contains(m) <==> old(moves)@.contains(m) || (m.from == sq
                                    && m.to < 64 && m.promotion is None && slide_to(
                                    s,
                                    from,
                                    dir_dr(d),
                                    dir_df(d),
                                    m.to as int,
                                ) && !has_color(s, m.to as int, c)) by {
                                if slide_to(s, from, dir_dr(d), dir_df(d), m.to as int) && m.to
                                    < 64 {
                                    let k2 = choose|k2: int|
                                        1 <= k2 && #[trigger] ray_sq(
                                            from,
                                            dir_dr(d),
                                            dir_df(d),
                                            k2,
                                        ) == m.to as int && ray_on(from, dir_dr(d), dir_df(d), k2)
                                            && (forall|j: int|
                                            1 <= j < k2 ==> empty_sq(
                                                s,
                                                ray_sq(from, dir_dr(d), dir_df(d), j),
                                            ));
                                    if k2 > k + 1 {
                                        assert(empty_sq(
                                            s,
                                            ray_sq(from, dir_dr(d), dir_df(d), k + 1),
                                        ));
                                        assert(false);
                                    }
                                }
                                if exists|k2: int|
                                    1 <= k2 <= k && ray_on(from, dir_dr(d), dir_df(d), k2) && m.from == sq
                        && m.promotion is None && m.to
                                        as int == #[trigger] ray_sq(from, dir_dr(d), dir_df(d), k2) {
                                    let k2 = choose|k2: int|
                                        1 <= k2 <= k && ray_on(from, dir_dr(d), dir_df(d), k2) && m.from == sq
                        && m.promotion is None && m.to
                                            as int == #[trigger] ray_sq(
                                            from,
                                            dir_dr(d),
                                            dir_df(d),
                                            k2,
                                        );
                                    lemma_ray_coords(from, dir_dr(d), dir_df(d), k2);
                                    assert(slide_to(s, from, dir_dr(d), dir_df(d), m.to as int));
                                    assert(pre.contains(m));
                                }
                                if m.from == sq && m.promotion is None && m.to as int == ray_sq(
                                    from,
                                    dir_dr(d),
                                    dir_df(d),
                                    k + 1,
                                ) && c2 != c {
                                    lemma_ray_coords(from, dir_dr(d), dir_df(d), k + 1);
                                    assert(slide_to(s, from, dir_dr(d), dir_df(d), m.to as int));
                                }
                            }
                        }
                        break ;
                    },
                    None => {
                        proof {
                            lemma_contains_push(
                                moves@,
                                Move { from: sq, to: n as u8, promotion: None },
                            );
                        }
                        moves.push(Move { from: sq, to: n as u8, promotion: None });
                        current_sq = n;
                        proof {
                            k = k + 1;
                            lemma_ray_coords(from, dir_dr(d), dir_df(d), k);
                            assert forall|m: Move|
                                moves@.contains(m) <==> old(moves)@.contains(m) || (exists|k2: int|
                                    1 <= k2 <= k && ray_on(from, dir_dr(d), dir_df(d), k2) && m.from == sq
                        && m.promotion is None && m.to
                                        as int == #[trigger] ray_sq(
                                        from,
                                        dir_dr(d),
                                        dir_df(d),
                                        k2,
                                    )) by {
                                if m.from == sq && m.promotion is None && m.to as int == ray_sq(
                                    from,
                                    dir_dr(d),
                                    dir_df(d),
                                    k,
                                ) {
                                    assert(1 <= k <= k);
                                } else {
                                    if exists|k2: int|
                                        1 <= k2 <= k && ray_on(from, dir_dr(d), dir_df(d), k2) && m.from == sq
                        && m.promotion is None && m.to
                                            as int == #[trigger] ray_sq(
                                            from,
                                            dir_dr(d),
                                            dir_df(d),
                                            k2,
                                        ) {
                                        let k2 = choose|k2: int|
                                            1 <= k2 <= k && m.from == sq && m.promotion is None
                                                && m.to as int == #[trigger] ray_sq(
                                                from,
                                                dir_dr(d),
                                                dir_df(d),
                                                k2,
                                            );
                                        assert(1 <= k2 <= k - 1 || k2 == k);
                                    }
                                }
                            }
                        }
                    },
                }
            },
        }
    }
}

/// Diagonal reach is reach along one of the four diagonal directions.
proof fn lemma_bishop_reach_dirs(s: Seq<Option<(Piece, Color)>>, from: int, to: int)
    ensures
        bishop_reach(s, from, to) <==> (slide_to(s, from, -1, -1, to) || slide_to(s, from, -1, 1, to)
            || slide_to(s, from, 1, -1, to) || slide_to(s, from, 1, 1, to)),
{
    if bishop_reach(s, from, to) {
        let (dr, df) = choose|dr: int, df: int|
            bishop_dir(dr, df) && #[trigger] slide_to(s, from, dr, df, to);
        if dr == -1 && df == -1 {
            assert(slide_to(s, from, -1, -1, to));
        } else if dr == -1 && df == 1 {
            assert(slide_to(s, from, -1, 1, to));
        } else if dr == 1 && df == -1 {
            assert(slide_to(s, from, 1, -1, to));
        } else {
            assert(slide_to(s, from, 1, 1, to));
        }
    }
    if slide_to(s, from, -1, -1, to) || slide_to(s, from, -1, 1, to) || slide_to(s, from, 1, -1, to)
        || slide_to(s, from, 1, 1, to) {
        assert(bishop_dir(-1, -1) && bishop_dir(-1, 1) && bishop_dir(1, -1) && bishop_dir(1, 1));
    }
}

/// Orthogonal reach is reach along one of the four orthogonal directions.
proof fn lemma_rook_reach_dirs(s: Seq<Option<(Piece, Color)>>, from: int, to: int)
    ensures
        rook_reach(s, from, to) <==> (slide_to(s, from, -1, 0, to) || slide_to(s, from, 0, -1, to)
            || slide_to(s, from, 0, 1, to) || slide_to(s, from, 1, 0, to)),
{
    if rook_reach(s, from, to) {
        let (dr, df) = choose|dr: int, df: int|
            rook_dir(dr, df) && #[trigger] slide_to(s, from, dr, df, to);
        if dr == -1 && df == 0 {
            assert(slide_to(s, from, -1, 0, to));
        } else if dr == 0 && df == -1 {
            assert(slide_to(s, from, 0, -1, to));
        } else if dr == 0 && df == 1 {
            assert(slide_to(s, from, 0, 1, to));
        } else {
            assert(slide_to(s, from, 1, 0, to));
        }
    }
    if slide_to(s, from, -1, 0, to) || slide_to(s, from, 0, -1, to) || slide_to(s, from, 0, 1, to)
        || slide_to(s, from, 1, 0, to) {
        assert(rook_dir(-1, 0) && rook_dir(0, -1) && rook_dir(0, 1) && rook_dir(1, 0));
    }
}

/// Generate knight moves
#[verifier::rlimit(100)]
pub(crate) fn generate_knight_moves(board: &Board, c: Color, sq: u8) -> (moves: Vec<Move>)
    requires
        board_ok(board),
        sq < 64,
    ensures
        forall|m: Move|
            moves@.contains(m) <==> m.from == sq && knight_move(board.squares@, c, m),
{
    let mut moves: Vec<Move> = Vec::new();
    push_offset_move(board, c, sq, -2, -1, &mut moves);
    push_offset_move(board, c, sq, -2, 1, &mut moves);
    push_offset_move(board, c, sq, -1, -2, &mut moves);
    push_offset_move(board, c, sq, -1, 2, &mut moves);
    push_offset_move(board, c, sq, 1, -2, &mut moves);
    push_offset_move(board, c, sq, 1, 2, &mut moves);
    push_offset_move(board, c, sq, 2, -1, &mut moves);
    push_offset_move(board, c, sq, 2, 1, &mut moves);
    proof {
        lemma_sq_coords(sq as int);
        assert forall|m: Move|
            moves@.contains(m) <==> (m.from == sq && knight_move(board.squares@, c, m)) by {
            if m.from == sq && knight_move(board.squares@, c, m) {
                lemma_sq_coords(m.to as int);
                let dr = rank_of(m.to as int) - rank_of(sq as int);
                let df = file_of(m.to as int) - file_of(sq as int);
                assert(m.to as int == offset_tgt(sq, dr, df));
                assert((dr == -2 && df == -1) || (dr == -2 && df == 1) || (dr == -1 && df == -2)
                    || (dr == -1 && df == 2) || (dr == 1 && df == -2) || (dr == 1 && df == 2) || (dr
                    == 2 && df == -1) || (dr == 2 && df == 1));
            }
            if offset_ok(board, c, sq, -2, -1) {
                lemma_offset_coords(board, c, sq, -2, -1);
            }
            if offset_ok(board, c, sq, -2, 1) {
                lemma_offset_coords(board, c, sq, -2, 1);
            }
            if offset_ok(board, c, sq, -1, -2) {
                lemma_offset_coords(board, c, sq, -1, -2);
            }
            if offset_ok(board, c, sq, -1, 2) {
                lemma_offset_coords(board, c, sq, -1, 2);
            }
            if offset_ok(board, c, sq, 1, -2) {
                lemma_offset_coords(board, c, sq, 1, -2);
            }
            if offset_ok(board, c, sq, 1, 2) {
                lemma_offset_coords(board, c, sq, 1, 2);
            }
            if offset_ok(board, c, sq, 2, -1) {
                lemma_offset_coords(board, c, sq, 2, -1);
            }
            if offset_ok(board, c, sq, 2, 1) {
                lemma_offset_coords(board, c, sq, 2, 1);
            }
        }
    }
    moves
}

/// Generate bishop moves
pub(crate) fn generate_bishop_moves(board: &Board, c: Color, sq: u8) -> (moves: Vec<Move>)
    requires
        board_ok(board),
        sq < 64,
    ensures
        forall|m: Move|
            moves@.contains(m) <==> m.from == sq && bishop_move(board.squares@, c, m),
{
    let mut moves: Vec<Move> = Vec::new();
    slide_dir_moves(board, c, sq, -9, &mut moves);
    slide_dir_moves(board, c, sq, -7, &mut moves);
    slide_dir_moves(board, c, sq, 7, &mut moves);
    slide_dir_moves(board, c, sq, 9, &mut moves);
    proof {
        assert forall|m: Move|
            moves@.contains(m) <==> (m.from == sq && bishop_move(board.squares@, c, m)) by {
            lemma_bishop_reach_dirs(board.squares@, sq as int, m.to as int);
            if m.from == sq && bishop_move(board.squares@, c, m) {
                assert(on_board(m.to as int));
            }
        }
    }
    moves
}

/// Generate rook moves
pub(crate) fn generate_rook_moves(board: &Board, c: Color, sq: u8) -> (moves: Vec<Move>)
    requires
        board_ok(board),
        sq < 64,
    ensures
        forall|m: Move|
            moves@.contains(m) <==> m.from == sq && rook_move(board.squares@, c, m),
{
    let mut moves: Vec<Move> = Vec::new();
    slide_dir_moves(board, c, sq, -8, &mut moves);
    slide_dir_moves(board, c, sq, -1, &mut moves);
    slide_dir_moves(board, c, sq, 1, &mut moves);
    slide_dir_moves(board, c, sq, 8, &mut moves);
    proof {
        assert forall|m: Move|
            moves@.contains(m) <==> (m.from == sq && rook_move(board.squares@, c, m)) by {
            lemma_rook_reach_dirs(board.squares@, sq as int, m.to as int);
            if m.from == sq && rook_move(board.squares@, c, m) {
                assert(on_board(m.to as int));
            }
        }
    }
    moves
}

// ---------------------------------------------------------------------------
// Attacked-square detection (blocker-aware for every piece kind)
// ---------------------------------------------------------------------------

/// Whether `to` is reachable from `from` along the single direction `dir`
/// with every square strictly between empty.
#[verifier::rlimit(100)]
fn ray_clear_to(board: &Board, from: u8, dir: i8, to: u8) -> (r: bool)
    requires
        board_ok(board),
        from < 64,
        to < 64,
        valid_dir(dir as int),
    ensures
        r == slide_to(
            board.squares@,
            from as int,
            dir_dr(dir as int),
            dir_df(dir as int),
            to as int,
        ),
{
    let ghost s = board.squares@;
    let ghost f = from as int;
    let ghost d = dir as int;
    let mut current_sq: i8 = from as i8;
    let ghost mut k: int = 0;
    proof {
        lemma_ray_zero(f, dir_dr(d), dir_df(d));
    }
    loop
        invariant
            board_ok(board),
            s == board.squares@,
            from < 64,
            to < 64,
            valid_dir(d),
            d == dir as int,
            f == from as int,
            k >= 0,
            ray_on(f, dir_dr(d), dir_df(d), k),
            current_sq as int == ray_sq(f, dir_dr(d), dir_df(d), k),
            0 <= current_sq < 64,
            forall|j: int|
                1 <= j <= k ==> empty_sq(s, #[trigger] ray_sq(f, dir_dr(d), dir_df(d), j)),
            forall|k2: int|
                1 <= k2 <= k ==> #[trigger] ray_sq(f, dir_dr(d), dir_df(d), k2) != to as int,
        decreases edge_dist(current_sq as int, d),
    {
        proof {
            lemma_ray_coords(f, dir_dr(d), dir_df(d), k);
        }
        match step_in_direction(current_sq, dir) {
            None => {
                proof {
                    if slide_to(s, f, dir_dr(d), dir_df(d), to as int) {
                        let k2 = choose|k2: int|
                            1 <= k2 && #[trigger] ray_sq(f, dir_dr(d), dir_df(d), k2) == to as int
                                && ray_on(f, dir_dr(d), dir_df(d), k2) && (forall|j: int|
                                1 <= j < k2 ==> empty_sq(s, ray_sq(f, dir_dr(d), dir_df(d), j)));
                        if k2 > k {
                            lemma_ray_between(f, dir_dr(d), dir_df(d), k, k2);
                            lemma_ray_coords(f, dir_dr(d), dir_df(d), k + 1);
                            assert((k + 1) * dir_dr(d) == k * dir_dr(d) + dir_dr(d))
                                by (nonlinear_arith);
                            assert((k + 1) * dir_df(d) == k * dir_df(d) + dir_df(d))
                                by (nonlinear_arith);
                            assert(step_ok(current_sq as int, d));
                        }
                        assert(false);
                    }
                }
                return false;
            },
            Some(n) => {
                proof {
                    assert((k + 1) * dir_dr(d) == k * dir_dr(d) + dir_dr(d)) by (nonlinear_arith);
                    assert((k + 1) * dir_df(d) == k * dir_df(d) + dir_df(d)) by (nonlinear_arith);
                    assert(ray_sq(f, dir_dr(d), dir_df(d), k + 1) == n as int);
                    assert(ray_on(f, dir_dr(d), dir_df(d), k + 1));
                }
                if n as u8 == to {
                    proof {
                        assert(slide_to(s, f, dir_dr(d), dir_df(d), to as int));
                    }
                    return true;
                }
                match board.squares[n as usize] {
                    Some(_) => {
                        proof {
                            if slide_to(s, f, dir_dr(d), dir_df(d), to as int) {
                                let k2 = choose|k2: int|
                                    1 <= k2 && #[trigger] ray_sq(f, dir_dr(d), dir_df(d), k2) == to
                                        as int && ray_on(f, dir_dr(d), dir_df(d), k2) && (forall|
                                        j: int,
                                    |
                                        1 <= j < k2 ==> empty_sq(
                                            s,
                                            ray_sq(f, dir_dr(d), dir_df(d), j),
                                        ));
                                if k2 > k + 1 {
                                    assert(empty_sq(s, ray_sq(f, dir_dr(d), dir_df(d), k + 1)));
                                }
                                assert(false);
                            }
                        }
                        return false;
                    },
                    None => {
                        current_sq = n;
                        proof {
                            k = k + 1;
                        }
                    },
                }
            },
        }
    }
}

/// Whether a piece of kind `p` and color `c` standing on `from` attacks `to`.
fn attacks_from(board: &Board, p: Piece, c: Color, from: u8, to: u8) -> (r: bool)
    requires
        board_ok(board),
        from < 64,
        to < 64,
    ensures
        r == piece_attacks(board.squares@, p, c, from as int, to as int),
{
    proof {
        lemma_sq_coords(from as int);
        lemma_sq_coords(to as int);
    }
    let fr = (from / 8) as i8;
    let ff = (from % 8) as i8;
    let tr = (to / 8) as i8;
    let tf = (to % 8) as i8;
    let adr = if tr >= fr {
        tr - fr
    } else {
        fr - tr
    };
    let adf = if tf >= ff {
        tf - ff
    } else {
        ff - tf
    };
    match p {
        Piece::Pawn => {
            let d: i8 = match c {
                Color::White => 1,
                Color::Black => -1,
            };
            tr == fr + d && adf == 1
        },
        Piece::Knight => (adr == 2 && adf == 1) || (adr == 1 && adf == 2),
        Piece::King => adr <= 1 && adf <= 1 && from != to,
        Piece::Bishop => {
            proof {
                lemma_bishop_reach_dirs(board.squares@, from as int, to as int);
            }
            ray_clear_to(board, from, -9, to) || ray_clear_to(board, from, -7, to)
                || ray_clear_to(board, from, 7, to) || ray_clear_to(board, from, 9, to)
        },
        Piece::Rook => {
            proof {
                lemma_rook_reach_dirs(board.squares@, from as int, to as int);
            }
            ray_clear_to(board, from, -8, to) || ray_clear_to(board, from, -1, to)
                || ray_clear_to(board, from, 1, to) || ray_clear_to(board, from, 8, to)
        },
        Piece::Queen => {
            proof {
                lemma_bishop_reach_dirs(board.squares@, from as int, to as int);
                lemma_rook_reach_dirs(board.squares@, from as int, to as int);
            }
            ray_clear_to(board, from, -9, to) || ray_clear_to(board, from, -7, to)
                || ray_clear_to(board, from, 7, to) || ray_clear_to(board, from, 9, to)
                || ray_clear_to(board, from, -8, to) || ray_clear_to(board, from, -1, to)
                || ray_clear_to(board, from, 1, to) || ray_clear_to(board, from, 8, to)
        },
    }
}

/// Check if a square is attacked by any piece of a color other than `color`,
/// blocker-aware for all piece kinds.
pub fn is_square_attacked(board: &Board, sq: u8, color: Color) -> (r: bool)
    requires
        board_ok(board),
        sq < 64,
    ensures
        r == sq_attacked(board.squares@, sq as int, color),
{
    let ghost s = board.squares@;
    let mut i: u8 = 0;
    while i < 64
        invariant
            board_ok(board),
            s == board.squares@,
            sq < 64,
            i <= 64,
            forall|j: int|
                0 <= j < i ==> !(match #[trigger] s[j] {
                    Some((p, pc)) => pc != color && piece_attacks(s, p, pc, j, sq as int),
                    None => false,
                }),
        decreases 64 - i,
    {
        match board.squares[i as usize] {
            Some((p, pc)) => {
                if pc != color {
                    if attacks_from(board, p, pc, i, sq) {
                        proof {
                            assert((match s[i as int] {
                                Some((p2, pc2)) => pc2 != color && piece_attacks(
                                    s,
                                    p2,
                                    pc2,
                                    i as int,
                                    sq as int,
                                ),
                                None => false,
                            }));
                        }
                        return true;
                    }
                }
            },
            None => {},
        }
        i = i + 1;
    }
    false
}

// ---------------------------------------------------------------------------
// Castling evaluation and king moves
// ---------------------------------------------------------------------------

/// Whether the castling-rights field contains the given letter.
fn has_castling_right(board: &Board, ch: char) -> (r: bool)
    ensures
        r == board.castling_rights@.contains(ch),
{
    let rights: &str = board.castling_rights.as_str();
    let n = rights.unicode_len();
    let mut i: usize = 0;
    while i < n
        invariant
            n == rights@.len(),
            rights@ == board.castling_rights@,
            i <= n,
            forall|j: int| 0 <= j < i ==> rights@[j] != ch,
        decreases n - i,
    {
        if rights.get_char(i) == ch {
            proof {
                assert(rights@[i as int] == ch);
            }
            return true;
        }
        i = i + 1;
    }
    false
}

/// Check if the king and rook have not moved. The castling-rights flags carry
/// this fact in full (the caller clears them when a king or rook moves), so
/// there is nothing left to check here.
fn has_king_and_rook_not_moved(_board: &Board, _king_sq: u8, _rook_sq: u8) -> (r: bool)
    ensures
        r,
{
    true
}

/// Check if all squares in a given list are empty
fn are_squares_empty(board: &Board, squares: &Vec<u8>) -> (r: bool)
    requires
        board_ok(board),
        forall|i: int| 0 <= i < squares@.len() ==> squares@[i] < 64,
    ensures
        r == (forall|i: int|
            0 <= i < squares@.len() ==> empty_sq(board.squares@, #[trigger] squares@[i] as int)),
{
    let mut i: usize = 0;
    while i < squares.len()
        invariant
            board_ok(board),
            forall|j: int| 0 <= j < squares@.len() ==> squares@[j] < 64,
            i <= squares@.len(),
            forall|j: int| 0 <= j < i ==> empty_sq(board.squares@, #[trigger] squares@[j] as int),
        decreases squares@.len() - i,
    {
        if board.squares[squares[i] as usize].is_some() {
            return false;
        }
        i = i + 1;
    }
    true
}

/// Check if any square in a given list is attacked
fn is_any_square_attacked(board: &Board, squares: &Vec<u8>, color: Color) -> (r: bool)
    requires
        board_ok(board),
        forall|i: int| 0 <= i < squares@.len() ==> squares@[i] < 64,
    ensures
        r == (exists|i: int|
            0 <= i < squares@.len() && sq_attacked(
                board.squares@,
                #[trigger] squares@[i] as int,
                color,
            )),
{
    let mut i: usize = 0;
    while i < squares.len()
        invariant
            board_ok(board),
            forall|j: int| 0 <= j < squares@.len() ==> squares@[j] < 64,
            i <= squares@.len(),
            forall|j: int|
                0 <= j < i ==> !sq_attacked(board.squares@, #[trigger] squares@[j] as int, color),
        decreases squares@.len() - i,
    {
        if is_square_attacked(board, squares[i], color) {
            return true;
        }
        i = i + 1;
    }
    false
}

/// Check if kingside castling is possible for `c`.
pub(crate) fn can_castle_kingside(board: &Board, c: Color) -> (r: bool)
    requires
        board_ok(board),
    ensures
        r == can_castle_ks(board.squares@, board.castling_rights@, c),
{
    let right_letter = match c {
        Color::White => 'K',
        Color::Black => 'k',
    };
    if !has_castling_right(board, right_letter) {
        return false;
    }
    let between_squares = match c {
        Color::White => vec![5u8, 6u8],
        Color::Black => vec![61u8, 62u8],
    };
    if !are_squares_empty(board, &between_squares) {
        proof {
            assert(between_squares@[0] < 64 && between_squares@[1] < 64);
        }
        return false;
    }
    let king_path = match c {
        Color::White => vec![4u8, 5u8, 6u8],
        Color::Black => vec![60u8, 61u8, 62u8],
    };
    if is_any_square_attacked(board, &king_path, c) {
        return false;
    }
    proof {
        assert(empty_sq(board.squares@, between_squares@[0] as int));
        assert(empty_sq(board.squares@, between_squares@[1] as int));
        assert(!sq_attacked(board.squares@, king_path@[0] as int, c));
        assert(!sq_attacked(board.squares@, king_path@[1] as int, c));
        assert(!sq_attacked(board.squares@, king_path@[2] as int, c));
    }
    true
}

/// Check if queenside castling is possible for `c`.
pub(crate) fn can_castle_queenside(board: &Board, c: Color) -> (r: bool)
    requires
        board_ok(board),
    ensures
        r == can_castle_qs(board.squares@, board.castling_rights@, c),
{
    let right_letter = match c {
        Color::White => 'Q',
        Color::Black => 'q',
    };
    if !has_castling_right(board, right_letter) {
        return false;
    }
    let between_squares = match c {
        Color::White => vec![1u8, 2u8, 3u8],
        Color::Black => vec![57u8, 58u8, 59u8],
    };
    if !are_squares_empty(board, &between_squares) {
        return false;
    }
    let king_path = match c {
        Color::White => vec![4u8, 3u8, 2u8],
        Color::Black => vec![60u8, 59u8, 58u8],
    };
    if is_any_square_attacked(board, &king_path, c) {
        return false;
    }
    proof {
        assert(empty_sq(board.squares@, between_squares@[0] as int));
        assert(empty_sq(board.squares@, between_squares@[1] as int));
        assert(empty_sq(board.squares@, between_squares@[2] as int));
        assert(!sq_attacked(board.squares@, king_path@[0] as int, c));
        assert(!sq_attacked(board.squares@, king_path@[1] as int, c));
        assert(!sq_attacked(board.squares@, king_path@[2] as int, c));
    }
    true
}

/// Generate king moves, castling included.
#[verifier::rlimit(100)]
pub(crate) fn generate_king_moves(board: &Board, c: Color, sq: u8) -> (moves: Vec<Move>)
    requires
        board_ok(board),
        sq < 64,
    ensures
        forall|m: Move|
            moves@.contains(m) <==> m.from == sq && king_move(
                board.squares@,
                board.castling_rights@,
                c,
                m,
            ),
{
    let mut moves: Vec<Move> = Vec::new();
    push_offset_move(board, c, sq, -1, -1, &mut moves);
    push_offset_move(board, c, sq, -1, 0, &mut moves);
    push_offset_move(board, c, sq, -1, 1, &mut moves);
    push_offset_move(board, c, sq, 0, -1, &mut moves);
    push_offset_move(board, c, sq, 0, 1, &mut moves);
    push_offset_move(board, c, sq, 1, -1, &mut moves);
    push_offset_move(board, c, sq, 1, 0, &mut moves);
    push_offset_move(board, c, sq, 1, 1, &mut moves);

    let home: u8 = match c {
        Color::White => 4,
        Color::Black => 60,
    };
    if sq == home {
        if can_castle_kingside(board, c) {
            let to_ks = sq + 2;
            proof {
                lemma_contains_push(moves@, Move { from: sq, to: to_ks, promotion: None });
            }
            moves.push(Move { from: sq, to: to_ks, promotion: None });
        }
        if can_castle_queenside(board, c) {
            let to_qs = sq - 2;
            proof {
                lemma_contains_push(moves@, Move { from: sq, to: to_qs, promotion: None });
            }
            moves.push(Move { from: sq, to: to_qs, promotion: None });
        }
    }
    proof {
        lemma_sq_coords(sq as int);
        lemma_sq_coords(king_home_sq(c) + 2);
        lemma_sq_coords(king_home_sq(c) - 2);
        assert forall|m: Move|
            moves@.contains(m) <==> (m.from == sq && king_move(
                board.squares@,
                board.castling_rights@,
                c,
                m,
            )) by {
            if offset_ok(board, c, sq, -1, -1) {
                lemma_offset_coords(board, c, sq, -1, -1);
            }
            if offset_ok(board, c, sq, -1, 0) {
                lemma_offset_coords(board, c, sq, -1, 0);
            }
            if offset_ok(board, c, sq, -1, 1) {
                lemma_offset_coords(board, c, sq, -1, 1);
            }
            if offset_ok(board, c, sq, 0, -1) {
                lemma_offset_coords(board, c, sq, 0, -1);
            }
            if offset_ok(board, c, sq, 0, 1) {
                lemma_offset_coords(board, c, sq, 0, 1);
            }
            if offset_ok(board, c, sq, 1, -1) {
                lemma_offset_coords(board, c, sq, 1, -1);
            }
            if offset_ok(board, c, sq, 1, 0) {
                lemma_offset_coords(board, c, sq, 1, 0);
            }
            if offset_ok(board, c, sq, 1, 1) {
                lemma_offset_coords(board, c, sq, 1, 1);
            }
            if m.from == sq && king_move(board.squares@, board.castling_rights@, c, m)
                && king_step(m.from as int, m.to as int) && !has_color(
                board.squares@,
                m.to as int,
                c,
            ) {
                lemma_sq_coords(m.to as int);
                let dr = rank_of(m.to as int) - rank_of(sq as int);
                let df = file_of(m.to as int) - file_of(sq as int);
                assert(m.to as int == offset_tgt(sq, dr, df));
                assert((dr == -1 && df == -1) || (dr == -1 && df == 0) || (dr == -1 && df == 1) || (
                dr == 0 && df == -1) || (dr == 0 && df == 1) || (dr == 1 && df == -1) || (dr == 1
                    && df == 0) || (dr == 1 && df == 1));
            }
        }
    }
    moves
}

// ---------------------------------------------------------------------------
// Pawn moves
// ---------------------------------------------------------------------------

/// Push the pawn move from `from` to `to`; a move landing on the opponent's
/// back rank is expanded into the four promotion choices.
fn push_pawn_move(c: Color, from: u8, to: u8, moves: &mut Vec<Move>)
    requires
        from < 64,
        to < 64,
    ensures
        forall|m: Move|
            final(moves)@.contains(m) <==> old(moves)@.contains(m) || (m.from == from && m.to == to
                && promo_ok(c, to as int, m.promotion)),
{
    let is_back_rank = match c {
        Color::White => to / 8 == 7,
        Color::Black => to / 8 == 0,
    };
    if is_back_rank {
        proof {
            lemma_contains_push(moves@, Move { from, to, promotion: Some(Piece::Queen) });
        }
        moves.push(Move { from, to, promotion: Some(Piece::Queen) });
        proof {
            lemma_contains_push(moves@, Move { from, to, promotion: Some(Piece::Rook) });
        }
        moves.push(Move { from, to, promotion: Some(Piece::Rook) });
        proof {
            lemma_contains_push(moves@, Move { from, to, promotion: Some(Piece::Bishop) });
        }
        moves.push(Move { from, to, promotion: Some(Piece::Bishop) });
        proof {
            lemma_contains_push(moves@, Move { from, to, promotion: Some(Piece::Knight) });
        }
        moves.push(Move { from, to, promotion: Some(Piece::Knight) });
    } else {
        proof {
            lemma_contains_push(moves@, Move { from, to, promotion: None });
        }
        moves.push(Move { from, to, promotion: None });
    }
}

/// Whether a pawn of color `c` on `sq` can capture one file to the side given
/// by `df`: the diagonal target is on the board and holds an enemy piece.
pub open spec fn pawn_capture_ok(b: &Board, c: Color, sq: u8, df: int) -> bool {
    0 <= rank_of(sq as int) + pawn_dir(c) < 8 && 0 <= file_of(sq as int) + df < 8 && has_enemy(
        b.squares@,
        offset_tgt(sq, pawn_dir(c), df),
        c,
    )
}

/// Push the pawn capture one file to the side given by `df`, if the target is
/// on the board and holds an enemy piece.
fn push_pawn_capture(board: &Board, c: Color, sq: u8, df: i8, moves: &mut Vec<Move>)
    requires
        board_ok(board),
        sq < 64,
        df == -1 || df == 1,
    ensures
        forall|m: Move|
            final(moves)@.contains(m) <==> old(moves)@.contains(m) || (pawn_capture_ok(
                board,
                c,
                sq,
                df as int,
            ) && m.from == sq && m.to as int == offset_tgt(sq, pawn_dir(c), df as int) && promo_ok(
                c,
                m.to as int,
                m.promotion,
            )),
{
    proof {
        lemma_sq_coords(sq as int);
    }
    let rank = (sq / 8) as i8;
    let file = (sq % 8) as i8;
    let d: i8 = match c {
        Color::White => 1,
        Color::Black => -1,
    };
    let r2 = rank + d;
    let f2 = file + df;
    if 0 <= r2 && r2 < 8 && 0 <= f2 && f2 < 8 {
        proof {
            lemma_coords_sq(r2 as int, f2 as int);
        }
        let t = (r2 * 8 + f2) as u8;
        let is_enemy = match board.squares[t as usize] {
            Some((p2, c2)) => c2 != c,
            None => false,
        };
        if is_enemy {
            push_pawn_move(c, sq, t, moves);
        }
    }
}

/// Generate pawn moves
pub(crate) fn generate_pawn_moves(board: &Board, c: Color, sq: u8) -> (moves: Vec<Move>)
    requires
        board_ok(board),
        sq < 64,
    ensures
        forall|m: Move|
            moves@.contains(m) <==> m.from == sq && pawn_move(board.squares@, board.en_passant, c, m),
{
    proof {
        lemma_sq_coords(sq as int);
    }
    let mut moves: Vec<Move> = Vec::new();
    let rank = (sq / 8) as i8;
    let file = (sq % 8) as i8;
    let d: i8 = match c {
        Color::White => 1,
        Color::Black => -1,
    };

    // Single forward move, then double forward move from the starting rank
    let r1 = rank + d;
    if 0 <= r1 && r1 < 8 {
        proof {
            lemma_coords_sq(r1 as int, file as int);
        }
        let to1 = (r1 * 8 + file) as u8;
        if board.squares[to1 as usize].is_none() {
            push_pawn_move(c, sq, to1, &mut moves);
            let starting_rank: i8 = match c {
                Color::White => 1,
                Color::Black => 6,
            };
            if rank == starting_rank {
                let r2 = r1 + d;
                proof {
                    lemma_coords_sq(r2 as int, file as int);
                }
                let to2 = (r2 * 8 + file) as u8;
                if board.squares[to2 as usize].is_none() {
                    push_pawn_move(c, sq, to2, &mut moves);
                }
            }
        }
    }

    // Captures
    push_pawn_capture(board, c, sq, -1, &mut moves);
    push_pawn_capture(board, c, sq, 1, &mut moves);

    // En passant
    match get_en_passant_square(board) {
        Some(ep) => {
            if ep < 64 {
                proof {
                    lemma_sq_coords(ep as int);
                }
                let er = (ep / 8) as i8;
                let ef = (ep % 8) as i8;
                if er == rank + d && (ef - file == 1 || file - ef == 1) {
                    push_pawn_move(c, sq, ep, &mut moves);
                }
            }
        },
        None => {},
    }

    proof {
        let s = board.squares@;
        let ep = board.en_passant;
        assert forall|m: Move| moves@.contains(m) <==> (m.from == sq && pawn_move(s, ep, c, m)) by {
            if 0 <= rank_of(sq as int) + pawn_dir(c) < 8 {
                lemma_coords_sq(rank_of(sq as int) + pawn_dir(c), file_of(sq as int));
            }
            if pawn_start_rank(c) == rank_of(sq as int) && 0 <= rank_of(sq as int) + 2 * pawn_dir(c)
                < 8 {
                lemma_coords_sq(rank_of(sq as int) + 2 * pawn_dir(c), file_of(sq as int));
            }
            if pawn_capture_ok(board, c, sq, -1) {
                lemma_offset_coords_any(sq, pawn_dir(c), -1);
            }
            if pawn_capture_ok(board, c, sq, 1) {
                lemma_offset_coords_any(sq, pawn_dir(c), 1);
            }
            if m.from == sq && pawn_move(s, ep, c, m) {
                lemma_sq_coords(m.to as int);
                if pawn_diag(c, m.from as int, m.to as int) {
                    let df = file_of(m.to as int) - file_of(sq as int);
                    assert(df == -1 || df == 1);
                    assert(m.to as int == offset_tgt(sq, pawn_dir(c), df));
                }
            }
        }
    }
    moves
}

/// Get the en passant square, if available
fn get_en_passant_square(board: &Board) -> (r: Option<u8>)
    ensures
        r == board.en_passant,
{
    board.en_passant
}

// ---------------------------------------------------------------------------
// Aggregate generation
// ---------------------------------------------------------------------------

/// Membership in a concatenation of two sequences.
pub(crate) proof fn lemma_contains_concat<A>(a: Seq<A>, b: Seq<A>)
    ensures
        forall|x: A| #[trigger] (a + b).contains(x) <==> a.contains(x) || b.contains(x),
{
    assert forall|x: A| #[trigger] (a + b).contains(x) implies a.contains(x) || b.contains(x) by {
        let i = choose|i: int| 0 <= i < (a + b).len() && (a + b)[i] == x;
        if i < a.len() {
            assert(a[i] == x);
        } else {
            assert(b[i - a.len()] == x);
        }
    }
    assert forall|x: A| a.contains(x) implies #[trigger] (a + b).contains(x) by {
        let i = choose|i: int| 0 <= i < a.len() && a[i] == x;
        assert((a + b)[i] == x);
    }
    assert forall|x: A| b.contains(x) implies #[trigger] (a + b).contains(x) by {
        let i = choose|i: int| 0 <= i < b.len() && b[i] == x;
        assert((a + b)[a.len() + i] == x);
    }
}

/// Generate the pseudo-legal moves of the piece standing on `sq`. When `sq` is
/// out of range, empty, or holds a different piece, the result is empty rather
/// than an error, so a caller scanning arbitrary positions is never stopped.
pub fn generate_piece_moves(board: &Board, piece: Piece, sq: u8) -> (moves: Vec<Move>)
    requires
        board_ok(board),
    ensures
        forall|m: Move| #[trigger] moves@.contains(m) <==> piece_move_at(board, piece, sq, m),
{
    if sq >= 64 {
        return Vec::new();
    }
    match board.squares[sq as usize] {
        None => Vec::new(),
        Some((p, c)) => {
            if p != piece {
                return Vec::new();
            }
            match piece {
                Piece::Pawn => generate_pawn_moves(board, c, sq),
                Piece::Knight => generate_knight_moves(board, c, sq),
                Piece::Bishop => generate_bishop_moves(board, c, sq),
                Piece::Rook => generate_rook_moves(board, c, sq),
                Piece::Queen => {
                    let mut moves = generate_rook_moves(board, c, sq);
                    let ghost rook_part = moves@;
                    let mut diag = generate_bishop_moves(board, c, sq);
                    let ghost diag_part = diag@;
                    moves.append(&mut diag);
                    proof {
                        lemma_contains_concat(rook_part, diag_part);
                        assert(moves@ == rook_part + diag_part);
                    }
                    moves
                },
                Piece::King => generate_king_moves(board, c, sq),
            }
        },
    }
}

/// What `generate_moves(board, color)` returns: every pseudo-legal move of
/// every piece of `color` on the board.
pub open spec fn color_move_at(b: &Board, color: Color, m: Move) -> bool {
    m.from < 64 && match occ(b, m.from as int) {
        Some((p, pc)) => pc == color && pseudo_legal_move(b, p, pc, m),
        None => false,
    }
}

/// Generate all pseudo-legal moves for a given color
pub fn generate_moves(board: &Board, color: Color) -> (moves: Vec<Move>)
    requires
        board_ok(board),
    ensures
        forall|m: Move| #[trigger] moves@.contains(m) <==> color_move_at(board, color, m),
{
    let mut moves: Vec<Move> = Vec::new();

    let mut sq: u8 = 0;
    while sq < 64
        invariant
            board_ok(board),
            sq <= 64,
            forall|m: Move|
                #[trigger] moves@.contains(m) <==> m.from < sq && color_move_at(board, color, m),
        decreases 64 - sq,
    {
        let take = match board.squares[sq as usize] {
            Some((p, c)) => c == color,
            None => false,
        };
        if take {
            let piece = match board.squares[sq as usize] {
                Some((p, c)) => p,
                None => Piece::Pawn,
            };
            let piece_moves = generate_piece_moves(board, piece, sq);
            let mut j: usize = 0;
            while j < piece_moves.len()
                invariant
                    board_ok(board),
                    sq < 64,
                    j <= piece_moves@.len(),
                    forall|m: Move|
                        #[trigger] piece_moves@.contains(m) <==> piece_move_at(
                            board,
                            piece,
                            sq,
                            m,
                        ),
                    occ(board, sq as int) matches Some((p2, c2)) && p2 == piece && c2 == color,
                    forall|m: Move|
                        #[trigger] moves@.contains(m) <==> (m.from < sq && color_move_at(
                            board,
                            color,
                            m,
                        )) || (exists|i: int| 0 <= i < j && piece_moves@[i] == m),
                decreases piece_moves@.len() - j,
            {
                let m = piece_moves[j];
                proof {
                    lemma_contains_push(moves@, piece_moves@[j as int]);
                }
                moves.push(m);
                j = j + 1;
            }
            proof {
                assert forall|m: Move|
                    #[trigger] moves@.contains(m) <==> (m.from < sq + 1 && color_move_at(
                        board,
                        color,
                        m,
                    )) by {
                    if moves@.contains(m) {
                        if exists|i: int| 0 <= i < piece_moves@.len() && piece_moves@[i] == m {
                            let i = choose|i: int|
                                0 <= i < piece_moves@.len() && piece_moves@[i] == m;
                            assert(piece_moves@.contains(m));
                        }
                    }
                    if m.from == sq && color_move_at(board, color, m) {
                        assert(piece_move_at(board, piece, sq, m));
                        assert(piece_moves@.contains(m));
                        let i = choose|i: int| 0 <= i < piece_moves@.len() && piece_moves@[i] == m;
                    }
                }
            }
        } else {
            proof {
                assert forall|m: Move|
                    #[trigger] moves@.contains(m) <==> (m.from < sq + 1 && color_move_at(
                        board,
                        color,
                        m,
                    )) by {
                    if m.from == sq {
                        assert(!color_move_at(board, color, m));
                    }
                }
            }
        }
        sq = sq + 1;
    }
    moves
}

proof fn lemma_bit_and_zero(t: u64)
    ensures
        0u64 & (1u64 << t) == 0,
{
    assert(0u64 & (1u64 << t) == 0) by (bit_vector);
}

proof fn lemma_bit_or_one(x: u64, s: u64, t: u64)
    requires
        s < 64,
        t < 64,
    ensures
        ((x | (1u64 << s)) & (1u64 << t) != 0) == (t == s || x & (1u64 << t) != 0),
{
    assert(((x | (1u64 << s)) & (1u64 << t) != 0) == (t == s || x & (1u64 << t) != 0))
        by (bit_vector)
        requires
            s < 64 && t < 64,
    ;
}

proof fn lemma_bit_clear_one(x: u64, s: u64, t: u64)
    requires
        s < 64,
        t < 64,
    ensures
        ((x & !(1u64 << s)) & (1u64 << t) != 0) == (t != s && x & (1u64 << t) != 0),
{
    assert(((x & !(1u64 << s)) & (1u64 << t) != 0) == (t != s && x & (1u64 << t) != 0))
        by (bit_vector)
        requires
            s < 64 && t < 64,
    ;
}

proof fn lemma_bit_or_union(x: u64, y: u64, t: u64)
    requires
        t < 64,
    ensures
        ((x | y) & (1u64 << t) != 0) == (x & (1u64 << t) != 0 || y & (1u64 << t) != 0),
{
    assert(((x | y) & (1u64 << t) != 0) == (x & (1u64 << t) != 0 || y & (1u64 << t) != 0))
        by (bit_vector);
}

} // verus!
