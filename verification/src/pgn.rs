//! Position codec: the compact textual position notation (piece placement,
//! side to move, castling rights, en-passant target, clocks) and a reader
//! that skims game records for their starting positions.

use vstd::prelude::*;
use vstd::string::StrSliceExecFns;
use vstd::string::StringExecFns;
use crate::types::{Color, Piece};
use crate::types::{file_of, rank_of, square_at};

verus! {

/// The one failure kind this codec surfaces: the notation text is malformed.
/// The payload names the offending field.
#[derive(Debug)]
pub enum ChessError {
    ParseError(String),
}

impl ChessError {
    /// The error rendered as text.
    pub fn message(&self) -> (r: String)
        ensures
            match self {
                ChessError::ParseError(s) => r@ == s@,
            },
    {
        match self {
            ChessError::ParseError(s) => s.clone(),
        }
    }
}

/// A position snapshot: the placed pieces as (piece, color, square) entries,
/// and the five bookkeeping fields of the notation.
#[derive(Debug, Clone)]
pub struct Position {
    pub pieces: Vec<(Piece, Color, u8)>,
    pub side_to_move: Color,
    pub castling_rights: String,
    pub en_passant: Option<u8>,
    pub halfmove_clock: u32,
    pub fullmove_number: u32,
}

/// A well-formed position: every piece square and the en-passant target are on
/// the board, and the castling field is a token (it holds no space).
pub open spec fn pos_wf(pos: &Position) -> bool {
    (forall|i: int| 0 <= i < pos.pieces@.len() ==> (#[trigger] pos.pieces@[i]).2 < 64) && (match pos.en_passant {
        Some(e) => e < 64,
        None => true,
    }) && !pos.castling_rights@.contains(' ')
}

// ---------------------------------------------------------------------------
// The notation, character by character
// ---------------------------------------------------------------------------

/// The letter of a piece: uppercase for White, lowercase for Black.
pub open spec fn piece_char(p: Piece, c: Color) -> char {
    match (p, c) {
        (Piece::Pawn, Color::White) => 'P',
        (Piece::Knight, Color::White) => 'N',
        (Piece::Bishop, Color::White) => 'B',
        (Piece::Rook, Color::White) => 'R',
        (Piece::Queen, Color::White) => 'Q',
        (Piece::King, Color::White) => 'K',
        (Piece::Pawn, Color::Black) => 'p',
        (Piece::Knight, Color::Black) => 'n',
        (Piece::Bishop, Color::Black) => 'b',
        (Piece::Rook, Color::Black) => 'r',
        (Piece::Queen, Color::Black) => 'q',
        (Piece::King, Color::Black) => 'k',
    }
}

/// The piece a placement letter denotes, if any.
pub open spec fn char_piece(ch: char) -> Option<(Piece, Color)> {
    if ch == 'P' {
        Some((Piece::Pawn, Color::White))
    } else if ch == 'N' {
        Some((Piece::Knight, Color::White))
    } else if ch == 'B' {
        Some((Piece::Bishop, Color::White))
    } else if ch == 'R' {
        Some((Piece::Rook, Color::White))
    } else if ch == 'Q' {
        Some((Piece::Queen, Color::White))
    } else if ch == 'K' {
        Some((Piece::King, Color::White))
    } else if ch == 'p' {
        Some((Piece::Pawn, Color::Black))
    } else if ch == 'n' {
        Some((Piece::Knight, Color::Black))
    } else if ch == 'b' {
        Some((Piece::Bishop, Color::Black))
    } else if ch == 'r' {
        Some((Piece::Rook, Color::Black))
    } else if ch == 'q' {
        Some((Piece::Queen, Color::Black))
    } else if ch == 'k' {
        Some((Piece::King, Color::Black))
    } else {
        None
    }
}

/// The digit character for a count or rank numeral (1 to 8... or 0 to 9 for
/// the clock fields).
pub open spec fn dec_char(n: int) -> char {
    if n == 0 {
        '0'
    } else if n == 1 {
        '1'
    } else if n == 2 {
        '2'
    } else if n == 3 {
        '3'
    } else if n == 4 {
        '4'
    } else if n == 5 {
        '5'
    } else if n == 6 {
        '6'
    } else if n == 7 {
        '7'
    } else if n == 8 {
        '8'
    } else {
        '9'
    }
}

/// The numeric value of a decimal digit character, or None.
pub open spec fn char_dec(ch: char) -> Option<int> {
    if ch == '0' {
        Some(0)
    } else if ch == '1' {
        Some(1)
    } else if ch == '2' {
        Some(2)
    } else if ch == '3' {
        Some(3)
    } else if ch == '4' {
        Some(4)
    } else if ch == '5' {
        Some(5)
    } else if ch == '6' {
        Some(6)
    } else if ch == '7' {
        Some(7)
    } else if ch == '8' {
        Some(8)
    } else if ch == '9' {
        Some(9)
    } else {
        None
    }
}

/// The letter of a file (column): 'a' to 'h'.
pub open spec fn file_char(f: int) -> char {
    if f == 0 {
        'a'
    } else if f == 1 {
        'b'
    } else if f == 2 {
        'c'
    } else if f == 3 {
        'd'
    } else if f == 4 {
        'e'
    } else if f == 5 {
        'f'
    } else if f == 6 {
        'g'
    } else {
        'h'
    }
}

/// The file a letter denotes, or None.
pub open spec fn char_file(ch: char) -> Option<int> {
    if ch == 'a' {
        Some(0)
    } else if ch == 'b' {
        Some(1)
    } else if ch == 'c' {
        Some(2)
    } else if ch == 'd' {
        Some(3)
    } else if ch == 'e' {
        Some(4)
    } else if ch == 'f' {
        Some(5)
    } else if ch == 'g' {
        Some(6)
    } else if ch == 'h' {
        Some(7)
    } else {
        None
    }
}

/// The side-to-move letter.
pub open spec fn side_char(c: Color) -> char {
    match c {
        Color::White => 'w',
        Color::Black => 'b',
    }
}

// ---------------------------------------------------------------------------
// Serialization, as a function over the model
// ---------------------------------------------------------------------------

/// The empty square table.
pub open spec fn empty64() -> Seq<Option<(Piece, Color)>> {
    Seq::new(64, |i: int| None)
}

/// The square table described by a list of (piece, color, square) entries,
/// placed in order; for a repeated square the later entry wins.
pub open spec fn place_all(ps: Seq<(Piece, Color, u8)>) -> Seq<Option<(Piece, Color)>>
    decreases ps.len(),
{
    if ps.len() == 0 {
        empty64()
    } else {
        let e = ps.last();
        place_all(ps.drop_last()).update(e.2 as int, Some((e.0, e.1)))
    }
}

/// The placement text of one rank from file `f` on, with `pending` empty
/// squares seen and not yet flushed as a count digit.
pub open spec fn enc_rank(
    s: Seq<Option<(Piece, Color)>>,
    r: int,
    f: int,
    pending: int,
) -> Seq<char>
    decreases (if f < 8 {
        9 - f
    } else {
        0
    }),
{
    if !(0 <= f < 8) {
        if pending > 0 {
            seq![dec_char(pending)]
        } else {
            seq![]
        }
    } else {
        match s[square_at(r, f)] {
            None => enc_rank(s, r, f + 1, pending + 1),
            Some((p, c)) => (if pending > 0 {
                seq![dec_char(pending)]
            } else {
                seq![]
            }) + seq![piece_char(p, c)] + enc_rank(s, r, f + 1, 0),
        }
    }
}

/// The placement text of ranks 7 down to `r`, separated by '/'.
pub open spec fn placement_down(s: Seq<Option<(Piece, Color)>>, r: int) -> Seq<char>
    decreases (if r >= 0 {
        8 - r
    } else {
        0
    }),
{
    if r >= 7 || r < 0 {
        enc_rank(s, 7, 0, 0)
    } else {
        placement_down(s, r + 1) + seq!['/'] + enc_rank(s, r, 0, 0)
    }
}

/// The en-passant field: the target square in algebraic form, or '-'.
pub open spec fn ep_seq(ep: Option<u8>) -> Seq<char> {
    match ep {
        None => seq!['-'],
        Some(e) => seq![file_char(file_of(e as int)), dec_char(rank_of(e as int) + 1)],
    }
}

/// The decimal digits of a number, most significant first.
pub open spec fn dec_digits(n: nat) -> Seq<char>
    decreases n,
{
    if n < 10 {
        seq![dec_char(n as int)]
    } else {
        dec_digits(n / 10) + seq![dec_char((n % 10) as int)]
    }
}

/// The full notation text of a position's fields: six space-separated fields.
pub open spec fn fen_of_model(
    pieces: Seq<(Piece, Color, u8)>,
    side: Color,
    castling: Seq<char>,
    ep: Option<u8>,
    half: u32,
    full: u32,
) -> Seq<char> {
    placement_down(place_all(pieces), 0) + seq![' '] + seq![side_char(side)] + seq![' '] + castling
        + seq![' '] + ep_seq(ep) + seq![' '] + dec_digits(half as nat) + seq![' '] + dec_digits(
        full as nat,
    )
}

/// The full notation text of a position.
pub open spec fn fen_of(pos: &Position) -> Seq<char> {
    fen_of_model(
        pos.pieces@,
        pos.side_to_move,
        pos.castling_rights@,
        pos.en_passant,
        pos.halfmove_clock,
        pos.fullmove_number,
    )
}

// ---------------------------------------------------------------------------
// Parsing, as functions over the text
// ---------------------------------------------------------------------------

/// The placement parser: consumes the text left to right, tracking the rank
/// and file about to be filled and accumulating the pieces in scan order.
/// Rejects an unknown character, an overfull rank, a misplaced separator, and
/// text that does not end at the last file of rank 1.
pub open spec fn parse_plc(
    t: Seq<char>,
    r: int,
    f: int,
    acc: Seq<(Piece, Color, u8)>,
) -> Option<Seq<(Piece, Color, u8)>>
    decreases t.len(),
{
    if t.len() == 0 {
        if r == 0 && f == 8 {
            Some(acc)
        } else {
            None
        }
    } else {
        let ch = t[0];
        let rest = t.subrange(1, t.len() as int);
        if ch == '/' {
            if f == 8 && r > 0 {
                parse_plc(rest, r - 1, 0, acc)
            } else {
                None
            }
        } else {
            match char_piece(ch) {
                Some((p, c)) => if 0 <= f < 8 && 0 <= r < 8 {
                    parse_plc(rest, r, f + 1, acc.push((p, c, (r * 8 + f) as u8)))
                } else {
                    None
                },
                None => match char_dec(ch) {
                    Some(d) => if 1 <= d && f + d <= 8 {
                        parse_plc(rest, r, f + d, acc)
                    } else {
                        None
                    },
                    None => None,
                },
            }
        }
    }
}

/// The side-to-move field.
pub open spec fn parse_side(t: Seq<char>) -> Option<Color> {
    if t.len() == 1 && t[0] == 'w' {
        Some(Color::White)
    } else if t.len() == 1 && t[0] == 'b' {
        Some(Color::Black)
    } else {
        None
    }
}

/// The en-passant field: '-' for none, else an algebraic square.
pub open spec fn parse_ep(t: Seq<char>) -> Option<Option<u8>> {
    if t.len() == 1 && t[0] == '-' {
        Some(None)
    } else if t.len() == 2 {
        match (char_file(t[0]), char_dec(t[1])) {
            (Some(f), Some(d)) => if 1 <= d <= 8 {
                Some(Some(((d - 1) * 8 + f) as u8))
            } else {
                None
            },
            _ => None,
        }
    } else {
        None
    }
}

/// Whether the text is one or more decimal digits.
pub open spec fn dec_valid(t: Seq<char>) -> bool {
    t.len() > 0 && forall|i: int| 0 <= i < t.len() ==> char_dec(#[trigger] t[i]) is Some
}

/// The number the digits spell (a character that is no digit counts zero).
pub open spec fn dec_val(t: Seq<char>) -> int
    decreases t.len(),
{
    if t.len() == 0 {
        0
    } else {
        dec_val(t.drop_last()) * 10 + (match char_dec(t.last()) {
            Some(d) => d,
            None => 0,
        })
    }
}

/// A clock field: its decimal value, or the default where the text is not a
/// number that fits (the lossy fallback the notation permits).
pub open spec fn parse_clock(t: Seq<char>, default: u32) -> u32 {
    if dec_valid(t) && dec_val(t) <= u32::MAX {
        dec_val(t) as u32
    } else {
        default
    }
}

/// The text split at every single space character.
pub open spec fn split_from(t: Seq<char>, i: int, start: int) -> Seq<Seq<char>>
    decreases (if i < t.len() {
        t.len() - i
    } else {
        0
    }),
{
    if !(0 <= start <= i <= t.len()) {
        seq![]
    } else if i == t.len() {
        seq![t.subrange(start, i)]
    } else if t[i] == ' ' {
        seq![t.subrange(start, i)] + split_from(t, i + 1, i + 1)
    } else {
        split_from(t, i + 1, start)
    }
}

/// The fields of the text: split at each space.
pub open spec fn split_sp(t: Seq<char>) -> Seq<Seq<char>> {
    split_from(t, 0, 0)
}

/// The whole parse: at least six fields; the placement, side and en-passant
/// fields must be well formed; the castling field is kept as written; the two
/// clock fields fall back to 0 and 1. The result lists the parsed pieces in
/// scan order and the remaining fields of the position.
pub open spec fn parse_fen(t: Seq<char>) -> Option<
    (Seq<(Piece, Color, u8)>, Color, Seq<char>, Option<u8>, u32, u32),
> {
    let toks = split_sp(t);
    if toks.len() < 6 {
        None
    } else {
        match parse_plc(toks[0], 7, 0, Seq::empty()) {
            None => None,
            Some(pieces) => match parse_side(toks[1]) {
                None => None,
                Some(side) => match parse_ep(toks[3]) {
                    None => None,
                    Some(ep) => Some(
                        (
                            pieces,
                            side,
                            toks[2],
                            ep,
                            parse_clock(toks[4], 0),
                            parse_clock(toks[5], 1),
                        ),
                    ),
                },
            },
        }
    }
}

// ---------------------------------------------------------------------------
// Parsing, executable
// ---------------------------------------------------------------------------

/// Every field the splitter yields is free of spaces.
proof fn lemma_split_tokens_plain(t: Seq<char>, i: int, start: int)
    requires
        0 <= start <= i <= t.len(),
        forall|j: int| start <= j < i ==> t[j] != ' ',
    ensures
        forall|k: int|
            0 <= k < split_from(t, i, start).len() ==> !(#[trigger] split_from(t, i, start)[k]).contains(
                ' ',
            ),
    decreases t.len() - i,
{
    if i == t.len() {
        let tok = t.subrange(start, i);
        assert forall|k: int|
            0 <= k < split_from(t, i, start).len() implies !(#[trigger] split_from(t, i, start)[k]).contains(
            ' ',
        ) by {
            assert(split_from(t, i, start)[k] == tok);
            if tok.contains(' ') {
                let j = choose|j: int| 0 <= j < tok.len() && tok[j] == ' ';
                assert(t[start + j] == ' ');
            }
        }
    } else if t[i] == ' ' {
        lemma_split_tokens_plain(t, i + 1, i + 1);
        let tok = t.subrange(start, i);
        let tail = split_from(t, i + 1, i + 1);
        assert forall|k: int|
            0 <= k < split_from(t, i, start).len() implies !(#[trigger] split_from(t, i, start)[k]).contains(
            ' ',
        ) by {
            if k == 0 {
                assert(split_from(t, i, start)[0] == tok);
                if tok.contains(' ') {
                    let j = choose|j: int| 0 <= j < tok.len() && tok[j] == ' ';
                    assert(t[start + j] == ' ');
                }
            } else {
                assert(split_from(t, i, start)[k] == tail[k - 1]);
            }
        }
    } else {
        lemma_split_tokens_plain(t, i + 1, start);
        assert forall|k: int|
            0 <= k < split_from(t, i, start).len() implies !(#[trigger] split_from(t, i, start)[k]).contains(
            ' ',
        ) by {
            assert(split_from(t, i, start)[k] == split_from(t, i + 1, start)[k]);
        }
    }
}

/// The texts of a list of token boundaries.
pub open spec fn token_views(t: Seq<char>, bs: Seq<(usize, usize)>) -> Seq<Seq<char>> {
    bs.map_values(|b: (usize, usize)| t.subrange(b.0 as int, b.1 as int))
}

/// Find the boundaries of the space-separated fields.
fn split_tokens(s: &str) -> (toks: Vec<(usize, usize)>)
    ensures
        token_views(s@, toks@) == split_sp(s@),
        forall|j: int|
            0 <= j < toks@.len() ==> 0 <= (#[trigger] toks@[j]).0 <= toks@[j].1 <= s@.len(),
        forall|j: int| 0 <= j < split_sp(s@).len() ==> !(#[trigger] split_sp(s@)[j]).contains(' '),
{
    proof {
        lemma_split_tokens_plain(s@, 0, 0);
    }
    let ghost t = s@;
    let n = s.unicode_len();
    let mut toks: Vec<(usize, usize)> = Vec::new();
    let mut start: usize = 0;
    let mut i: usize = 0;
    while i < n
        invariant
            t == s@,
            n == t.len(),
            start <= i <= n,
            forall|j: int| 0 <= j < toks@.len() ==> 0 <= (#[trigger] toks@[j]).0 <= toks@[j].1 <= n,
            split_sp(t) =~= token_views(t, toks@) + split_from(t, i as int, start as int),
        decreases n - i,
    {
        if s.get_char(i) == ' ' {
            let ghost old_toks = toks@;
            toks.push((start, i));
            proof {
                assert(token_views(t, toks@) =~= token_views(t, old_toks) + seq![
                    t.subrange(start as int, i as int),
                ]);
            }
            start = i + 1;
        }
        i = i + 1;
    }
    let ghost old_toks = toks@;
    toks.push((start, n));
    proof {
        assert(token_views(t, toks@) =~= token_views(t, old_toks) + seq![
            t.subrange(start as int, n as int),
        ]);
        assert(split_from(t, n as int, start as int) =~= seq![t.subrange(start as int, n as int)]);
        assert(token_views(t, toks@) =~= split_sp(t));
    }
    toks
}

/// The piece a placement letter denotes, if any.
fn char_piece_exec(ch: char) -> (r: Option<(Piece, Color)>)
    ensures
        r == char_piece(ch),
{
    if ch == 'P' {
        Some((Piece::Pawn, Color::White))
    } else if ch == 'N' {
        Some((Piece::Knight, Color::White))
    } else if ch == 'B' {
        Some((Piece::Bishop, Color::White))
    } else if ch == 'R' {
        Some((Piece::Rook, Color::White))
    } else if ch == 'Q' {
        Some((Piece::Queen, Color::White))
    } else if ch == 'K' {
        Some((Piece::King, Color::White))
    } else if ch == 'p' {
        Some((Piece::Pawn, Color::Black))
    } else if ch == 'n' {
        Some((Piece::Knight, Color::Black))
    } else if ch == 'b' {
        Some((Piece::Bishop, Color::Black))
    } else if ch == 'r' {
        Some((Piece::Rook, Color::Black))
    } else if ch == 'q' {
        Some((Piece::Queen, Color::Black))
    } else if ch == 'k' {
        Some((Piece::King, Color::Black))
    } else {
        None
    }
}

/// The value of a decimal digit character, if any.
fn char_dec_exec(ch: char) -> (r: Option<u8>)
    ensures
        match r {
            Some(d) => char_dec(ch) == Some(d as int),
            None => char_dec(ch) is None,
        },
{
    if ch == '0' {
        Some(0)
    } else if ch == '1' {
        Some(1)
    } else if ch == '2' {
        Some(2)
    } else if ch == '3' {
        Some(3)
    } else if ch == '4' {
        Some(4)
    } else if ch == '5' {
        Some(5)
    } else if ch == '6' {
        Some(6)
    } else if ch == '7' {
        Some(7)
    } else if ch == '8' {
        Some(8)
    } else if ch == '9' {
        Some(9)
    } else {
        None
    }
}

/// The file a letter denotes, if any.
fn char_file_exec(ch: char) -> (r: Option<u8>)
    ensures
        match r {
            Some(f) => char_file(ch) == Some(f as int),
            None => char_file(ch) is None,
        },
{
    if ch == 'a' {
        Some(0)
    } else if ch == 'b' {
        Some(1)
    } else if ch == 'c' {
        Some(2)
    } else if ch == 'd' {
        Some(3)
    } else if ch == 'e' {
        Some(4)
    } else if ch == 'f' {
        Some(5)
    } else if ch == 'g' {
        Some(6)
    } else if ch == 'h' {
        Some(7)
    } else {
        None
    }
}

/// Parse the placement field, the text between indices `a` and `b`.
fn parse_placement_exec(s: &str, a: usize, b: usize) -> (r: Option<Vec<(Piece, Color, u8)>>)
    requires
        a <= b <= s@.len(),
    ensures
        match r {
            Some(v) => parse_plc(s@.subrange(a as int, b as int), 7, 0, Seq::empty()) == Some(v@)
                && (forall|j: int| 0 <= j < v@.len() ==> (#[trigger] v@[j]).2 < 64),
            None => parse_plc(s@.subrange(a as int, b as int), 7, 0, Seq::empty()) is None,
        },
{
    let ghost tok = s@.subrange(a as int, b as int);
    let mut acc: Vec<(Piece, Color, u8)> = Vec::new();
    let mut rank: u8 = 7;
    let mut file: u8 = 0;
    let mut i: usize = a;
    proof {
        assert(tok.subrange(0, tok.len() as int) =~= tok);
    }
    while i < b
        invariant
            a <= i <= b <= s@.len(),
            tok == s@.subrange(a as int, b as int),
            rank <= 7,
            file <= 8,
            parse_plc(tok, 7, 0, Seq::empty()) == parse_plc(
                tok.subrange(i - a, tok.len() as int),
                rank as int,
                file as int,
                acc@,
            ),
            forall|j: int| 0 <= j < acc@.len() ==> (#[trigger] acc@[j]).2 < 64,
        decreases b - i,
    {
        let ch = s.get_char(i);
        proof {
            assert(tok.subrange(i - a, tok.len() as int)[0] == ch);
            assert(tok.subrange(i - a, tok.len() as int).subrange(
                1,
                tok.subrange(i - a, tok.len() as int).len() as int,
            ) =~= tok.subrange(i + 1 - a, tok.len() as int));
        }
        if ch == '/' {
            if file == 8 && rank > 0 {
                rank = rank - 1;
                file = 0;
            } else {
                return None;
            }
        } else {
            match char_piece_exec(ch) {
                Some((p, c)) => {
                    if file < 8 {
                        acc.push((p, c, rank * 8 + file));
                        file = file + 1;
                    } else {
                        return None;
                    }
                },
                None => {
                    match char_dec_exec(ch) {
                        Some(d) => {
                            if 1 <= d && file + d <= 8 {
                                file = file + d;
                            } else {
                                return None;
                            }
                        },
                        None => {
                            return None;
                        },
                    }
                },
            }
        }
        i = i + 1;
    }
    proof {
        assert(tok.subrange(b - a, tok.len() as int) =~= Seq::<char>::empty());
    }
    if rank == 0 && file == 8 {
        Some(acc)
    } else {
        None
    }
}

/// `dec_val` never shrinks as more digits arrive.
proof fn lemma_dec_val_monotone(t: Seq<char>, i: int)
    requires
        0 <= i <= t.len(),
    ensures
        0 <= dec_val(t.take(i)) <= dec_val(t),
    decreases t.len(),
{
    if t.len() == 0 {
    } else if i == t.len() {
        assert(t.take(i) =~= t);
        lemma_dec_val_monotone(t.drop_last(), t.len() - 1);
        assert(t.drop_last().take(t.len() - 1) =~= t.drop_last());
        assert(dec_val(t.drop_last()) * 10 >= dec_val(t.drop_last())) by (nonlinear_arith)
            requires
                dec_val(t.drop_last()) >= 0,
        ;
    } else {
        lemma_dec_val_monotone(t.drop_last(), i);
        assert(t.drop_last().take(i) =~= t.take(i));
        assert(dec_val(t.drop_last()) * 10 >= dec_val(t.drop_last())) by (nonlinear_arith)
            requires
                dec_val(t.drop_last()) >= 0,
        ;
    }
}

/// Parse a clock field, the text between indices `a` and `b`, with the given
/// default for text that is not a number that fits.
fn parse_clock_exec(s: &str, a: usize, b: usize, default: u32) -> (r: u32)
    requires
        a <= b <= s@.len(),
    ensures
        r == parse_clock(s@.subrange(a as int, b as int), default),
{
    let ghost tok = s@.subrange(a as int, b as int);
    if a == b {
        return default;
    }
    let mut acc: u64 = 0;
    let mut i: usize = a;
    while i < b
        invariant
            a <= i <= b <= s@.len(),
            a < b,
            tok == s@.subrange(a as int, b as int),
            acc <= u32::MAX,
            acc as int == dec_val(tok.take(i - a)),
            forall|j: int| 0 <= j < i - a ==> char_dec(#[trigger] tok[j]) is Some,
        decreases b - i,
    {
        let ch = s.get_char(i);
        proof {
            assert(tok[i - a] == ch);
            assert(tok.take(i + 1 - a).drop_last() =~= tok.take(i - a));
            assert(tok.take(i + 1 - a).last() == tok[i - a]);
        }
        match char_dec_exec(ch) {
            None => {
                return default;
            },
            Some(d) => {
                let next = acc * 10 + (d as u64);
                if next > u32::MAX as u64 {
                    proof {
                        lemma_dec_val_monotone(tok, i + 1 - a);
                        assert(dec_val(tok) >= dec_val(tok.take(i + 1 - a)));
                    }
                    return default;
                }
                acc = next;
            },
        }
        i = i + 1;
    }
    proof {
        assert(tok.take(b - a) =~= tok);
        assert(dec_valid(tok));
    }
    acc as u32
}

impl Position {
    /// Parse the compact textual notation. Succeeds exactly on text whose
    /// placement, side and en-passant fields are well formed among at least
    /// six space-separated fields; the two clock fields fall back to 0 and 1
    /// when unparsable, which is lossy by design.
    pub fn from_str(fen: &str) -> (r: Result<Position, ChessError>)
        ensures
            r matches Ok(pos) ==> parse_fen(fen@) == Some(
                (
                    pos.pieces@,
                    pos.side_to_move,
                    pos.castling_rights@,
                    pos.en_passant,
                    pos.halfmove_clock,
                    pos.fullmove_number,
                ),
            ),
            r matches Ok(pos) ==> pos_wf(&pos),
            r is Err <==> parse_fen(fen@) is None,
    {
        let ghost t = fen@;
        let toks = split_tokens(fen);
        proof {
            assert(token_views(t, toks@).len() == toks@.len());
        }
        if toks.len() < 6 {
            return Err(ChessError::ParseError("Invalid FEN: not enough fields".to_owned()));
        }
        proof {
            assert forall|j: int| 0 <= j < 6 implies split_sp(t)[j] == t.subrange(
                (#[trigger] toks@[j]).0 as int,
                toks@[j].1 as int,
            ) by {
                assert(token_views(t, toks@)[j] == t.subrange(
                    toks@[j].0 as int,
                    toks@[j].1 as int,
                ));
            }
        }
        let (p0, p1) = (toks[0].0, toks[0].1);
        let pieces = match parse_placement_exec(fen, p0, p1) {
            Some(v) => v,
            None => {
                return Err(ChessError::ParseError("Invalid FEN character".to_owned()));
            },
        };

        let (s0, s1) = (toks[1].0, toks[1].1);
        let side_to_move = if s1 - s0 == 1 {
            let ch = fen.get_char(s0);
            proof {
                assert(t.subrange(s0 as int, s1 as int)[0] == ch);
            }
            if ch == 'w' {
                Color::White
            } else if ch == 'b' {
                Color::Black
            } else {
                return Err(ChessError::ParseError("Invalid side to move".to_owned()));
            }
        } else {
            return Err(ChessError::ParseError("Invalid side to move".to_owned()));
        };

        let (c0, c1) = (toks[2].0, toks[2].1);
        let castling_rights = fen.substring_char(c0, c1).to_owned();

        let (e0, e1) = (toks[3].0, toks[3].1);
        let ghost ep_tok = t.subrange(e0 as int, e1 as int);
        let en_passant: Option<u8> = if e1 - e0 == 1 {
            let ch = fen.get_char(e0);
            proof {
                assert(ep_tok[0] == ch);
            }
            if ch == '-' {
                None
            } else {
                return Err(ChessError::ParseError("Invalid en passant square".to_owned()));
            }
        } else if e1 - e0 == 2 {
            let ch0 = fen.get_char(e0);
            let ch1 = fen.get_char(e0 + 1);
            proof {
                assert(ep_tok[0] == ch0);
                assert(ep_tok[1] == ch1);
            }
            match (char_file_exec(ch0), char_dec_exec(ch1)) {
                (Some(f), Some(d)) => {
                    if 1 <= d && d <= 8 {
                        Some((d - 1) * 8 + f)
                    } else {
                        return Err(ChessError::ParseError("Invalid en passant square".to_owned()));
                    }
                },
                _ => {
                    return Err(ChessError::ParseError("Invalid en passant square".to_owned()));
                },
            }
        } else {
            return Err(ChessError::ParseError("Invalid en passant square".to_owned()));
        };

        let (h0, h1) = (toks[4].0, toks[4].1);
        let halfmove_clock = parse_clock_exec(fen, h0, h1, 0);
        let (f0, f1) = (toks[5].0, toks[5].1);
        let fullmove_number = parse_clock_exec(fen, f0, f1, 1);

        Ok(
            Position {
                pieces,
                side_to_move,
                castling_rights,
                en_passant,
                halfmove_clock,
                fullmove_number,
            },
        )
    }
}

// ---------------------------------------------------------------------------
// Reading positions out of a game record
// ---------------------------------------------------------------------------

/// Whitespace, for trimming a record line.
pub open spec fn is_ws(ch: char) -> bool {
    ch == ' ' || ch == '\t' || ch == '\r' || ch == '\n'
}

/// The text with leading whitespace dropped.
pub open spec fn trim_front(t: Seq<char>) -> Seq<char>
    decreases t.len(),
{
    if t.len() > 0 && is_ws(t[0]) {
        trim_front(t.subrange(1, t.len() as int))
    } else {
        t
    }
}

/// The text with trailing whitespace dropped.
pub open spec fn trim_back(t: Seq<char>) -> Seq<char>
    decreases t.len(),
{
    if t.len() > 0 && is_ws(t.last()) {
        trim_back(t.drop_last())
    } else {
        t
    }
}

/// The text with whitespace dropped on both ends.
pub open spec fn line_trim(t: Seq<char>) -> Seq<char> {
    trim_back(trim_front(t))
}

/// The opening of a position tag line.
pub open spec fn fen_tag_start() -> Seq<char> {
    seq!['[', 'F', 'E', 'N', ' ', '"']
}

/// A trimmed line that carries an embedded starting position.
pub open spec fn is_fen_tag(t: Seq<char>) -> bool {
    t.len() >= 8 && t.subrange(0, 6) == fen_tag_start()
}

/// The notation text inside a position tag line (between the quote and the
/// closing quote-bracket).
pub open spec fn tag_content(t: Seq<char>) -> Seq<char> {
    t.subrange(6, t.len() - 2)
}

/// A trimmed line that starts the move text of a game.
pub open spec fn is_moves_start(t: Seq<char>) -> bool {
    t.len() >= 2 && t[0] == '1' && t[1] == '.'
}

/// The notation of the standard starting position.
pub open spec fn start_fen() -> Seq<char> {
    "rnbqkbnr/pppppppp/8/8/8/8/PPPPPPPP/RNBQKBNR w KQkq - 0 1"@
}

/// Scan the record lines from `i` for the next game: skip blank lines,
/// remember the last embedded position tag, and at the first move-text line
/// yield that position's text (or the standard start). `None` means the lines
/// ran out.
pub open spec fn scan_lines(lines: Seq<String>, i: int, fen: Option<Seq<char>>) -> Option<
    Seq<char>,
>
    decreases (if i < lines.len() {
        lines.len() - i
    } else {
        0
    }),
{
    if !(0 <= i < lines.len()) {
        None
    } else {
        let t = line_trim(lines[i]@);
        if t.len() == 0 {
            scan_lines(lines, i + 1, fen)
        } else if is_fen_tag(t) {
            scan_lines(lines, i + 1, Some(tag_content(t)))
        } else if is_moves_start(t) {
            Some(
                match fen {
                    Some(f) => f,
                    None => start_fen(),
                },
            )
        } else {
            scan_lines(lines, i + 1, fen)
        }
    }
}

/// Whitespace, for trimming a record line.
fn is_ws_exec(ch: char) -> (r: bool)
    ensures
        r == is_ws(ch),
{
    ch == ' ' || ch == '\t' || ch == '\r' || ch == '\n'
}

/// The boundaries of the trimmed part of a line.
fn trim_bounds(s: &str) -> (r: (usize, usize))
    ensures
        r.0 <= r.1 <= s@.len(),
        s@.subrange(r.0 as int, r.1 as int) == line_trim(s@),
{
    let ghost t = s@;
    let n = s.unicode_len();
    let mut lo: usize = 0;
    proof {
        assert(t.subrange(0, n as int) =~= t);
    }
    while lo < n && is_ws_exec(s.get_char(lo))
        invariant
            t == s@,
            n == t.len(),
            lo <= n,
            trim_front(t) == trim_front(t.subrange(lo as int, n as int)),
        decreases n - lo,
    {
        proof {
            assert(t.subrange(lo as int, n as int).subrange(
                1,
                t.subrange(lo as int, n as int).len() as int,
            ) =~= t.subrange(lo as int + 1, n as int));
        }
        lo = lo + 1;
    }
    proof {
        assert(trim_front(t) == t.subrange(lo as int, n as int));
    }
    let mut hi: usize = n;
    while hi > lo && is_ws_exec(s.get_char(hi - 1))
        invariant
            t == s@,
            n == t.len(),
            lo <= hi <= n,
            trim_front(t) == t.subrange(lo as int, n as int),
            trim_back(t.subrange(lo as int, n as int)) == trim_back(
                t.subrange(lo as int, hi as int),
            ),
        decreases hi,
    {
        proof {
            assert(t.subrange(lo as int, hi as int).last() == t[hi - 1]);
            assert(t.subrange(lo as int, hi as int).drop_last() =~= t.subrange(
                lo as int,
                hi as int - 1,
            ));
        }
        hi = hi - 1;
    }
    proof {
        assert(line_trim(t) == t.subrange(lo as int, hi as int));
    }
    (lo, hi)
}

/// A reader that hands out, one call at a time, the starting position of each
/// game in a record held as lines of text.
pub struct PgnReader {
    pub lines: Vec<String>,
    pub cursor: usize,
}

impl PgnReader {
    /// A reader over the given record lines.
    pub fn new(lines: Vec<String>) -> (r: PgnReader)
        ensures
            r.lines == lines,
            r.cursor == 0,
    {
        PgnReader { lines, cursor: 0 }
    }

    /// The starting position of the next game: the last position tag before
    /// its move text, or the standard starting position when the game has no
    /// tag. `Ok(None)` when the lines run out; an error when the position
    /// text is malformed.
    pub fn next_position(&mut self) -> (r: Result<Option<Position>, ChessError>)
        ensures
            final(self).lines@ == old(self).lines@,
            match scan_lines(old(self).lines@, old(self).cursor as int, None) {
                None => r matches Ok(None),
                Some(f) => match parse_fen(f) {
                    Some(model) => r matches Ok(Some(pos)) && (pos.pieces@ == model.0
                        && pos.side_to_move == model.1 && pos.castling_rights@ == model.2
                        && pos.en_passant == model.3 && pos.halfmove_clock == model.4
                        && pos.fullmove_number == model.5),
                    None => r is Err,
                },
            },
    {
        let ghost lines0 = old(self).lines@;
        let ghost cur0 = old(self).cursor as int;
        let mut fen_state: Option<String> = None;
        while self.cursor < self.lines.len()
            invariant
                lines0 == old(self).lines@,
                cur0 == old(self).cursor as int,
                self.lines@ == lines0,
                cur0 <= self.cursor as int,
                scan_lines(lines0, cur0, None) == scan_lines(
                    lines0,
                    self.cursor as int,
                    match fen_state {
                        Some(st) => Some(st@),
                        None => None,
                    },
                ),
            decreases lines0.len() - self.cursor,
        {
            let line: &String = &self.lines[self.cursor];
            let ghost full = line@;
            self.cursor = self.cursor + 1;
            let (b0, b1) = trim_bounds(line.as_str());
            let ghost trimmed = full.subrange(b0 as int, b1 as int);
            let len = b1 - b0;
            if len == 0 {
                continue ;
            }
            let tag = len >= 8 && line.as_str().get_char(b0) == '[' && line.as_str().get_char(
                b0 + 1,
            ) == 'F' && line.as_str().get_char(b0 + 2) == 'E' && line.as_str().get_char(b0 + 3)
                == 'N' && line.as_str().get_char(b0 + 4) == ' ' && line.as_str().get_char(b0 + 5)
                == '"';
            proof {
                assert forall|j: int| 0 <= j < len implies trimmed[j] == full[b0 + j] by {}
                if len >= 8 {
                    assert(trimmed.subrange(0, 6) =~= fen_tag_start() <==> (trimmed[0] == '['
                        && trimmed[1] == 'F' && trimmed[2] == 'E' && trimmed[3] == 'N'
                        && trimmed[4] == ' ' && trimmed[5] == '"'));
                }
                assert(tag == is_fen_tag(trimmed));
            }
            if tag {
                let content = line.as_str().substring_char(b0 + 6, b1 - 2).to_owned();
                proof {
                    assert(content@ =~= tag_content(trimmed));
                }
                fen_state = Some(content);
                continue ;
            }
            let moves_start = len >= 2 && line.as_str().get_char(b0) == '1'
                && line.as_str().get_char(b0 + 1) == '.';
            proof {
                assert(moves_start == is_moves_start(trimmed));
            }
            if moves_start {
                proof {
                    assert(scan_lines(lines0, cur0, None) == Some(
                        match fen_state {
                            Some(st) => st@,
                            None => start_fen(),
                        },
                    ));
                }
                let parsed = match &fen_state {
                    Some(f) => Position::from_str(f.as_str()),
                    None => Position::from_str(
                        "rnbqkbnr/pppppppp/8/8/8/8/PPPPPPPP/RNBQKBNR w KQkq - 0 1",
                    ),
                };
                return match parsed {
                    Ok(pos) => Ok(Some(pos)),
                    Err(e) => Err(e),
                };
            }
            proof {
                assert(scan_lines(lines0, cur0, None) == scan_lines(
                    lines0,
                    self.cursor as int,
                    match fen_state {
                        Some(st) => Some(st@),
                        None => None,
                    },
                ));
            }
        }
        Ok(None)
    }
}

// ---------------------------------------------------------------------------
// Serialization, executable
// ---------------------------------------------------------------------------

/// The letter of a piece, as a one-character string slice.
fn piece_str(p: Piece, c: Color) -> (r: &'static str)
    ensures
        r@ =~= seq![piece_char(p, c)],
{
    proof {
        reveal_strlit("P");
        reveal_strlit("N");
        reveal_strlit("B");
        reveal_strlit("R");
        reveal_strlit("Q");
        reveal_strlit("K");
        reveal_strlit("p");
        reveal_strlit("n");
        reveal_strlit("b");
        reveal_strlit("r");
        reveal_strlit("q");
        reveal_strlit("k");
    }
    match (p, c) {
        (Piece::Pawn, Color::White) => "P",
        (Piece::Knight, Color::White) => "N",
        (Piece::Bishop, Color::White) => "B",
        (Piece::Rook, Color::White) => "R",
        (Piece::Queen, Color::White) => "Q",
        (Piece::King, Color::White) => "K",
        (Piece::Pawn, Color::Black) => "p",
        (Piece::Knight, Color::Black) => "n",
        (Piece::Bishop, Color::Black) => "b",
        (Piece::Rook, Color::Black) => "r",
        (Piece::Queen, Color::Black) => "q",
        (Piece::King, Color::Black) => "k",
    }
}

/// A decimal digit, as a one-character string slice.
fn dec_str(d: u32) -> (r: &'static str)
    requires
        d < 10,
    ensures
        r@ =~= seq![dec_char(d as int)],
{
    proof {
        reveal_strlit("0");
        reveal_strlit("1");
        reveal_strlit("2");
        reveal_strlit("3");
        reveal_strlit("4");
        reveal_strlit("5");
        reveal_strlit("6");
        reveal_strlit("7");
        reveal_strlit("8");
        reveal_strlit("9");
    }
    match d {
        0 => "0",
        1 => "1",
        2 => "2",
        3 => "3",
        4 => "4",
        5 => "5",
        6 => "6",
        7 => "7",
        8 => "8",
        _ => "9",
    }
}

/// A file letter, as a one-character string slice.
fn file_str(f: u8) -> (r: &'static str)
    requires
        f < 8,
    ensures
        r@ =~= seq![file_char(f as int)],
{
    proof {
        reveal_strlit("a");
        reveal_strlit("b");
        reveal_strlit("c");
        reveal_strlit("d");
        reveal_strlit("e");
        reveal_strlit("f");
        reveal_strlit("g");
        reveal_strlit("h");
    }
    match f {
        0 => "a",
        1 => "b",
        2 => "c",
        3 => "d",
        4 => "e",
        5 => "f",
        6 => "g",
        _ => "h",
    }
}

/// Append the decimal digits of `n`, most significant first.
fn push_dec(fen: &mut String, n: u32)
    ensures
        final(fen)@ == old(fen)@ + dec_digits(n as nat),
    decreases n,
{
    if n < 10 {
        fen.append(dec_str(n));
    } else {
        proof {
            assert(n / 10 < n) by (nonlinear_arith)
                requires
                    n >= 10,
            ;
        }
        push_dec(fen, n / 10);
        fen.append(dec_str(n % 10));
        proof {
            assert(fen@ =~= old(fen)@ + dec_digits(n as nat));
        }
    }
}

impl Position {
    /// Render the position in the compact textual notation. The inverse of
    /// parsing: a parsed position serializes back to its source text (see
    /// `lemma_notation_round_trip`).
    pub fn to_fen(&self) -> (r: String)
        requires
            pos_wf(self),
        ensures
            r@ == fen_of(self),
    {
        proof {
            reveal_strlit("/");
            reveal_strlit(" ");
            reveal_strlit("w");
            reveal_strlit("b");
            reveal_strlit("-");
        }
        let ghost pieces_seq = self.pieces@;
        let mut board: Vec<Option<(Piece, Color)>> = Vec::new();
        let mut i: usize = 0;
        while i < 64
            invariant
                i <= 64,
                board@ =~= empty64().subrange(0, i as int),
            decreases 64 - i,
        {
            board.push(None);
            i = i + 1;
        }
        proof {
            assert(board@ =~= empty64());
        }
        let mut j: usize = 0;
        while j < self.pieces.len()
            invariant
                pos_wf(self),
                pieces_seq == self.pieces@,
                j <= pieces_seq.len(),
                board@.len() == 64,
                board@ == place_all(pieces_seq.take(j as int)),
            decreases pieces_seq.len() - j,
        {
            let (piece, color, square) = self.pieces[j];
            board.set(square as usize, Some((piece, color)));
            proof {
                assert(pieces_seq.take(j as int + 1).drop_last() =~= pieces_seq.take(j as int));
                assert(pieces_seq.take(j as int + 1).last() == pieces_seq[j as int]);
            }
            j = j + 1;
        }
        proof {
            assert(pieces_seq.take(pieces_seq.len() as int) =~= pieces_seq);
        }
        let ghost s = board@;

        let mut fen = String::new();
        let mut rank: i8 = 7;
        while rank >= 0
            invariant
                board@ == s,
                board@.len() == 64,
                s == place_all(pieces_seq),
                -1 <= rank <= 7,
                rank == 7 ==> fen@ =~= Seq::<char>::empty(),
                rank < 7 ==> fen@ =~= placement_down(s, rank as int + 1),
            decreases rank + 1,
        {
            proof {
                reveal_strlit("/");
            }
            if rank < 7 {
                fen.append("/");
            }
            let ghost prefix = fen@;
            let mut empty: u8 = 0;
            let mut file: u8 = 0;
            while file < 8
                invariant
                    board@ == s,
                    board@.len() == 64,
                    0 <= rank <= 7,
                    file <= 8,
                    empty <= file,
                    fen@ + enc_rank(s, rank as int, file as int, empty as int) =~= prefix
                        + enc_rank(s, rank as int, 0, 0),
                decreases 8 - file,
            {
                let square = (rank as u8) * 8 + file;
                proof {
                    assert(square as int == square_at(rank as int, file as int));
                }
                match board[square as usize] {
                    None => {
                        empty = empty + 1;
                    },
                    Some((piece, color)) => {
                        if empty > 0 {
                            fen.append(dec_str(empty as u32));
                            empty = 0;
                        }
                        fen.append(piece_str(piece, color));
                    },
                }
                file = file + 1;
            }
            let ghost pending_end = empty as int;
            if empty > 0 {
                fen.append(dec_str(empty as u32));
                empty = 0;
            }
            proof {
                assert(enc_rank(s, rank as int, 8, pending_end) =~= (if pending_end > 0 {
                    seq![dec_char(pending_end)]
                } else {
                    seq![]
                }));
                assert(fen@ =~= prefix + enc_rank(s, rank as int, 0, 0));
                if rank < 7 {
                    assert(fen@ =~= placement_down(s, rank as int));
                } else {
                    assert(fen@ =~= placement_down(s, 7));
                }
            }
            rank = rank - 1;
        }
        proof {
            assert(fen@ =~= placement_down(s, 0));
        }

        fen.append(" ");
        fen.append(
            match self.side_to_move {
                Color::White => "w",
                Color::Black => "b",
            },
        );
        fen.append(" ");
        fen.append(self.castling_rights.as_str());
        fen.append(" ");
        match self.en_passant {
            Some(ep) => {
                let file = ep % 8;
                let rank_digit = ep / 8 + 1;
                fen.append(file_str(file));
                fen.append(dec_str(rank_digit as u32));
            },
            None => {
                fen.append("-");
            },
        }
        fen.append(" ");
        push_dec(&mut fen, self.halfmove_clock);
        fen.append(" ");
        push_dec(&mut fen, self.fullmove_number);
        proof {
            assert(fen@ =~= fen_of(self));
        }
        fen
    }
}


// ---------------------------------------------------------------------------
// The round-trip law: a serialized position parses back to itself
// ---------------------------------------------------------------------------

/// Parsing inverts each placement letter.
proof fn lemma_piece_char_inverse(p: Piece, c: Color)
    ensures
        char_piece(piece_char(p, c)) == Some((p, c)),
        piece_char(p, c) != ' ',
        piece_char(p, c) != '/',
        char_dec(piece_char(p, c)) is None,
{
}

/// Parsing inverts each digit character.
proof fn lemma_dec_char_inverse(n: int)
    requires
        0 <= n <= 9,
    ensures
        char_dec(dec_char(n)) == Some(n),
        dec_char(n) != ' ',
        dec_char(n) != '/',
        char_piece(dec_char(n)) is None,
{
}

/// Parsing inverts each file letter.
proof fn lemma_file_char_inverse(f: int)
    requires
        0 <= f < 8,
    ensures
        char_file(file_char(f)) == Some(f),
        file_char(f) != ' ',
{
}

/// Parsing inverts serialized decimal numbers.
proof fn lemma_dec_round_trip(n: nat)
    ensures
        dec_valid(dec_digits(n)),
        dec_val(dec_digits(n)) == n,
    decreases n,
{
    if n < 10 {
        let t = dec_digits(n);
        assert(t =~= seq![dec_char(n as int)]);
        assert(t.drop_last() =~= Seq::<char>::empty());
        assert(dec_val(Seq::<char>::empty()) == 0);
        lemma_dec_char_inverse(n as int);
    } else {
        lemma_dec_round_trip(n / 10);
        lemma_dec_char_inverse((n % 10) as int);
        let t = dec_digits(n);
        assert(t =~= dec_digits(n / 10) + seq![dec_char((n % 10) as int)]);
        assert(t.drop_last() =~= dec_digits(n / 10));
        assert(t.last() == dec_char((n % 10) as int));
        assert(dec_val(t) == dec_val(dec_digits(n / 10)) * 10 + (n % 10));
        vstd::arithmetic::div_mod::lemma_fundamental_div_mod(n as int, 10);
        assert forall|i: int| 0 <= i < t.len() implies char_dec(#[trigger] t[i]) is Some by {
            if i < dec_digits(n / 10).len() {
                assert(t[i] == dec_digits(n / 10)[i]);
            }
        }
    }
}

/// Serialized decimal numbers hold no space or '/' character.
proof fn lemma_dec_digits_plain(n: nat)
    ensures
        !dec_digits(n).contains(' '),
    decreases n,
{
    if n < 10 {
        lemma_dec_char_inverse(n as int);
        assert forall|i: int| 0 <= i < dec_digits(n).len() implies dec_digits(n)[i] != ' ' by {}
    } else {
        lemma_dec_digits_plain(n / 10);
        lemma_dec_char_inverse((n % 10) as int);
        assert forall|i: int| 0 <= i < dec_digits(n).len() implies dec_digits(n)[i] != ' ' by {
            let prefix = dec_digits(n / 10);
            if i < prefix.len() {
                assert(prefix[i] != ' ');
            }
        }
    }
}

/// Parsing inverts the serialized en-passant field.
proof fn lemma_ep_round_trip(ep: Option<u8>)
    requires
        match ep {
            Some(e) => e < 64,
            None => true,
        },
    ensures
        parse_ep(ep_seq(ep)) == Some(ep),
        !ep_seq(ep).contains(' '),
{
    match ep {
        None => {
            assert forall|i: int| 0 <= i < ep_seq(ep).len() implies ep_seq(ep)[i] != ' ' by {}
        },
        Some(e) => {
            crate::move_gen::lemma_sq_coords(e as int);
            lemma_file_char_inverse(file_of(e as int));
            lemma_dec_char_inverse(rank_of(e as int) + 1);
            let t = ep_seq(ep);
            assert(t.len() == 2);
            assert(char_file(t[0]) == Some(file_of(e as int)));
            assert(char_dec(t[1]) == Some(rank_of(e as int) + 1));
            assert(parse_ep(t) == Some(Some(((rank_of(e as int) + 1 - 1) * 8 + file_of(
                e as int,
            )) as u8)));
            assert forall|i: int| 0 <= i < t.len() implies t[i] != ' ' by {}
        },
    }
}

/// A one-rank encoding holds neither a space nor a separator.
proof fn lemma_enc_rank_plain(s: Seq<Option<(Piece, Color)>>, r: int, f: int, pending: int)
    ensures
        forall|i: int|
            0 <= i < enc_rank(s, r, f, pending).len() ==> (#[trigger] enc_rank(s, r, f, pending)[i])
                != ' ' && enc_rank(s, r, f, pending)[i] != '/',
    decreases (if f < 8 {
        9 - f
    } else {
        0
    }),
{
    if !(0 <= f < 8) {
        assert forall|i: int|
            0 <= i < enc_rank(s, r, f, pending).len() implies (#[trigger] enc_rank(
            s,
            r,
            f,
            pending,
        )[i]) != ' ' && enc_rank(s, r, f, pending)[i] != '/' by {
            assert(enc_rank(s, r, f, pending)[i] == dec_char(pending));
        }
    } else {
        match s[square_at(r, f)] {
            None => {
                lemma_enc_rank_plain(s, r, f + 1, pending + 1);
                assert forall|i: int|
                    0 <= i < enc_rank(s, r, f, pending).len() implies (#[trigger] enc_rank(
                    s,
                    r,
                    f,
                    pending,
                )[i]) != ' ' && enc_rank(s, r, f, pending)[i] != '/' by {
                    assert(enc_rank(s, r, f, pending)[i] == enc_rank(s, r, f + 1, pending + 1)[i]);
                }
            },
            Some((p, c)) => {
                lemma_enc_rank_plain(s, r, f + 1, 0);
                lemma_piece_char_inverse(p, c);
                let head = (if pending > 0 {
                    seq![dec_char(pending)]
                } else {
                    seq![]
                }) + seq![piece_char(p, c)];
                assert forall|i: int|
                    0 <= i < enc_rank(s, r, f, pending).len() implies (#[trigger] enc_rank(
                    s,
                    r,
                    f,
                    pending,
                )[i]) != ' ' && enc_rank(s, r, f, pending)[i] != '/' by {
                    if i < head.len() {
                        assert(enc_rank(s, r, f, pending)[i] == head[i]);
                    } else {
                        assert(enc_rank(s, r, f, pending)[i] == enc_rank(s, r, f + 1, 0)[i
                            - head.len()]);
                    }
                }
            },
        }
    }
}

/// A placement encoding holds no space.
proof fn lemma_placement_plain(s: Seq<Option<(Piece, Color)>>, r: int)
    ensures
        !placement_down(s, r).contains(' '),
    decreases (if r >= 0 {
        8 - r
    } else {
        0
    }),
{
    if r >= 7 || r < 0 {
        lemma_enc_rank_plain(s, 7, 0, 0);
        assert forall|i: int|
            0 <= i < placement_down(s, r).len() implies placement_down(s, r)[i] != ' ' by {}
    } else {
        lemma_placement_plain(s, r + 1);
        lemma_enc_rank_plain(s, r, 0, 0);
        let whole = placement_down(s, r);
        let head = placement_down(s, r + 1);
        assert forall|i: int| 0 <= i < whole.len() implies whole[i] != ' ' by {
            if i < head.len() {
                assert(whole[i] == head[i]);
                assert(!head.contains(' ') ==> head[i] != ' ');
                assert(head.contains(' ') == (exists|j: int| 0 <= j < head.len() && head[j] == ' '));
            } else if i == head.len() {
                assert(whole[i] == '/');
            } else {
                assert(whole[i] == enc_rank(s, r, 0, 0)[i - head.len() - 1]);
            }
        }
    }
}

/// Splitting after a prefix looks only at the suffix.
proof fn lemma_split_shift(x: Seq<char>, y: Seq<char>, i: int, start: int)
    requires
        0 <= start <= i <= y.len(),
    ensures
        split_from(x + y, x.len() + i, x.len() + start) == split_from(y, i, start),
    decreases y.len() - i,
{
    let t = x + y;
    if i == y.len() {
        assert(t.subrange(x.len() + start, x.len() + i) =~= y.subrange(start, i));
    } else {
        assert(t[x.len() + i] == y[i]);
        if y[i] == ' ' {
            lemma_split_shift(x, y, i + 1, i + 1);
            assert(t.subrange(x.len() + start, x.len() + i) =~= y.subrange(start, i));
        } else {
            lemma_split_shift(x, y, i + 1, start);
        }
    }
}

/// Walking over space-free text does not split it.
proof fn lemma_split_walk(t: Seq<char>, bound: int, k: int)
    requires
        0 <= k <= bound <= t.len(),
        forall|j: int| 0 <= j < bound ==> t[j] != ' ',
    ensures
        split_from(t, 0, 0) == split_from(t, k, 0),
    decreases k,
{
    if k > 0 {
        lemma_split_walk(t, bound, k - 1);
        assert(t[k - 1] != ' ');
        assert(split_from(t, k - 1, 0) == split_from(t, k, 0));
    }
}

/// Splitting text that begins with a space-free field and a space yields that
/// field and then the split of the rest.
proof fn lemma_split_concat(a: Seq<char>, b: Seq<char>)
    requires
        !a.contains(' '),
    ensures
        split_sp(a + seq![' '] + b) == seq![a] + split_sp(b),
{
    let t = a + seq![' '] + b;
    assert forall|j: int| 0 <= j < a.len() implies t[j] != ' ' by {
        assert(t[j] == a[j]);
        assert(a.contains(' ') == (exists|i: int| 0 <= i < a.len() && a[i] == ' '));
    }
    lemma_split_walk(t, a.len() as int, a.len() as int);
    assert(t[a.len() as int] == ' ');
    assert(split_from(t, a.len() as int, 0) == seq![t.subrange(0, a.len() as int)] + split_from(
        t,
        a.len() as int + 1,
        a.len() as int + 1,
    ));
    assert(t.subrange(0, a.len() as int) =~= a);
    assert(t =~= (a + seq![' ']) + b);
    lemma_split_shift(a + seq![' '], b, 0, 0);
    assert(split_from(
        (a + seq![' ']) + b,
        (a + seq![' ']).len() as int,
        (a + seq![' ']).len() as int,
    ) == split_from(b, 0, 0));
    assert(split_from(t, a.len() as int + 1, a.len() as int + 1) == split_from(b, 0, 0));
}



/// The pieces of rank `r` from file `f` on, in file order.
pub open spec fn rank_pieces(s: Seq<Option<(Piece, Color)>>, r: int, f: int) -> Seq<
    (Piece, Color, u8),
>
    decreases (if f < 8 {
        8 - f
    } else {
        0
    }),
{
    if !(0 <= f < 8) {
        seq![]
    } else {
        match s[square_at(r, f)] {
            None => rank_pieces(s, r, f + 1),
            Some((p, c)) => seq![(p, c, (r * 8 + f) as u8)] + rank_pieces(s, r, f + 1),
        }
    }
}

/// The pieces of ranks `r` down to 0, in scan order.
pub open spec fn scan_from(s: Seq<Option<(Piece, Color)>>, r: int) -> Seq<(Piece, Color, u8)>
    decreases (if r >= 0 {
        r + 1
    } else {
        0
    }),
{
    if r < 0 {
        seq![]
    } else {
        rank_pieces(s, r, 0) + scan_from(s, r - 1)
    }
}

/// The pieces of a square table in scan order: rank 8 first, file a first.
pub open spec fn scan_pieces(s: Seq<Option<(Piece, Color)>>) -> Seq<(Piece, Color, u8)> {
    scan_from(s, 7)
}

/// The placement text of ranks `r` down to 0, head first.
pub open spec fn ranks_from(s: Seq<Option<(Piece, Color)>>, r: int) -> Seq<char>
    decreases (if r >= 0 {
        r + 1
    } else {
        0
    }),
{
    if r < 0 {
        seq![]
    } else if r == 0 {
        enc_rank(s, 0, 0, 0)
    } else {
        enc_rank(s, r, 0, 0) + seq!['/'] + ranks_from(s, r - 1)
    }
}

/// The two placement forms agree.
proof fn lemma_placement_is_ranks(s: Seq<Option<(Piece, Color)>>, r: int)
    requires
        0 <= r <= 7,
    ensures
        placement_down(s, r) + (if r > 0 {
            seq!['/'] + ranks_from(s, r - 1)
        } else {
            seq![]
        }) == ranks_from(s, 7),
    decreases 8 - r,
{
    if r == 7 {
        assert(placement_down(s, 7) + (seq!['/'] + ranks_from(s, 6)) =~= ranks_from(s, 7));
    } else {
        lemma_placement_is_ranks(s, r + 1);
        if r > 0 {
            assert(placement_down(s, r) + (seq!['/'] + ranks_from(s, r - 1)) =~= placement_down(
                s,
                r + 1,
            ) + (seq!['/'] + ranks_from(s, r)));
        } else {
            assert(placement_down(s, 0) + seq![] =~= placement_down(s, 1) + (seq!['/'] + ranks_from(
                s,
                0,
            )));
        }
    }
}

/// Parsing inverts the encoding of one rank, the accumulated pieces growing by
/// the rank's pieces from file `f` on.
proof fn lemma_parse_enc_rank(
    s: Seq<Option<(Piece, Color)>>,
    r: int,
    f: int,
    pending: int,
    rest: Seq<char>,
    acc: Seq<(Piece, Color, u8)>,
)
    requires
        s.len() == 64,
        0 <= r < 8,
        0 <= pending <= f <= 8,
        forall|j: int| f - pending <= j < f ==> s[square_at(r, j)] is None,
    ensures
        parse_plc(enc_rank(s, r, f, pending) + rest, r, f - pending, acc) == parse_plc(
            rest,
            r,
            8,
            acc + rank_pieces(s, r, f),
        ),
    decreases 8 - f,
{
    if f == 8 {
        assert(rank_pieces(s, r, 8) =~= Seq::<(Piece, Color, u8)>::empty());
        assert(acc + rank_pieces(s, r, 8) =~= acc);
        if pending > 0 {
            let t = enc_rank(s, r, 8, pending) + rest;
            assert(enc_rank(s, r, 8, pending) =~= seq![dec_char(pending)]);
            assert(t[0] == dec_char(pending));
            assert(t.subrange(1, t.len() as int) =~= rest);
            lemma_dec_char_inverse(pending);
            assert(parse_plc(t, r, 8 - pending, acc) == parse_plc(rest, r, 8, acc));
        } else {
            assert(enc_rank(s, r, 8, 0) + rest =~= rest);
        }
    } else {
        match s[square_at(r, f)] {
            None => {
                lemma_parse_enc_rank(s, r, f + 1, pending + 1, rest, acc);
                assert(enc_rank(s, r, f, pending) == enc_rank(s, r, f + 1, pending + 1));
                assert(rank_pieces(s, r, f) == rank_pieces(s, r, f + 1));
            },
            Some((p, c)) => {
                lemma_piece_char_inverse(p, c);
                let tail = enc_rank(s, r, f + 1, 0) + rest;
                let acc2 = acc.push((p, c, (r * 8 + f) as u8));
                lemma_parse_enc_rank(s, r, f + 1, 0, rest, acc2);
                let u = seq![piece_char(p, c)] + tail;
                assert(u[0] == piece_char(p, c));
                assert(u.subrange(1, u.len() as int) =~= tail);
                assert(acc2 =~= acc.push((p, c, (r * 8 + f) as u8)));
                assert(parse_plc(u, r, f, acc) == parse_plc(tail, r, f + 1, acc2));
                if pending > 0 {
                    lemma_dec_char_inverse(pending);
                    let t = enc_rank(s, r, f, pending) + rest;
                    assert(t =~= seq![dec_char(pending)] + u);
                    assert((seq![dec_char(pending)] + u)[0] == dec_char(pending));
                    assert((seq![dec_char(pending)] + u).subrange(
                        1,
                        (seq![dec_char(pending)] + u).len() as int,
                    ) =~= u);
                    assert(parse_plc(t, r, f - pending, acc) == parse_plc(u, r, f, acc));
                } else {
                    let t = enc_rank(s, r, f, pending) + rest;
                    assert(t =~= u);
                }
                assert(acc2 + rank_pieces(s, r, f + 1) =~= acc + rank_pieces(s, r, f));
            },
        }
    }
}

/// Parsing inverts the encoding of ranks `r` down to 0.
proof fn lemma_parse_ranks(
    s: Seq<Option<(Piece, Color)>>,
    r: int,
    rest: Seq<char>,
    acc: Seq<(Piece, Color, u8)>,
)
    requires
        s.len() == 64,
        0 <= r <= 7,
    ensures
        parse_plc(ranks_from(s, r) + rest, r, 0, acc) == parse_plc(
            rest,
            0,
            8,
            acc + scan_from(s, r),
        ),
    decreases r,
{
    if r == 0 {
        lemma_parse_enc_rank(s, 0, 0, 0, rest, acc);
        assert(scan_from(s, -1) =~= Seq::<(Piece, Color, u8)>::empty());
        assert(scan_from(s, 0) =~= rank_pieces(s, 0, 0));
        assert(acc + scan_from(s, 0) =~= acc + rank_pieces(s, 0, 0));
    } else {
        let after = seq!['/'] + (ranks_from(s, r - 1) + rest);
        assert(ranks_from(s, r) + rest =~= enc_rank(s, r, 0, 0) + after);
        lemma_parse_enc_rank(s, r, 0, 0, after, acc);
        let acc1 = acc + rank_pieces(s, r, 0);
        assert(after[0] == '/');
        assert(after.subrange(1, after.len() as int) =~= ranks_from(s, r - 1) + rest);
        assert(parse_plc(after, r, 8, acc1) == parse_plc(
            ranks_from(s, r - 1) + rest,
            r - 1,
            0,
            acc1,
        ));
        lemma_parse_ranks(s, r - 1, rest, acc1);
        assert(acc1 + scan_from(s, r - 1) =~= acc + scan_from(s, r));
    }
}

/// Parsing inverts the whole placement encoding.
proof fn lemma_parse_placement(s: Seq<Option<(Piece, Color)>>)
    requires
        s.len() == 64,
    ensures
        parse_plc(placement_down(s, 0), 7, 0, Seq::empty()) == Some(scan_pieces(s)),
{
    lemma_placement_is_ranks(s, 0);
    assert(placement_down(s, 0) =~= ranks_from(s, 7) + Seq::<char>::empty());
    lemma_parse_ranks(s, 7, Seq::empty(), Seq::empty());
    assert(parse_plc(Seq::empty(), 0, 8, Seq::empty() + scan_from(s, 7)) == Some(
        Seq::empty() + scan_from(s, 7),
    ));
    assert(Seq::empty() + scan_from(s, 7) =~= scan_pieces(s));
}

/// The pieces of a rank: their squares lie on that rank at or past file `f`
/// in strictly increasing file order, they report what the table holds, and
/// every occupied square of the rank appears.
proof fn lemma_rank_pieces_props(s: Seq<Option<(Piece, Color)>>, r: int, f: int)
    requires
        s.len() == 64,
        0 <= r < 8,
        0 <= f <= 8,
    ensures
        forall|i: int|
            0 <= i < rank_pieces(s, r, f).len() ==> {
                let e = #[trigger] rank_pieces(s, r, f)[i];
                e.2 < 64 && rank_of(e.2 as int) == r && f <= file_of(e.2 as int) < 8 && s[e.2 as int]
                    == Some((e.0, e.1))
            },
        forall|i: int, j: int|
            0 <= i < j < rank_pieces(s, r, f).len() ==> file_of(
                (#[trigger] rank_pieces(s, r, f)[i]).2 as int,
            ) < file_of((#[trigger] rank_pieces(s, r, f)[j]).2 as int),
        forall|t: int|
            0 <= t < 64 && rank_of(t) == r && f <= file_of(t) && s[t] is Some ==> exists|i: int|
                0 <= i < rank_pieces(s, r, f).len() && (#[trigger] rank_pieces(s, r, f)[i]).2 as int
                    == t,
    decreases 8 - f,
{
    if f == 8 {
        assert forall|t: int|
            0 <= t < 64 && rank_of(t) == r && f <= file_of(t) && s[t] is Some implies exists|
            i: int,
        |
            0 <= i < rank_pieces(s, r, f).len() && (#[trigger] rank_pieces(s, r, f)[i]).2 as int
                == t by {
            crate::move_gen::lemma_sq_coords(t);
        }
    } else {
        lemma_rank_pieces_props(s, r, f + 1);
        crate::move_gen::lemma_coords_sq(r, f);
        let rp = rank_pieces(s, r, f);
        let tail = rank_pieces(s, r, f + 1);
        match s[square_at(r, f)] {
            None => {
                assert forall|t: int|
                    0 <= t < 64 && rank_of(t) == r && f <= file_of(t) && s[t] is Some implies exists|
                    i: int,
                |
                    0 <= i < rp.len() && (#[trigger] rp[i]).2 as int == t by {
                    crate::move_gen::lemma_sq_coords(t);
                    if file_of(t) == f {
                        assert(t == square_at(r, f));
                        assert(false);
                    }
                }
            },
            Some((p, c)) => {
                let head = (p, c, (r * 8 + f) as u8);
                assert(rp[0] == head);
                assert(forall|i: int| 0 <= i < tail.len() ==> rp[i + 1] == tail[i]);
                assert forall|i: int|
                    0 <= i < rp.len() implies {
                    let e = #[trigger] rp[i];
                    e.2 < 64 && rank_of(e.2 as int) == r && f <= file_of(e.2 as int) < 8 && s[e.2
                        as int] == Some((e.0, e.1))
                } by {
                    if i > 0 {
                        assert(rp[i] == tail[i - 1]);
                    }
                }
                assert forall|i: int, j: int|
                    0 <= i < j < rp.len() implies file_of((#[trigger] rp[i]).2 as int) < file_of(
                    (#[trigger] rp[j]).2 as int,
                ) by {
                    if i > 0 {
                        assert(rp[i] == tail[i - 1]);
                    }
                    assert(rp[j] == tail[j - 1]);
                }
                assert forall|t: int|
                    0 <= t < 64 && rank_of(t) == r && f <= file_of(t) && s[t] is Some implies exists|
                    i: int,
                |
                    0 <= i < rp.len() && (#[trigger] rp[i]).2 as int == t by {
                    crate::move_gen::lemma_sq_coords(t);
                    if file_of(t) == f {
                        assert(t == square_at(r, f));
                        assert((#[trigger] rp[0]).2 as int == t);
                    } else {
                        let i = choose|i: int|
                            0 <= i < tail.len() && (#[trigger] tail[i]).2 as int == t;
                        assert((#[trigger] rp[i + 1]).2 as int == t);
                    }
                }
            },
        }
    }
}

/// The scan of ranks `r` down to 0: faithful entries on those ranks, with
/// pairwise distinct squares, covering every occupied square.
proof fn lemma_scan_from_props(s: Seq<Option<(Piece, Color)>>, r: int)
    requires
        s.len() == 64,
        -1 <= r <= 7,
    ensures
        forall|i: int|
            0 <= i < scan_from(s, r).len() ==> {
                let e = #[trigger] scan_from(s, r)[i];
                e.2 < 64 && rank_of(e.2 as int) <= r && s[e.2 as int] == Some((e.0, e.1))
            },
        forall|i: int, j: int|
            0 <= i < j < scan_from(s, r).len() ==> (#[trigger] scan_from(s, r)[i]).2
                != (#[trigger] scan_from(s, r)[j]).2,
        forall|t: int|
            0 <= t < 64 && rank_of(t) <= r && s[t] is Some ==> exists|i: int|
                0 <= i < scan_from(s, r).len() && (#[trigger] scan_from(s, r)[i]).2 as int == t,
    decreases r + 1,
{
    if r >= 0 {
        lemma_scan_from_props(s, r - 1);
        lemma_rank_pieces_props(s, r, 0);
        let whole = scan_from(s, r);
        let head = rank_pieces(s, r, 0);
        let tail = scan_from(s, r - 1);
        assert(forall|i: int| 0 <= i < head.len() ==> whole[i] == head[i]);
        assert(forall|i: int| 0 <= i < tail.len() ==> whole[head.len() + i] == tail[i]);
        assert forall|i: int|
            0 <= i < whole.len() implies {
            let e = #[trigger] whole[i];
            e.2 < 64 && rank_of(e.2 as int) <= r && s[e.2 as int] == Some((e.0, e.1))
        } by {
            if i < head.len() {
                assert(whole[i] == head[i]);
            } else {
                assert(whole[i] == tail[i - head.len()]);
            }
        }
        assert forall|i: int, j: int|
            0 <= i < j < whole.len() implies (#[trigger] whole[i]).2 != (#[trigger] whole[j]).2 by {
            if j < head.len() {
                assert(whole[i] == head[i] && whole[j] == head[j]);
                assert(file_of(head[i].2 as int) < file_of(head[j].2 as int));
            } else if i < head.len() {
                assert(whole[i] == head[i] && whole[j] == tail[j - head.len()]);
                assert(rank_of(head[i].2 as int) == r);
                assert(rank_of(tail[j - head.len()].2 as int) <= r - 1);
            } else {
                assert(whole[i] == tail[i - head.len()] && whole[j] == tail[j - head.len()]);
            }
        }
        assert forall|t: int|
            0 <= t < 64 && rank_of(t) <= r && s[t] is Some implies exists|i: int|
            0 <= i < whole.len() && (#[trigger] whole[i]).2 as int == t by {
            if rank_of(t) == r {
                crate::move_gen::lemma_sq_coords(t);
                let i = choose|i: int| 0 <= i < head.len() && (#[trigger] head[i]).2 as int == t;
                assert((#[trigger] whole[i]).2 as int == t);
            } else {
                let i = choose|i: int| 0 <= i < tail.len() && (#[trigger] tail[i]).2 as int == t;
                assert((#[trigger] whole[head.len() + i]).2 as int == t);
            }
        }
    }
}

/// Placing a list of entries keeps the table 64 squares long.
proof fn lemma_place_all_len(ps: Seq<(Piece, Color, u8)>)
    requires
        forall|i: int| 0 <= i < ps.len() ==> (#[trigger] ps[i]).2 < 64,
    ensures
        place_all(ps).len() == 64,
    decreases ps.len(),
{
    if ps.len() > 0 {
        assert(forall|i: int|
            0 <= i < ps.drop_last().len() ==> (#[trigger] ps.drop_last()[i]).2 < 64);
        lemma_place_all_len(ps.drop_last());
        assert((#[trigger] ps[ps.len() - 1]).2 < 64);
    }
}

/// A square no entry names stays empty.
proof fn lemma_place_all_miss(ps: Seq<(Piece, Color, u8)>, t: int)
    requires
        0 <= t < 64,
        forall|i: int| 0 <= i < ps.len() ==> (#[trigger] ps[i]).2 < 64,
        forall|i: int| 0 <= i < ps.len() ==> (#[trigger] ps[i]).2 as int != t,
    ensures
        place_all(ps)[t] is None,
    decreases ps.len(),
{
    lemma_place_all_len(ps);
    if ps.len() > 0 {
        assert(forall|i: int|
            0 <= i < ps.drop_last().len() ==> (#[trigger] ps.drop_last()[i]).2 < 64);
        lemma_place_all_miss(ps.drop_last(), t);
        lemma_place_all_len(ps.drop_last());
        assert((#[trigger] ps[ps.len() - 1]).2 as int != t);
        assert((#[trigger] ps[ps.len() - 1]).2 < 64);
    }
}

/// A square exactly one entry names holds that entry's piece.
proof fn lemma_place_all_hit(ps: Seq<(Piece, Color, u8)>, i: int)
    requires
        0 <= i < ps.len(),
        forall|j: int| 0 <= j < ps.len() ==> (#[trigger] ps[j]).2 < 64,
        forall|j: int| 0 <= j < ps.len() && j != i ==> (#[trigger] ps[j]).2 != ps[i].2,
    ensures
        place_all(ps)[ps[i].2 as int] == Some((ps[i].0, ps[i].1)),
    decreases ps.len(),
{
    assert(forall|j: int|
        0 <= j < ps.drop_last().len() ==> (#[trigger] ps.drop_last()[j]).2 < 64);
    lemma_place_all_len(ps.drop_last());
    if i == ps.len() - 1 {
        assert((#[trigger] ps[i]).2 < 64);
    } else {
        lemma_place_all_hit(ps.drop_last(), i);
        assert((#[trigger] ps[ps.len() - 1]).2 != ps[i].2);
        assert((#[trigger] ps[ps.len() - 1]).2 < 64);
    }
}

/// Placing the scanned pieces of a table rebuilds the table.
proof fn lemma_place_all_scan(s: Seq<Option<(Piece, Color)>>)
    requires
        s.len() == 64,
    ensures
        place_all(scan_pieces(s)) == s,
{
    lemma_scan_from_props(s, 7);
    lemma_place_all_len(scan_pieces(s));
    let ps = scan_pieces(s);
    assert forall|t: int| 0 <= t < 64 implies place_all(ps)[t] == s[t] by {
        crate::move_gen::lemma_sq_coords(t);
        match s[t] {
            None => {
                assert forall|i: int| 0 <= i < ps.len() implies (#[trigger] ps[i]).2 as int
                    != t by {
                    if ps[i].2 as int == t {
                        assert(s[ps[i].2 as int] == Some((ps[i].0, ps[i].1)));
                    }
                }
                lemma_place_all_miss(ps, t);
            },
            Some((p, c)) => {
                assert(rank_of(t) <= 7);
                let i = choose|i: int| 0 <= i < ps.len() && (#[trigger] ps[i]).2 as int == t;
                assert(s[ps[i].2 as int] == Some((ps[i].0, ps[i].1)));
                assert forall|j: int|
                    0 <= j < ps.len() && j != i implies (#[trigger] ps[j]).2 != ps[i].2 by {}
                lemma_place_all_hit(ps, i);
            },
        }
    }
    assert(place_all(ps) =~= s);
}

/// Splitting space-free text yields that text as the one field.
proof fn lemma_split_single(a: Seq<char>)
    requires
        !a.contains(' '),
    ensures
        split_sp(a) == seq![a],
{
    assert forall|j: int| 0 <= j < a.len() implies a[j] != ' ' by {
        assert(a.contains(' ') == (exists|i: int| 0 <= i < a.len() && a[i] == ' '));
    }
    lemma_split_walk(a, a.len() as int, a.len() as int);
    assert(a.subrange(0, a.len() as int) =~= a);
}

/// Round trip: the text the serializer renders for a well-formed position
/// parses back, and serializing the parse yields the same text again. Every
/// canonical notation string is such a text, so on canonical strings
/// serialize-after-parse is the identity.
pub proof fn lemma_notation_round_trip(pos: &Position)
    requires
        pos_wf(pos),
    ensures
        parse_fen(fen_of(pos)) is Some,
        ({
            let model = parse_fen(fen_of(pos)).unwrap();
            fen_of_model(model.0, model.1, model.2, model.3, model.4, model.5) == fen_of(pos)
        }),
{
    let s = place_all(pos.pieces@);
    lemma_place_all_len(pos.pieces@);
    let a1 = placement_down(s, 0);
    let a2 = seq![side_char(pos.side_to_move)];
    let a3 = pos.castling_rights@;
    let a4 = ep_seq(pos.en_passant);
    let a5 = dec_digits(pos.halfmove_clock as nat);
    let a6 = dec_digits(pos.fullmove_number as nat);
    let t = fen_of(pos);

    lemma_placement_plain(s, 0);
    lemma_ep_round_trip(pos.en_passant);
    lemma_dec_digits_plain(pos.halfmove_clock as nat);
    lemma_dec_digits_plain(pos.fullmove_number as nat);
    assert(!a2.contains(' ')) by {
        assert forall|i: int| 0 <= i < a2.len() implies a2[i] != ' ' by {}
    }

    assert(t =~= a1 + seq![' '] + (a2 + seq![' '] + (a3 + seq![' '] + (a4 + seq![' '] + (a5
        + seq![' '] + a6)))));
    lemma_split_concat(a1, a2 + seq![' '] + (a3 + seq![' '] + (a4 + seq![' '] + (a5 + seq![' ']
        + a6))));
    lemma_split_concat(a2, a3 + seq![' '] + (a4 + seq![' '] + (a5 + seq![' '] + a6)));
    lemma_split_concat(a3, a4 + seq![' '] + (a5 + seq![' '] + a6));
    lemma_split_concat(a4, a5 + seq![' '] + a6);
    lemma_split_concat(a5, a6);
    lemma_split_single(a6);
    let toks = split_sp(t);
    assert(toks =~= seq![a1, a2, a3, a4, a5, a6]);

    lemma_parse_placement(s);
    assert(parse_side(a2) == Some(pos.side_to_move));
    lemma_dec_round_trip(pos.halfmove_clock as nat);
    lemma_dec_round_trip(pos.fullmove_number as nat);
    assert(parse_clock(a5, 0) == pos.halfmove_clock);
    assert(parse_clock(a6, 1) == pos.fullmove_number);
    assert(parse_fen(t) == Some(
        (
            scan_pieces(s),
            pos.side_to_move,
            a3,
            pos.en_passant,
            pos.halfmove_clock,
            pos.fullmove_number,
        ),
    ));

    lemma_place_all_scan(s);
    assert(fen_of_model(
        scan_pieces(s),
        pos.side_to_move,
        a3,
        pos.en_passant,
        pos.halfmove_clock,
        pos.fullmove_number,
    ) == t);
}


} // verus!
