//! Reading and writing the first four fields of Forsyth–Edwards Notation: the board, the side
//! to move, the castling rights and the en-passant target.
use vstd::prelude::*;
use vstd::string::StringSliceAdditionalSpecFns;

use crate::board::{Board, Colour, Field, Piece, lemma_board_len};
use crate::boardstate::BoardState;
use crate::location::{Coords, File, Rank, coords_of_bytes, square_at};
use crate::rules::{CastlesAllowed, Position};

verus! {

broadcast use lemma_board_len;

/// ASCII white space.
pub open spec fn is_ws(c: u8) -> bool {
    c == 32 || (9 <= c <= 13)
}

/// The first index from `i` on that is not white space.
pub open spec fn skip_ws(b: Seq<u8>, i: int) -> int
    decreases b.len() - i,
{
    if i < 0 || i >= b.len() || !is_ws(b[i]) {
        i
    } else {
        skip_ws(b, i + 1)
    }
}

/// The first index from `i` on that is white space, or the end.
pub open spec fn field_end(b: Seq<u8>, i: int) -> int
    decreases b.len() - i,
{
    if i < 0 || i >= b.len() || is_ws(b[i]) {
        i
    } else {
        field_end(b, i + 1)
    }
}

/// The bounds of the `j`-th white-space separated field that starts at or after `i`, if
/// there is one.
pub open spec fn field_at(b: Seq<u8>, i: int, j: nat) -> Option<(int, int)>
    decreases j,
{
    let start = skip_ws(b, i);
    if start >= b.len() {
        None
    } else if j == 0 {
        Some((start, field_end(b, start)))
    } else {
        field_at(b, field_end(b, start), (j - 1) as nat)
    }
}

/// The `j`-th white-space separated field of `b`.
pub open spec fn field(b: Seq<u8>, j: nat) -> Option<Seq<u8>> {
    match field_at(b, 0, j) {
        Some((s, e)) => Some(b.subrange(s, e)),
        None => None,
    }
}

/// The piece that a FEN letter stands for.
pub open spec fn piece_of_letter(c: u8) -> Option<Field> {
    let black = 'a' as u8 <= c <= 'z' as u8;
    let l = if black {
        (c - 32) as u8
    } else {
        c
    };
    let colour = if black {
        Colour::Black
    } else {
        Colour::White
    };
    if l == 'P' as u8 {
        Some(Field::Occupied(colour, Piece::Pawn))
    } else if l == 'R' as u8 {
        Some(Field::Occupied(colour, Piece::Rook))
    } else if l == 'N' as u8 {
        Some(Field::Occupied(colour, Piece::Knight))
    } else if l == 'B' as u8 {
        Some(Field::Occupied(colour, Piece::Bishop))
    } else if l == 'Q' as u8 {
        Some(Field::Occupied(colour, Piece::Queen))
    } else if l == 'K' as u8 {
        Some(Field::Occupied(colour, Piece::King))
    } else {
        None
    }
}

/// Reading the board field: the rank being filled (7 down to 0), the files of it used so
/// far, and the board.
pub type Placement = (int, int, Seq<Field>);

/// One character of the board field: `/` ends a full rank, a digit skips empty squares, a
/// letter places a piece.
pub open spec fn placement_step(st: Placement, c: u8) -> Option<Placement> {
    let (n, l, board) = st;
    if c == '/' as u8 {
        if l < 8 || n == 0 {
            None
        } else {
            Some((n - 1, 0, board))
        }
    } else if '1' as u8 <= c <= '8' as u8 {
        let k = c - '0' as u8;
        if l + k > 8 {
            None
        } else {
            Some((n, l + k, board))
        }
    } else {
        match piece_of_letter(c) {
            None => None,
            Some(f) => if l >= 8 {
                None
            } else {
                Some((n, l + 1, board.update(square_at(l, n).idx(), f)))
            },
        }
    }
}

/// The state after the first `k` characters of the board field.
pub open spec fn placement(b: Seq<u8>, k: int) -> Option<Placement>
    decreases k,
{
    if k <= 0 {
        Some((7, 0, Seq::new(64, |i: int| Field::Empty)))
    } else {
        match placement(b, k - 1) {
            None => None,
            Some(st) => placement_step(st, b[k - 1]),
        }
    }
}

/// The castling rights read from the first `k` characters of the castling field, and
/// whether a `-` has ended it.
pub open spec fn castling_prefix(b: Seq<u8>, k: int) -> Option<(CastlesAllowed, CastlesAllowed, bool)>
    decreases k,
{
    let none = CastlesAllowed { short: false, long: false };
    if k <= 0 {
        Some((none, none, false))
    } else {
        match castling_prefix(b, k - 1) {
            None => None,
            Some((w, bl, done)) => {
                let c = b[k - 1];
                if done {
                    Some((w, bl, done))
                } else if c == '-' as u8 {
                    Some((w, bl, true))
                } else if c == 'K' as u8 {
                    Some((CastlesAllowed { short: true, ..w }, bl, false))
                } else if c == 'Q' as u8 {
                    Some((CastlesAllowed { long: true, ..w }, bl, false))
                } else if c == 'k' as u8 {
                    Some((w, CastlesAllowed { short: true, ..bl }, false))
                } else if c == 'q' as u8 {
                    Some((w, CastlesAllowed { long: true, ..bl }, false))
                } else {
                    None
                }
            },
        }
    }
}

/// The position that the first four fields of `b` describe, if they are well formed: the
/// board field fills all eight ranks, and an en-passant target lies on the third or the
/// sixth rank.
pub open spec fn fen_position(b: Seq<u8>) -> Option<Position> {
    match (field(b, 0), field(b, 1), field(b, 2), field(b, 3)) {
        (Some(pieces), Some(side), Some(castling), Some(ep)) => {
            let side_to_move = if side == seq!['w' as u8] {
                Some(Colour::White)
            } else if side == seq!['b' as u8] {
                Some(Colour::Black)
            } else {
                None
            };
            let target = if ep == seq!['-' as u8] {
                Some(None::<Coords>)
            } else {
                match coords_of_bytes(ep) {
                    Some(c) => if c.rank.idx() == 2 || c.rank.idx() == 5 {
                        Some(Some(c))
                    } else {
                        None
                    },
                    None => None,
                }
            };
            match (placement(pieces, pieces.len() as int), side_to_move, castling_prefix(castling, castling.len() as int), target) {
                (Some((n, l, board)), Some(s), Some((w, bl, _)), Some(t)) => if n == 0 && l == 8 {
                    Some(
                        Position {
                            board,
                            side_to_move: s,
                            white_castling: w,
                            black_castling: bl,
                            en_passant_target: t,
                        },
                    )
                } else {
                    None
                },
                _ => None,
            }
        },
        _ => None,
    }
}

/// The first index from `i` on that is not white space, and the end of the field that
/// starts there.
fn next_field(b: &[u8], i: usize) -> (r: (usize, usize))
    requires
        i <= b@.len(),
    ensures
        r.0 == skip_ws(b@, i as int),
        r.1 == field_end(b@, r.0 as int),
        i <= r.0 <= r.1 <= b@.len(),
{
    let mut s = i;
    while s < b.len() && (b[s] == 32 || (9 <= b[s] && b[s] <= 13))
        invariant
            i <= s <= b@.len(),
            skip_ws(b@, i as int) == skip_ws(b@, s as int),
        decreases b@.len() - s,
    {
        s = s + 1;
    }
    let mut e = s;
    while e < b.len() && !(b[e] == 32 || (9 <= b[e] && b[e] <= 13))
        invariant
            s <= e <= b@.len(),
            field_end(b@, s as int) == field_end(b@, e as int),
        decreases b@.len() - e,
    {
        e = e + 1;
    }
    (s, e)
}

fn letter_piece(c: u8) -> (r: Option<Field>)
    ensures
        r == piece_of_letter(c),
{
    let black = 97 <= c && c <= 122;
    let l = if black { c - 32 } else { c };
    let colour = if black { Colour::Black } else { Colour::White };
    if l == 80 {
        Some(Field::Occupied(colour, Piece::Pawn))
    } else if l == 82 {
        Some(Field::Occupied(colour, Piece::Rook))
    } else if l == 78 {
        Some(Field::Occupied(colour, Piece::Knight))
    } else if l == 66 {
        Some(Field::Occupied(colour, Piece::Bishop))
    } else if l == 81 {
        Some(Field::Occupied(colour, Piece::Queen))
    } else if l == 75 {
        Some(Field::Occupied(colour, Piece::King))
    } else {
        None
    }
}

/// Reads the board field `b[s..e]`.
fn parse_placement(b: &[u8], s: usize, e: usize) -> (r: Option<Board>)
    requires
        s <= e <= b@.len(),
    ensures
        match placement(b@.subrange(s as int, e as int), (e - s) as int) {
            Some((n, l, board)) => if n == 0 && l == 8 {
                r is Some && r->0@ == board
            } else {
                r is None
            },
            None => r is None,
        },
{
    let ghost f = b@.subrange(s as int, e as int);
    let mut board = Board::empty();
    let mut n: usize = 7;
    let mut l: usize = 0;
    let mut k: usize = s;
    while k < e
        invariant
            s <= k <= e <= b@.len(),
            f == b@.subrange(s as int, e as int),
            n < 8,
            l <= 8,
            placement(f, (k - s) as int) == Some((n as int, l as int, board@)),
        decreases e - k,
    {
        let c = b[k];
        assert(f[(k - s) as int] == c);
        if c == 47 {
            if l < 8 || n == 0 {
                proof {
                    lemma_placement_failed(f, (k - s + 1) as int, (e - s) as int);
                }
                return None;
            }
            n = n - 1;
            l = 0;
        } else if 49 <= c && c <= 56 {
            let d = (c - 48) as usize;
            if l + d > 8 {
                proof {
                    lemma_placement_failed(f, (k - s + 1) as int, (e - s) as int);
                }
                return None;
            }
            l = l + d;
        } else {
            match letter_piece(c) {
                None => {
                    proof {
                        lemma_placement_failed(f, (k - s + 1) as int, (e - s) as int);
                    }
                    return None;
                },
                Some(fd) => {
                    if l >= 8 {
                        proof {
                            lemma_placement_failed(f, (k - s + 1) as int, (e - s) as int);
                        }
                        return None;
                    }
                    let sq = Coords::from_u8_tuple(l as i8, n as i8).unwrap();
                    board.set(sq, fd);
                    l = l + 1;
                },
            }
        }
        k = k + 1;
    }
    if n != 0 || l != 8 {
        return None;
    }
    Some(board)
}

/// Reads the castling field `b[s..e]`.
fn parse_castling(b: &[u8], s: usize, e: usize) -> (r: Option<(CastlesAllowed, CastlesAllowed)>)
    requires
        s <= e <= b@.len(),
    ensures
        match castling_prefix(b@.subrange(s as int, e as int), (e - s) as int) {
            Some((w, bl, _)) => r == Some((w, bl)),
            None => r is None,
        },
{
    let ghost f = b@.subrange(s as int, e as int);
    let mut white = CastlesAllowed { short: false, long: false };
    let mut black = CastlesAllowed { short: false, long: false };
    let mut k: usize = s;
    while k < e
        invariant
            s <= k <= e <= b@.len(),
            f == b@.subrange(s as int, e as int),
            castling_prefix(f, (k - s) as int) == Some((white, black, false)),
        decreases e - k,
    {
        let c = b[k];
        assert(f[(k - s) as int] == c);
        if c == 45 {
            proof {
                lemma_castling_done(f, (k - s + 1) as int, (e - s) as int);
            }
            return Some((white, black));
        } else if c == 75 {
            white.short = true;
        } else if c == 81 {
            white.long = true;
        } else if c == 107 {
            black.short = true;
        } else if c == 113 {
            black.long = true;
        } else {
            proof {
                lemma_castling_failed(f, (k - s + 1) as int, (e - s) as int);
            }
            return None;
        }
        k = k + 1;
    }
    Some((white, black))
}

proof fn lemma_placement_failed(f: Seq<u8>, k: int, j: int)
    requires
        0 < k <= j,
        placement(f, k) is None,
    ensures
        placement(f, j) is None,
    decreases j - k,
{
    if j > k {
        lemma_placement_failed(f, k, j - 1);
    }
}

proof fn lemma_castling_done(f: Seq<u8>, k: int, j: int)
    requires
        0 < k <= j,
        castling_prefix(f, k) matches Some((_, _, done)) && done,
    ensures
        castling_prefix(f, j) == castling_prefix(f, k),
    decreases j - k,
{
    if j > k {
        lemma_castling_done(f, k, j - 1);
    }
}

proof fn lemma_castling_failed(f: Seq<u8>, k: int, j: int)
    requires
        0 < k <= j,
        castling_prefix(f, k) is None,
    ensures
        castling_prefix(f, j) is None,
    decreases j - k,
{
    if j > k {
        lemma_castling_failed(f, k, j - 1);
    }
}

proof fn lemma_field_step(b: Seq<u8>, i: int, j: nat)
    requires
        0 <= i <= b.len(),
        skip_ws(b, i) < b.len(),
        j > 0,
    ensures
        field_at(b, i, j) == field_at(b, field_end(b, skip_ws(b, i)), (j - 1) as nat),
{
}

impl BoardState {
    /// Reads a board state from the first four fields of a FEN string (any further fields
    /// are ignored).
    pub fn from_fen(s: &str) -> (r: Option<BoardState>)
        ensures
            match fen_position(s.spec_bytes()) {
                Some(q) => r is Some && r->0@ == q,
                None => r is None,
            },
    {
        BoardState::from_fen_bytes(s.as_bytes())
    }

    /// Reads a board state from the first four fields of FEN text given as bytes.
    pub fn from_fen_bytes(b: &[u8]) -> (r: Option<BoardState>)
        ensures
            match fen_position(b@) {
                Some(q) => r is Some && r->0@ == q,
                None => r is None,
            },
    {
        let ghost bs = b@;
        let (s0, e0) = next_field(b, 0);
        if s0 >= b.len() {
            return None;
        }
        let (s1, e1) = next_field(b, e0);
        proof {
            lemma_field_step(bs, 0, 1);
        }
        if s1 >= b.len() {
            return None;
        }
        let (s2, e2) = next_field(b, e1);
        proof {
            lemma_field_step(bs, 0, 2);
            lemma_field_step(bs, e0 as int, 1);
        }
        if s2 >= b.len() {
            return None;
        }
        let (s3, e3) = next_field(b, e2);
        proof {
            lemma_field_step(bs, 0, 3);
            lemma_field_step(bs, e0 as int, 2);
            lemma_field_step(bs, e1 as int, 1);
        }
        if s3 >= b.len() {
            return None;
        }
        assert(field(bs, 0) == Some(bs.subrange(s0 as int, e0 as int)));
        assert(field(bs, 1) == Some(bs.subrange(s1 as int, e1 as int)));
        assert(field(bs, 2) == Some(bs.subrange(s2 as int, e2 as int)));
        assert(field(bs, 3) == Some(bs.subrange(s3 as int, e3 as int)));
        let board = parse_placement(b, s0, e0);
        let side = if e1 - s1 == 1 && b[s1] == 119 {
            Some(Colour::White)
        } else if e1 - s1 == 1 && b[s1] == 98 {
            Some(Colour::Black)
        } else {
            None
        };
        assert(side == (if bs.subrange(s1 as int, e1 as int) == seq!['w' as u8] {
            Some(Colour::White)
        } else if bs.subrange(s1 as int, e1 as int) == seq!['b' as u8] {
            Some(Colour::Black)
        } else {
            None
        })) by {
            let sf = bs.subrange(s1 as int, e1 as int);
            assert(seq!['w' as u8].len() == 1 && seq!['w' as u8][0] == 119);
            assert(seq!['b' as u8].len() == 1 && seq!['b' as u8][0] == 98);
            if e1 - s1 == 1 {
                assert(sf.len() == 1 && sf[0] == bs[s1 as int]);
                if sf[0] == 119 {
                    assert(sf =~= seq!['w' as u8]);
                } else if sf[0] == 98 {
                    assert(sf =~= seq!['b' as u8]);
                }
            } else {
                assert(sf.len() != 1);
            }
        }
        let castling = parse_castling(b, s2, e2);
        let ghost epf = bs.subrange(s3 as int, e3 as int);
        let target = if e3 - s3 == 1 && b[s3] == 45 {
            assert(epf =~= seq!['-' as u8]);
            Some(None)
        } else if e3 - s3 == 2 {
            proof {
                assert(epf.len() == 2 && epf[0] == bs[s3 as int] && epf[1] == bs[s3 + 1]);
                if epf == seq!['-' as u8] {
                    assert(epf.len() == 1);
                }
            }
            match (File::from_char(b[s3] as char), Rank::from_char(b[s3 + 1] as char)) {
                (Some(f), Some(n)) => if n == Rank::N3 || n == Rank::N6 {
                    Some(Some(Coords::new(f, n)))
                } else {
                    None
                },
                _ => None,
            }
        } else {
            proof {
                if epf == seq!['-' as u8] {
                    assert(epf.len() == 1 && epf[0] == bs[s3 as int]);
                }
            }
            None
        };
        match (board, side, castling, target) {
            (Some(board), Some(side_to_move), Some((white_castling, black_castling)), Some(en_passant_target)) => {
                Some(BoardState {
                    board,
                    side_to_move,
                    black_castling,
                    white_castling,
                    en_passant_target,
                })
            },
            _ => None,
        }
    }
}

/// The FEN letter of a piece: upper case for white, lower case for black.
pub open spec fn letter_of(c: Colour, piece: Piece) -> u8 {
    let upper: u8 = match piece {
        Piece::Pawn => 80,
        Piece::Rook => 82,
        Piece::Knight => 78,
        Piece::Bishop => 66,
        Piece::Queen => 81,
        Piece::King => 75,
    };
    match c {
        Colour::White => upper,
        Colour::Black => (upper + 32) as u8,
    }
}

/// A run of `run` empty squares: its digit, or nothing.
pub open spec fn run_bytes(run: int) -> Seq<u8> {
    if run > 0 {
        seq![('0' as int + run) as u8]
    } else {
        Seq::empty()
    }
}

/// Rank `n` from file `f` on, after `run` empty squares.
pub open spec fn row_bytes(p: Position, n: int, f: int, run: int) -> Seq<u8>
    decreases 8 - f,
{
    if f >= 8 || f < 0 {
        run_bytes(run)
    } else {
        match p.at(square_at(f, n)) {
            Field::Empty => row_bytes(p, n, f + 1, run + 1),
            Field::Occupied(c, piece) => run_bytes(run) + seq![letter_of(c, piece)] + row_bytes(
                p,
                n,
                f + 1,
                0,
            ),
        }
    }
}

/// Ranks `n` down to 1, separated by `/`.
pub open spec fn rows_bytes(p: Position, n: int) -> Seq<u8>
    decreases n,
{
    if n <= 0 {
        row_bytes(p, 0, 0, 0)
    } else {
        row_bytes(p, n, 0, 0) + seq!['/' as u8] + rows_bytes(p, n - 1)
    }
}

pub open spec fn castling_bytes(p: Position) -> Seq<u8> {
    let s = (if p.white_castling.short {
        seq!['K' as u8]
    } else {
        Seq::empty()
    }) + (if p.white_castling.long {
        seq!['Q' as u8]
    } else {
        Seq::empty()
    }) + (if p.black_castling.short {
        seq!['k' as u8]
    } else {
        Seq::empty()
    }) + (if p.black_castling.long {
        seq!['q' as u8]
    } else {
        Seq::empty()
    });
    if s.len() == 0 {
        seq!['-' as u8]
    } else {
        s
    }
}

pub open spec fn side_bytes(p: Position) -> Seq<u8> {
    match p.side_to_move {
        Colour::Black => seq![' ' as u8, 'b' as u8, ' ' as u8],
        Colour::White => seq![' ' as u8, 'w' as u8, ' ' as u8],
    }
}

pub open spec fn target_bytes(p: Position) -> Seq<u8> {
    match p.en_passant_target {
        Some(c) => seq![
            ' ' as u8,
            ('a' as int + c.file.idx()) as u8,
            ('1' as int + c.rank.idx()) as u8,
        ],
        None => seq![' ' as u8, '-' as u8],
    }
}

/// The first four FEN fields of a position.
pub open spec fn fen_bytes(p: Position) -> Seq<u8> {
    rows_bytes(p, 7) + side_bytes(p) + castling_bytes(p) + target_bytes(p)
}

pub open spec fn as_chars(b: Seq<u8>) -> Seq<char> {
    b.map_values(|c: u8| c as char)
}

/// Relies on String::from_utf8: ASCII bytes are valid UTF-8, each read as one character.
#[verifier::external_body]
pub(crate) fn ascii_string(b: Vec<u8>) -> (r: String)
    requires
        forall|i: int| 0 <= i < b@.len() ==> b@[i] < 128,
    ensures
        r@ == as_chars(b@),
{
    String::from_utf8(b).unwrap()
}

fn letter(c: Colour, piece: Piece) -> (r: u8)
    ensures
        r == letter_of(c, piece),
        r < 128,
{
    let upper: u8 = match piece {
        Piece::Pawn => 80,
        Piece::Rook => 82,
        Piece::Knight => 78,
        Piece::Bishop => 66,
        Piece::Queen => 81,
        Piece::King => 75,
    };
    match c {
        Colour::White => upper,
        Colour::Black => upper + 32,
    }
}

pub open spec fn ascii(b: Seq<u8>) -> bool {
    forall|i: int| 0 <= i < b.len() ==> b[i] < 128
}

/// Appends rank `n`.
fn push_row(out: &mut Vec<u8>, state: &BoardState, n: Rank)
    requires
        ascii(old(out)@),
    ensures
        final(out)@ == old(out)@ + row_bytes(state@, n.idx(), 0, 0),
        ascii(final(out)@),
{
    let ghost p = state@;
    let mut run: u8 = 0;
    let mut f: u8 = 0;
    while f < 8
        invariant
            0 <= f <= 8,
            0 <= run <= f,
            p == state@,
            ascii(out@),
            out@ + row_bytes(p, n.idx(), f as int, run as int) == old(out)@ + row_bytes(p, n.idx(), 0, 0),
        decreases 8 - f,
    {
        let file = File::new(f).unwrap();
        let sq = Coords::new(file, n);
        proof {
            crate::location::lemma_at_idx();
            File::lemma_idx_injective(file, crate::location::file_at(f as int));
        }
        assert(sq == square_at(f as int, n.idx()));
        let ghost before = out@;
        match state.get(sq) {
            Field::Empty => {
                run = run + 1;
            },
            Field::Occupied(c, piece) => {
                if run > 0 {
                    out.push(48 + run);
                }
                out.push(letter(c, piece));
                assert(out@ =~= before + run_bytes(run as int) + seq![letter_of(c, piece)]);
                run = 0;
            },
        }
        f = f + 1;
    }
    if run > 0 {
        out.push(48 + run);
    }
    assert(out@ =~= out@);
}

/// Appends the board field: ranks 8 down to 1, separated by `/`.
fn push_rows(out: &mut Vec<u8>, state: &BoardState)
    requires
        ascii(old(out)@),
    ensures
        final(out)@ == old(out)@ + rows_bytes(state@, 7),
        ascii(final(out)@),
{
    let ghost p = state@;
    let mut n: u8 = 7;
    while n > 0
        invariant
            0 <= n <= 7,
            p == state@,
            ascii(out@),
            out@ + rows_bytes(p, n as int) == old(out)@ + rows_bytes(p, 7),
        decreases n,
    {
        let rank = Rank::new(n).unwrap();
        let ghost before = out@;
        push_row(out, state, rank);
        out.push(47);
        assert(out@ + rows_bytes(p, n - 1) =~= before + rows_bytes(p, n as int));
        n = n - 1;
    }
    let ghost before = out@;
    push_row(out, state, Rank::N1);
    assert(out@ =~= before + rows_bytes(p, 0));
}

/// Appends the side to move, castling and en-passant fields.
fn push_rest(out: &mut Vec<u8>, state: &BoardState)
    requires
        ascii(old(out)@),
    ensures
        final(out)@ == old(out)@ + side_bytes(state@) + castling_bytes(state@) + target_bytes(state@),
        ascii(final(out)@),
{
    push_side(out, state);
    push_castling(out, state);
    push_target(out, state);
}

fn push_side(out: &mut Vec<u8>, state: &BoardState)
    requires
        ascii(old(out)@),
    ensures
        final(out)@ == old(out)@ + side_bytes(state@),
        ascii(final(out)@),
{
    let c: u8 = match state.side_to_move {
        Colour::Black => 98,
        Colour::White => 119,
    };
    out.push(32);
    out.push(c);
    out.push(32);
    assert(out@ =~= old(out)@ + side_bytes(state@));
}

fn push_castling(out: &mut Vec<u8>, state: &BoardState)
    requires
        ascii(old(out)@),
    ensures
        final(out)@ == old(out)@ + castling_bytes(state@),
        ascii(final(out)@),
{
    let ghost p = state@;
    let ghost w1 = if p.white_castling.short {
        seq!['K' as u8]
    } else {
        Seq::<u8>::empty()
    };
    let ghost w2 = if p.white_castling.long {
        seq!['Q' as u8]
    } else {
        Seq::<u8>::empty()
    };
    let ghost b1 = if p.black_castling.short {
        seq!['k' as u8]
    } else {
        Seq::<u8>::empty()
    };
    let ghost b2 = if p.black_castling.long {
        seq!['q' as u8]
    } else {
        Seq::<u8>::empty()
    };
    let start = out.len();
    if state.white_castling.short {
        out.push(75);
    }
    assert(out@ =~= old(out)@ + w1);
    if state.white_castling.long {
        out.push(81);
    }
    assert(out@ =~= old(out)@ + (w1 + w2));
    if state.black_castling.short {
        out.push(107);
    }
    assert(out@ =~= old(out)@ + (w1 + w2 + b1));
    if state.black_castling.long {
        out.push(113);
    }
    assert(out@ =~= old(out)@ + (w1 + w2 + b1 + b2));
    if out.len() == start {
        out.push(45);
        assert(out@ =~= old(out)@ + castling_bytes(p));
    }
}

fn push_target(out: &mut Vec<u8>, state: &BoardState)
    requires
        ascii(old(out)@),
    ensures
        final(out)@ == old(out)@ + target_bytes(state@),
        ascii(final(out)@),
{
    match state.en_passant_target {
        Some(c) => {
            out.push(32);
            out.push(97 + c.file.i8() as u8);
            out.push(49 + c.rank.i8() as u8);
        },
        None => {
            out.push(32);
            out.push(45);
        },
    }
    assert(out@ =~= old(out)@ + target_bytes(state@));
}

impl BoardState {
    /// The first four FEN fields of this state.
    pub fn display_fen(&self) -> (r: BoardStateFen<'_>)
        ensures
            *r.inner == *self,
    {
        BoardStateFen { inner: self }
    }
}

/// A board state, shown as the first four fields of FEN.
pub struct BoardStateFen<'a> {
    pub inner: &'a BoardState,
}

impl BoardStateFen<'_> {
    /// The FEN text as ASCII bytes.
    pub fn to_bytes(&self) -> (r: Vec<u8>)
        ensures
            r@ == fen_bytes(self.inner@),
            ascii(r@),
    {
        let state = self.inner;
        let ghost p = state@;
        let mut out: Vec<u8> = Vec::new();
        push_rows(&mut out, state);
        push_rest(&mut out, state);
        out
    }

    /// The FEN text.
    pub fn to_string(&self) -> (r: String)
        ensures
            r@ == as_chars(fen_bytes(self.inner@)),
    {
        ascii_string(self.to_bytes())
    }
}

} // verus!
