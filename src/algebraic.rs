//! Moves in standard algebraic notation, such as `Nbd7`, `exd5`, `e8=Q+` or `O-O-O`.
use vstd::prelude::*;
use vstd::string::StringSliceAdditionalSpecFns;

use crate::board::Piece;
use crate::fen::{as_chars, ascii, ascii_string};
use crate::location::{Coords, File, Rank, file_at, rank_at};

verus! {

#[derive(Debug, Copy, Clone, PartialEq, Eq, Structural)]
pub enum Token {
    Invalid,
    Capital(Piece),
    Letter(File),
    Number(Rank),
    /// x
    Capture,
    /// +
    Check,
    /// #
    Mate,
    /// 0-0 (O-O)
    Castle,
    /// -0 (-O)
    Long,
    /// =
    Promote,
}

#[derive(Debug, Clone, Copy, PartialEq, Eq, Structural)]
pub struct Move {
    pub move_type: MoveType,
    pub king_threat: KingThreat,
}

/// Which piece moves, and what the notation says of where it stands.
#[derive(Debug, Clone, Copy, PartialEq, Eq, Structural)]
pub enum Mover {
    Piece(Piece),
    PieceAt(Piece, Coords),
    PieceAtLetter(Piece, File),
    PieceAtNumber(Piece, Rank),
}

#[derive(Debug, Clone, Copy, PartialEq, Eq, Structural)]
pub enum MoveType {
    ShortCastle,
    LongCastle,
    Regular { mover: Mover, captures: bool, destination: Coords, promotes: Option<Piece> },
}

#[derive(Debug, Clone, Copy, PartialEq, Eq, Structural)]
pub enum KingThreat {
    NoThreat,
    Check,
    CheckMate,
}

impl Mover {
    pub open spec fn piece(self) -> Piece {
        match self {
            Mover::Piece(p) => p,
            Mover::PieceAt(p, _) => p,
            Mover::PieceAtLetter(p, _) => p,
            Mover::PieceAtNumber(p, _) => p,
        }
    }

    pub fn is_pawn(&self) -> (r: bool)
        ensures
            r == (self.piece() == Piece::Pawn),
    {
        match self {
            Mover::Piece(p) => *p == Piece::Pawn,
            Mover::PieceAt(p, _) => *p == Piece::Pawn,
            Mover::PieceAtLetter(p, _) => *p == Piece::Pawn,
            Mover::PieceAtNumber(p, _) => *p == Piece::Pawn,
        }
    }
}

pub open spec fn is_space(c: u8) -> bool {
    c == 32 || (9 <= c <= 13)
}

pub open spec fn is_zero_or_o(c: u8) -> bool {
    c == '0' as u8 || c == 'O' as u8
}

/// The token that starts at byte `i` (after white space) and where the next one starts.
pub open spec fn token_at(b: Seq<u8>, i: int) -> Option<(Token, int)>
    decreases b.len() - i,
{
    if i < 0 || i >= b.len() {
        None
    } else {
        let c = b[i];
        if is_space(c) {
            token_at(b, i + 1)
        } else if c == 'R' as u8 {
            Some((Token::Capital(Piece::Rook), i + 1))
        } else if c == 'N' as u8 {
            Some((Token::Capital(Piece::Knight), i + 1))
        } else if c == 'B' as u8 {
            Some((Token::Capital(Piece::Bishop), i + 1))
        } else if c == 'Q' as u8 {
            Some((Token::Capital(Piece::Queen), i + 1))
        } else if c == 'K' as u8 {
            Some((Token::Capital(Piece::King), i + 1))
        } else if 'a' as u8 <= c <= 'h' as u8 {
            Some((Token::Letter(file_at(c - 'a' as u8)), i + 1))
        } else if '1' as u8 <= c <= '8' as u8 {
            Some((Token::Number(rank_at(c - '1' as u8)), i + 1))
        } else if c == 'x' as u8 {
            Some((Token::Capture, i + 1))
        } else if c == '+' as u8 {
            Some((Token::Check, i + 1))
        } else if c == '#' as u8 {
            Some((Token::Mate, i + 1))
        } else if is_zero_or_o(c) {
            if i + 2 < b.len() && b[i + 1] == '-' as u8 && is_zero_or_o(b[i + 2]) {
                Some((Token::Castle, i + 3))
            } else {
                Some((Token::Invalid, vstd::math::min(i + 3, b.len() as int)))
            }
        } else if c == '-' as u8 {
            if i + 1 < b.len() && is_zero_or_o(b[i + 1]) {
                Some((Token::Long, i + 2))
            } else {
                Some((Token::Invalid, vstd::math::min(i + 2, b.len() as int)))
            }
        } else if c == '=' as u8 {
            Some((Token::Promote, i + 1))
        } else {
            Some((Token::Invalid, i + 1))
        }
    }
}

/// The token that starts at byte `i`, if any, and where the next one starts.
fn next_token(b: &[u8], start: usize) -> (r: (Option<Token>, usize))
    requires
        start <= b@.len(),
    ensures
        match token_at(b@, start as int) {
            Some((t, j)) => r.0 == Some(t) && r.1 == j,
            None => r.0 is None,
        },
        start <= r.1 <= b@.len(),
{
    let mut i = start;
    while i < b.len() && (b[i] == 32 || (9 <= b[i] && b[i] <= 13))
        invariant
            start <= i <= b@.len(),
            token_at(b@, start as int) == token_at(b@, i as int),
        decreases b@.len() - i,
    {
        i = i + 1;
    }
    if i >= b.len() {
        return (None, i);
    }
    let c = b[i];
    let n = b.len();
    let t = if c == 82 {
        Token::Capital(Piece::Rook)
    } else if c == 78 {
        Token::Capital(Piece::Knight)
    } else if c == 66 {
        Token::Capital(Piece::Bishop)
    } else if c == 81 {
        Token::Capital(Piece::Queen)
    } else if c == 75 {
        Token::Capital(Piece::King)
    } else if 97 <= c && c <= 104 {
        let f = File::new(c - 97).unwrap();
        proof {
            crate::location::lemma_at_idx();
            File::lemma_idx_injective(f, file_at(c - 97));
        }
        Token::Letter(f)
    } else if 49 <= c && c <= 56 {
        let r = Rank::new(c - 49).unwrap();
        proof {
            crate::location::lemma_at_idx();
            Rank::lemma_idx_injective(r, rank_at(c - 49));
        }
        Token::Number(r)
    } else if c == 120 {
        Token::Capture
    } else if c == 43 {
        Token::Check
    } else if c == 35 {
        Token::Mate
    } else if c == 48 || c == 79 {
        if n - i > 2 && b[i + 1] == 45 && (b[i + 2] == 48 || b[i + 2] == 79) {
            return (Some(Token::Castle), i + 3);
        } else {
            return (Some(Token::Invalid), if n - i > 3 { i + 3 } else { n });
        }
    } else if c == 45 {
        if n - i > 1 && (b[i + 1] == 48 || b[i + 1] == 79) {
            return (Some(Token::Long), i + 2);
        } else {
            return (Some(Token::Invalid), if n - i > 2 { i + 2 } else { n });
        }
    } else if c == 61 {
        Token::Promote
    } else {
        Token::Invalid
    };
    (Some(t), i + 1)
}

/// An optional `=` and promotion piece from byte `i`: the piece, and where reading goes on.
pub open spec fn promotion_at(b: Seq<u8>, i: int) -> (Option<Piece>, int) {
    match token_at(b, i) {
        Some((Token::Promote, j)) => match token_at(b, j) {
            Some((Token::Capital(p), k)) => (Some(p), k),
            Some((_, k)) => (None, k),
            None => (None, j),
        },
        _ => (None, i),
    }
}

/// A destination square (a letter, then a number) from byte `i`.
pub open spec fn destination_at(b: Seq<u8>, i: int) -> Option<(Coords, int)> {
    match token_at(b, i) {
        Some((Token::Letter(l), j)) => match token_at(b, j) {
            Some((Token::Number(n), k)) => Some((Coords { file: l, rank: n }, k)),
            _ => None,
        },
        _ => None,
    }
}

/// A regular move with promotion read from byte `i`.
pub open spec fn regular(mover: Mover, captures: bool, destination: Coords, b: Seq<u8>, i: int) -> (MoveType, int) {
    let (promotes, k) = promotion_at(b, i);
    (MoveType::Regular { mover, captures, destination, promotes }, k)
}

/// A regular move of `piece` read from byte `i`, with where reading goes on.
pub open spec fn regular_at(b: Seq<u8>, i: int, piece: Piece) -> Option<(MoveType, int)> {
    let first = token_at(b, i);
    let second = match first {
        Some((_, j1)) => token_at(b, j1),
        None => None,
    };
    match (first, second) {
        (Some((t1, _)), Some((t2, j2))) => match (t1, t2) {
            (Token::Letter(l), Token::Letter(l2)) => match token_at(b, j2) {
                Some((Token::Number(n), j3)) => Some(
                    regular(Mover::PieceAtLetter(piece, l), false, Coords { file: l2, rank: n }, b, j3),
                ),
                _ => None,
            },
            (Token::Number(n), Token::Letter(l)) => match token_at(b, j2) {
                Some((Token::Number(n2), j3)) => Some(
                    regular(Mover::PieceAtNumber(piece, n), false, Coords { file: l, rank: n2 }, b, j3),
                ),
                _ => None,
            },
            (Token::Letter(l), Token::Number(n)) => match token_at(b, j2) {
                Some((Token::Letter(l2), j3)) => match token_at(b, j3) {
                    Some((Token::Number(n2), j4)) => Some(
                        regular(
                            Mover::PieceAt(piece, Coords { file: l, rank: n }),
                            false,
                            Coords { file: l2, rank: n2 },
                            b,
                            j4,
                        ),
                    ),
                    _ => None,
                },
                Some((Token::Capture, j3)) => match destination_at(b, j3) {
                    Some((d, j4)) => Some(
                        regular(Mover::PieceAt(piece, Coords { file: l, rank: n }), true, d, b, j4),
                    ),
                    None => None,
                },
                _ => Some(
                    regular(Mover::Piece(piece), false, Coords { file: l, rank: n }, b, j2),
                ),
            },
            (Token::Letter(l), Token::Capture) => match destination_at(b, j2) {
                Some((d, j3)) => Some(regular(Mover::PieceAtLetter(piece, l), true, d, b, j3)),
                None => None,
            },
            (Token::Number(n), Token::Capture) => match destination_at(b, j2) {
                Some((d, j3)) => Some(regular(Mover::PieceAtNumber(piece, n), true, d, b, j3)),
                None => None,
            },
            (Token::Capture, Token::Letter(l2)) => match token_at(b, j2) {
                Some((Token::Number(n2), j3)) => Some(
                    regular(Mover::Piece(piece), true, Coords { file: l2, rank: n2 }, b, j3),
                ),
                _ => None,
            },
            _ => None,
        },
        _ => None,
    }
}

/// The move type read from byte `i`: a castle, a piece move, or a pawn move (which names no
/// piece).
pub open spec fn move_type_at(b: Seq<u8>, i: int) -> Option<(MoveType, int)> {
    match token_at(b, i) {
        None => None,
        Some((t, j)) => match t {
            Token::Capital(p) => regular_at(b, j, p),
            Token::Letter(_) => regular_at(b, i, Piece::Pawn),
            Token::Number(_) => regular_at(b, i, Piece::Pawn),
            Token::Capture => regular_at(b, i, Piece::Pawn),
            Token::Castle => match token_at(b, j) {
                Some((Token::Long, k)) => Some((MoveType::LongCastle, k)),
                _ => Some((MoveType::ShortCastle, j)),
            },
            _ => None,
        },
    }
}

/// The move that the text `b` starts with; what follows the move and its check mark is
/// ignored.
pub open spec fn parse_move(b: Seq<u8>) -> Option<Move> {
    match move_type_at(b, 0) {
        None => None,
        Some((move_type, j)) => Some(
            Move {
                move_type,
                king_threat: match token_at(b, j) {
                    Some((Token::Mate, _)) => KingThreat::CheckMate,
                    Some((Token::Check, k)) => match token_at(b, k) {
                        Some((Token::Check, _)) => KingThreat::CheckMate,
                        _ => KingThreat::Check,
                    },
                    _ => KingThreat::NoThreat,
                },
            },
        ),
    }
}

fn parse_promotion(b: &[u8], i: usize) -> (r: (Option<Piece>, usize))
    requires
        i <= b@.len(),
    ensures
        (r.0, r.1 as int) == promotion_at(b@, i as int),
        i <= r.1 <= b@.len(),
{
    match next_token(b, i) {
        (Some(Token::Promote), j) => match next_token(b, j) {
            (Some(Token::Capital(p)), k) => (Some(p), k),
            (Some(_), k) => (None, k),
            (None, _) => (None, j),
        },
        _ => (None, i),
    }
}

fn parse_destination(b: &[u8], i: usize) -> (r: Option<(Coords, usize)>)
    requires
        i <= b@.len(),
    ensures
        match destination_at(b@, i as int) {
            Some((c, k)) => r matches Some((c2, k2)) && c2 == c && k2 == k && i <= k <= b@.len(),
            None => r is None,
        },
{
    match next_token(b, i) {
        (Some(Token::Letter(l)), j) => match next_token(b, j) {
            (Some(Token::Number(n)), k) => Some((Coords::new(l, n), k)),
            _ => None,
        },
        _ => None,
    }
}

fn make_regular(mover: Mover, captures: bool, destination: Coords, b: &[u8], i: usize) -> (r: (MoveType, usize))
    requires
        i <= b@.len(),
    ensures
        (r.0, r.1 as int) == regular(mover, captures, destination, b@, i as int),
        i <= r.1 <= b@.len(),
{
    let (promotes, k) = parse_promotion(b, i);
    (MoveType::Regular { mover, captures, destination, promotes }, k)
}

fn parse_regular(piece: Piece, b: &[u8], i: usize) -> (r: Option<(MoveType, usize)>)
    requires
        i <= b@.len(),
    ensures
        match regular_at(b@, i as int, piece) {
            Some((t, k)) => r matches Some((t2, k2)) && t2 == t && k2 == k && i <= k <= b@.len(),
            None => r is None,
        },
{
    let (t1, j1) = next_token(b, i);
    if t1.is_none() {
        return None;
    }
    let (t2, j2) = next_token(b, j1);
    let (t1, t2) = match (t1, t2) {
        (Some(t1), Some(t2)) => (t1, t2),
        _ => {
            return None;
        },
    };
    match (t1, t2) {
        (Token::Letter(l), Token::Letter(l2)) => match next_token(b, j2) {
            (Some(Token::Number(n)), j3) => Some(
                make_regular(Mover::PieceAtLetter(piece, l), false, Coords::new(l2, n), b, j3),
            ),
            _ => None,
        },
        (Token::Number(n), Token::Letter(l)) => match next_token(b, j2) {
            (Some(Token::Number(n2)), j3) => Some(
                make_regular(Mover::PieceAtNumber(piece, n), false, Coords::new(l, n2), b, j3),
            ),
            _ => None,
        },
        (Token::Letter(l), Token::Number(n)) => match next_token(b, j2) {
            (Some(Token::Letter(l2)), j3) => match next_token(b, j3) {
                (Some(Token::Number(n2)), j4) => Some(
                    make_regular(
                        Mover::PieceAt(piece, Coords::new(l, n)),
                        false,
                        Coords::new(l2, n2),
                        b,
                        j4,
                    ),
                ),
                _ => None,
            },
            (Some(Token::Capture), j3) => match parse_destination(b, j3) {
                Some((d, j4)) => Some(
                    make_regular(Mover::PieceAt(piece, Coords::new(l, n)), true, d, b, j4),
                ),
                None => None,
            },
            _ => Some(make_regular(Mover::Piece(piece), false, Coords::new(l, n), b, j2)),
        },
        (Token::Letter(l), Token::Capture) => match parse_destination(b, j2) {
            Some((d, j3)) => Some(make_regular(Mover::PieceAtLetter(piece, l), true, d, b, j3)),
            None => None,
        },
        (Token::Number(n), Token::Capture) => match parse_destination(b, j2) {
            Some((d, j3)) => Some(make_regular(Mover::PieceAtNumber(piece, n), true, d, b, j3)),
            None => None,
        },
        (Token::Capture, Token::Letter(l2)) => match next_token(b, j2) {
            (Some(Token::Number(n2)), j3) => Some(
                make_regular(Mover::Piece(piece), true, Coords::new(l2, n2), b, j3),
            ),
            _ => None,
        },
        _ => None,
    }
}

fn parse_move_type(b: &[u8]) -> (r: Option<(MoveType, usize)>)
    ensures
        match move_type_at(b@, 0) {
            Some((t, k)) => r matches Some((t2, k2)) && t2 == t && k2 == k && 0 <= k <= b@.len(),
            None => r is None,
        },
{
    match next_token(b, 0) {
        (None, _) => None,
        (Some(t), j) => match t {
            Token::Capital(p) => parse_regular(p, b, j),
            Token::Letter(_) => parse_regular(Piece::Pawn, b, 0),
            Token::Number(_) => parse_regular(Piece::Pawn, b, 0),
            Token::Capture => parse_regular(Piece::Pawn, b, 0),
            Token::Castle => match next_token(b, j) {
                (Some(Token::Long), k) => Some((MoveType::LongCastle, k)),
                _ => Some((MoveType::ShortCastle, j)),
            },
            _ => None,
        },
    }
}

impl Move {
    /// Reads a move in algebraic notation, with an optional `+`, `++` or `#` after it.
    /// Text after that is ignored.
    pub fn from_str(s: &str) -> (r: Option<Move>)
        ensures
            r == parse_move(s.spec_bytes()),
    {
        let b = s.as_bytes();
        let (move_type, j) = match parse_move_type(b) {
            None => {
                return None;
            },
            Some(x) => x,
        };
        let king_threat = match next_token(b, j) {
            (Some(Token::Mate), _) => KingThreat::CheckMate,
            (Some(Token::Check), k) => match next_token(b, k) {
                (Some(Token::Check), _) => KingThreat::CheckMate,
                _ => KingThreat::Check,
            },
            _ => KingThreat::NoThreat,
        };
        Some(Move { move_type, king_threat })
    }
}

/// The letter of a piece in algebraic notation; none for a pawn.
pub open spec fn piece_bytes(p: Piece) -> Seq<u8> {
    match p {
        Piece::Pawn => Seq::empty(),
        Piece::Rook => seq!['R' as u8],
        Piece::Knight => seq!['N' as u8],
        Piece::Bishop => seq!['B' as u8],
        Piece::Queen => seq!['Q' as u8],
        Piece::King => seq!['K' as u8],
    }
}

pub open spec fn square_bytes(c: Coords) -> Seq<u8> {
    seq![('a' as int + c.file.idx()) as u8, ('1' as int + c.rank.idx()) as u8]
}

pub open spec fn mover_bytes(m: Mover) -> Seq<u8> {
    match m {
        Mover::Piece(p) => piece_bytes(p),
        Mover::PieceAtNumber(p, n) => piece_bytes(p) + seq![('1' as int + n.idx()) as u8],
        Mover::PieceAtLetter(p, l) => piece_bytes(p) + seq![('a' as int + l.idx()) as u8],
        Mover::PieceAt(p, c) => piece_bytes(p) + square_bytes(c),
    }
}

pub open spec fn regular_bytes(mover: Mover, captures: bool, destination: Coords, promotes: Option<Piece>) -> Seq<u8> {
    mover_bytes(mover) + (if captures {
        seq!['x' as u8]
    } else {
        Seq::empty()
    }) + square_bytes(destination) + match promotes {
        Some(p) => seq!['=' as u8] + piece_bytes(p),
        None => Seq::empty(),
    }
}

pub open spec fn move_type_bytes(t: MoveType) -> Seq<u8> {
    match t {
        MoveType::ShortCastle => seq!['O' as u8, '-' as u8, 'O' as u8],
        MoveType::LongCastle => seq!['O' as u8, '-' as u8, 'O' as u8, '-' as u8, 'O' as u8],
        MoveType::Regular { mover, captures, destination, promotes } => regular_bytes(
            mover,
            captures,
            destination,
            promotes,
        ),
    }
}

pub open spec fn threat_bytes(t: KingThreat) -> Seq<u8> {
    match t {
        KingThreat::NoThreat => Seq::empty(),
        KingThreat::Check => seq!['+' as u8],
        KingThreat::CheckMate => seq!['#' as u8],
    }
}

/// A move written in algebraic notation.
pub open spec fn move_bytes(m: Move) -> Seq<u8> {
    move_type_bytes(m.move_type) + threat_bytes(m.king_threat)
}

fn push_piece(out: &mut Vec<u8>, p: Piece)
    requires
        ascii(old(out)@),
    ensures
        final(out)@ == old(out)@ + piece_bytes(p),
        ascii(final(out)@),
{
    match p {
        Piece::Pawn => {},
        Piece::Rook => out.push(82),
        Piece::Knight => out.push(78),
        Piece::Bishop => out.push(66),
        Piece::Queen => out.push(81),
        Piece::King => out.push(75),
    }
    assert(out@ =~= old(out)@ + piece_bytes(p));
}

fn push_square(out: &mut Vec<u8>, c: Coords)
    requires
        ascii(old(out)@),
    ensures
        final(out)@ == old(out)@ + square_bytes(c),
        ascii(final(out)@),
{
    out.push(97 + c.file.i8() as u8);
    out.push(49 + c.rank.i8() as u8);
    assert(out@ =~= old(out)@ + square_bytes(c));
}

fn push_mover(out: &mut Vec<u8>, m: Mover)
    requires
        ascii(old(out)@),
    ensures
        final(out)@ == old(out)@ + mover_bytes(m),
        ascii(final(out)@),
{
    match m {
        Mover::Piece(p) => push_piece(out, p),
        Mover::PieceAtNumber(p, n) => {
            push_piece(out, p);
            out.push(49 + n.i8() as u8);
        },
        Mover::PieceAtLetter(p, l) => {
            push_piece(out, p);
            out.push(97 + l.i8() as u8);
        },
        Mover::PieceAt(p, c) => {
            push_piece(out, p);
            push_square(out, c);
        },
    }
    assert(out@ =~= old(out)@ + mover_bytes(m));
}

fn push_regular(out: &mut Vec<u8>, mover: Mover, captures: bool, destination: Coords, promotes: Option<Piece>)
    requires
        ascii(old(out)@),
    ensures
        final(out)@ == old(out)@ + regular_bytes(mover, captures, destination, promotes),
        ascii(final(out)@),
{
    push_mover(out, mover);
    if captures {
        out.push(120);
    }
    push_square(out, destination);
    match promotes {
        Some(p) => {
            out.push(61);
            push_piece(out, p);
        },
        None => {},
    }
    assert(out@ =~= old(out)@ + regular_bytes(mover, captures, destination, promotes));
}

fn push_move_type(out: &mut Vec<u8>, t: MoveType)
    requires
        ascii(old(out)@),
    ensures
        final(out)@ == old(out)@ + move_type_bytes(t),
        ascii(final(out)@),
{
    match t {
        MoveType::ShortCastle => {
            out.push(79);
            out.push(45);
            out.push(79);
        },
        MoveType::LongCastle => {
            out.push(79);
            out.push(45);
            out.push(79);
            out.push(45);
            out.push(79);
        },
        MoveType::Regular { mover, captures, destination, promotes } => {
            push_regular(out, mover, captures, destination, promotes);
        },
    }
    assert(out@ =~= old(out)@ + move_type_bytes(t));
}

impl Move {
    /// The move in algebraic notation, as ASCII bytes.
    pub fn to_bytes(&self) -> (r: Vec<u8>)
        ensures
            r@ == move_bytes(*self),
            ascii(r@),
    {
        let mut out: Vec<u8> = Vec::new();
        push_move_type(&mut out, self.move_type);
        match self.king_threat {
            KingThreat::NoThreat => {},
            KingThreat::Check => out.push(43),
            KingThreat::CheckMate => out.push(35),
        }
        assert(out@ =~= move_bytes(*self));
        out
    }

    /// The move in algebraic notation.
    pub fn to_string(&self) -> (r: String)
        ensures
            r@ == as_chars(move_bytes(*self)),
    {
        ascii_string(self.to_bytes())
    }
}

} // verus!
