//! A game: the position, the positions seen since the last capture or pawn move (for draws
//! by repetition and the fifty-move rule), and the move number.
use vstd::prelude::*;
use vstd::string::StringSliceAdditionalSpecFns;

use crate::algebraic::{Move, MoveType, Mover};
use crate::board::{Board, Colour, Field, Piece, lemma_board_len};
use crate::boardstate::{BoardState, start_position};
use crate::fen::{as_chars, ascii, fen_bytes, fen_position, is_ws};
use crate::location::{Coords, File, Rank, file_at, rank_at, square_at, square_of_index};
use crate::movegen::{check_move, lemma_filter_prefix, lemma_filter_push};
use crate::rules::{Position, Success, apply_move, in_check, legal};

verus! {

broadcast use lemma_board_len;

/// The value of a run of decimal digits.
pub open spec fn digits_value(d: Seq<u8>) -> int
    decreases d.len(),
{
    if d.len() == 0 {
        0
    } else {
        10 * digits_value(d.drop_last()) + (d.last() - 48)
    }
}

pub open spec fn all_digits(d: Seq<u8>) -> bool {
    forall|i: int| 0 <= i < d.len() ==> 48 <= #[trigger] d[i] <= 57
}

/// An unsigned decimal number no larger than `max`, with an optional leading `+`, as Rust's
/// `str::parse` reads it.
pub open spec fn unsigned_value(b: Seq<u8>, max: int) -> Option<int> {
    let d = if b.len() > 0 && b[0] == 43 {
        b.drop_first()
    } else {
        b
    };
    if d.len() == 0 || !all_digits(d) || digits_value(d) > max {
        None
    } else {
        Some(digits_value(d))
    }
}

proof fn lemma_digits_grow(d: Seq<u8>, k: int, j: int)
    requires
        0 <= k <= j <= d.len(),
        all_digits(d),
    ensures
        digits_value(d.take(k)) <= digits_value(d.take(j)),
        0 <= digits_value(d.take(k)),
    decreases j - k,
{
    if j > k {
        lemma_digits_grow(d, k, j - 1);
        assert(d.take(j).drop_last() =~= d.take(j - 1));
    } else {
        lemma_digits_nonneg(d, k);
    }
}

proof fn lemma_digits_nonneg(d: Seq<u8>, k: int)
    requires
        0 <= k <= d.len(),
        all_digits(d),
    ensures
        0 <= digits_value(d.take(k)),
    decreases k,
{
    if k > 0 {
        lemma_digits_nonneg(d, k - 1);
        assert(d.take(k).drop_last() =~= d.take(k - 1));
    }
}

/// Reads `b[s..e]` as an unsigned number no larger than `max`.
fn parse_unsigned(b: &[u8], s: usize, e: usize, max: u64) -> (r: Option<u64>)
    requires
        s <= e <= b@.len(),
    ensures
        match unsigned_value(b@.subrange(s as int, e as int), max as int) {
            Some(v) => r is Some && r->0 as int == v,
            None => r is None,
        },
{
    let ghost f = b@.subrange(s as int, e as int);
    let start = if s < e && b[s] == 43 { s + 1 } else { s };
    let ghost d = b@.subrange(start as int, e as int);
    assert(d =~= (if f.len() > 0 && f[0] == 43 {
        f.drop_first()
    } else {
        f
    }));
    if start == e {
        return None;
    }
    let mut v: u128 = 0;
    let mut i: usize = start;
    while i < e
        invariant
            s <= start <= i <= e <= b@.len(),
            d == b@.subrange(start as int, e as int),
            f == b@.subrange(s as int, e as int),
            d == (if f.len() > 0 && f[0] == 43 {
                f.drop_first()
            } else {
                f
            }),
            v <= max,
            all_digits(d.take(i - start)),
            v == digits_value(d.take(i - start)),
        decreases e - i,
    {
        let c = b[i];
        if c < 48 || c > 57 {
            assert(!all_digits(d)) by {
                assert(d[(i - start) as int] == c);
            }
            return None;
        }
        let ghost k = i - start;
        assert(d.take(k + 1).drop_last() =~= d.take(k));
        assert(d.take(k + 1)[k] == c);
        v = v * 10 + (c - 48) as u128;
        assert(v == digits_value(d.take(k + 1)));
        assert(all_digits(d.take(k + 1))) by {
            assert forall|j: int| 0 <= j < k + 1 implies 48 <= #[trigger] d.take(k + 1)[j] <= 57 by {
                if j < k {
                    assert(d.take(k + 1)[j] == d.take(k)[j]);
                }
            }
        }
        if v > max as u128 {
            proof {
                if all_digits(d) {
                    lemma_digits_grow(d, k + 1, d.len() as int);
                    assert(d.take(d.len() as int) =~= d);
                    assert(digits_value(d) > max);
                }
            }
            return None;
        }
        i = i + 1;
    }
    assert(d.take(e - start) =~= d);
    Some(v as u64)
}

/// The index of the last white-space byte before index `i`, or -1.
pub open spec fn last_ws(b: Seq<u8>, i: int) -> int
    decreases i,
{
    if i <= 0 || i > b.len() {
        -1
    } else if is_ws(b[i - 1]) {
        i - 1
    } else {
        last_ws(b, i - 1)
    }
}

fn find_last_ws(b: &[u8], end: usize) -> (r: Option<usize>)
    requires
        end <= b@.len(),
    ensures
        match r {
            Some(i) => last_ws(b@, end as int) == i && i < end,
            None => last_ws(b@, end as int) == -1,
        },
{
    let mut i = end;
    while i > 0
        invariant
            i <= end <= b@.len(),
            last_ws(b@, end as int) == last_ws(b@, i as int),
        decreases i,
    {
        let c = b[i - 1];
        if c == 32 || (9 <= c && c <= 13) {
            return Some(i - 1);
        }
        i = i - 1;
    }
    None
}

/// A game: the position, how often each position has been seen since the last capture or
/// pawn move, and the number of the current full move.
#[derive(Debug, Clone)]
pub struct Game {
    pub board_state: BoardState,
    pub last_move_states: Vec<(BoardState, u8)>,
    pub fullmove_count: u64,
}

/// The model of the positions seen: each with its count.
pub open spec fn seen_model(v: Seq<(BoardState, u8)>) -> Seq<(Position, nat)> {
    v.map_values(|e: (BoardState, u8)| (e.0@, e.1 as nat))
}

/// The position that `Game::from_fen` records for the half-move clock: the starting
/// position with an empty board, which no game reaches.
pub open spec fn clock_position() -> Position {
    Position { board: Seq::new(64, |i: int| Field::Empty), ..start_position() }
}

/// The game that a full FEN line describes: the four fields of the position, then the
/// half-move clock (at most 255) and the full-move number (at least 1).
pub open spec fn game_of_fen(b: Seq<u8>) -> Option<(Position, nat, nat)> {
    let m = last_ws(b, b.len() as int);
    let h = last_ws(b, m);
    if m < 0 || h < 0 {
        None
    } else {
        match (
            unsigned_value(b.subrange(m + 1, b.len() as int), u64::MAX as int),
            unsigned_value(b.subrange(h + 1, m), 255),
            fen_position(b.subrange(0, h)),
        ) {
            (Some(full), Some(half), Some(p)) => if full == 0 {
                None
            } else {
                Some((p, half as nat, full as nat))
            },
            _ => None,
        }
    }
}

/// The index of the entry for `p` at or after index `i`, or -1.
pub open spec fn seen_find(v: Seq<(Position, nat)>, p: Position, i: int) -> int
    decreases v.len() - i,
{
    if i < 0 || i >= v.len() {
        -1
    } else if v[i].0 == p {
        i
    } else {
        seen_find(v, p, i + 1)
    }
}

/// How often `p` has been seen.
pub open spec fn seen_count(v: Seq<(Position, nat)>, p: Position) -> nat {
    let i = seen_find(v, p, 0);
    if i >= 0 {
        v[i].1
    } else {
        0
    }
}

/// The number of moves recorded: the half-move clock.
pub open spec fn seen_total(v: Seq<(Position, nat)>) -> int
    decreases v.len(),
{
    if v.len() == 0 {
        0
    } else {
        seen_total(v.drop_last()) + v.last().1
    }
}

/// The record after one more visit of `p` (a count stops at 255).
pub open spec fn record(v: Seq<(Position, nat)>, p: Position) -> Seq<(Position, nat)> {
    let i = seen_find(v, p, 0);
    if i >= 0 {
        v.update(i, (p, if v[i].1 < 255 { v[i].1 + 1 } else { 255 }))
    } else {
        v.push((p, 1))
    }
}

/// Nothing but kings is left on the board.
pub open spec fn only_kings(p: Position) -> bool {
    forall|i: int| 0 <= i < 64 ==> (#[trigger] p.board[i]) is Empty || p.board[i].spec_piece() == Some(Piece::King)
}

/// A capture or a pawn move: the record of repetitions starts anew after it.
pub open spec fn resets_record(s: Success) -> bool {
    s == Success::PawnMovement || s == Success::PawnMovementAndCheck || s == Success::Capture
}

/// The first pawn standing on its last rank (a black pawn on rank 1 or a white one on rank
/// 8), by file.
pub open spec fn pending_from(p: Position, f: int) -> Option<Coords>
    decreases 8 - f,
{
    if f < 0 || f >= 8 {
        None
    } else if p.at(square_at(f, 0)) == Field::Occupied(Colour::Black, Piece::Pawn) {
        Some(square_at(f, 0))
    } else if p.at(square_at(f, 7)) == Field::Occupied(Colour::White, Piece::Pawn) {
        Some(square_at(f, 7))
    } else {
        pending_from(p, f + 1)
    }
}

/// The position after the pending pawn has become `into`.
pub open spec fn promoted(p: Position, into: Piece) -> Position {
    let sq = pending_from(p, 0)->0;
    Position {
        board: p.board.update(
            sq.idx(),
            Field::Occupied(
                if sq.rank.idx() == 0 {
                    Colour::Black
                } else {
                    Colour::White
                },
                into,
            ),
        ),
        ..p
    }
}

impl BoardState {
    /// A pawn that has reached its last rank and not yet promoted.
    pub fn pawn_promototion_pending(&self) -> (r: Option<Coords>)
        ensures
            r == pending_from(self@, 0),
    {
        let mut f: u8 = 0;
        while f < 8
            invariant
                0 <= f <= 8,
                pending_from(self@, 0) == pending_from(self@, f as int),
            decreases 8 - f,
        {
            let file = File::new(f).unwrap();
            proof {
                crate::location::lemma_at_idx();
                File::lemma_idx_injective(file, crate::location::file_at(f as int));
            }
            let cs = Coords::new(file, Rank::N1);
            assert(cs == square_at(f as int, 0));
            if self.board.get(cs) == Field::Occupied(Colour::Black, Piece::Pawn) {
                return Some(cs);
            }
            let cs = Coords::new(file, Rank::N8);
            assert(cs == square_at(f as int, 7));
            if self.board.get(cs) == Field::Occupied(Colour::White, Piece::Pawn) {
                return Some(cs);
            }
            f = f + 1;
        }
        None
    }

    /// Turns a pawn on its last rank into `into`, which is neither a pawn nor a king.
    /// Returns whether a pawn was promoted.
    pub fn promote(&mut self, into: Piece) -> (r: bool)
        ensures
            r == (pending_from(old(self)@, 0) is Some && into != Piece::Pawn && into != Piece::King),
            r ==> final(self)@ == promoted(old(self)@, into),
            !r ==> *final(self) == *old(self),
    {
        match self.pawn_promototion_pending() {
            Some(pcs) => match into {
                Piece::Pawn => false,
                Piece::King => false,
                p => {
                    let c = if pcs.rank == Rank::N1 { Colour::Black } else { Colour::White };
                    self.board.set(pcs, Field::Occupied(c, p));
                    true
                },
            },
            None => false,
        }
    }
}

/// Whether the recorded positions hold `state`, and where.
fn seen_index(v: &Vec<(BoardState, u8)>, state: &BoardState) -> (r: Option<usize>)
    ensures
        match r {
            Some(i) => i < v.len() && seen_find(seen_model(v@), state@, 0) == i,
            None => seen_find(seen_model(v@), state@, 0) == -1,
        },
{
    let ghost m = seen_model(v@);
    let mut i: usize = 0;
    while i < v.len()
        invariant
            0 <= i <= v.len(),
            m == seen_model(v@),
            seen_find(m, state@, 0) == seen_find(m, state@, i as int),
        decreases v.len() - i,
    {
        if v[i].0 == *state {
            return Some(i);
        }
        i = i + 1;
    }
    None
}

fn push_decimal(out: &mut Vec<u8>, n: u128)
    requires
        ascii(old(out)@),
    ensures
        final(out)@ == old(out)@ + decimal(n as nat),
        ascii(final(out)@),
    decreases n,
{
    if n >= 10 {
        push_decimal(out, n / 10);
    }
    out.push(48 + (n % 10) as u8);
    assert(out@ =~= old(out)@ + decimal(n as nat));
}

/// The decimal digits of `n`.
pub open spec fn decimal(n: nat) -> Seq<u8>
    decreases n,
{
    if n >= 10 {
        decimal(n / 10) + seq![(48 + n % 10) as u8]
    } else {
        seq![(48 + n) as u8]
    }
}

impl Game {
    /// A game from the starting position.
    pub fn new() -> (r: Game)
        ensures
            r.board_state@ == start_position(),
            r.last_move_states@.len() == 0,
            r.fullmove_count == 1,
    {
        Game { board_state: BoardState::new(), last_move_states: Vec::new(), fullmove_count: 1 }
    }

    /// Reads a game from a full FEN line: the position, the half-move clock and the
    /// full-move number. The clock is recorded against a position that no game reaches, so
    /// that it counts towards the fifty-move rule.
    pub fn from_fen(fen: &str) -> (r: Option<Game>)
        ensures
            match game_of_fen(fen.spec_bytes()) {
                Some((p, half, full)) => r is Some && r->0.board_state@ == p && seen_model(
                    r->0.last_move_states@,
                ) == seq![(clock_position(), half)] && r->0.fullmove_count == full,
                None => r is None,
            },
    {
        let b = fen.as_bytes();
        let ghost bs = b@;
        let m = match find_last_ws(b, b.len()) {
            Some(m) => m,
            None => {
                return None;
            },
        };
        let fullmove_count = match parse_unsigned(b, m + 1, b.len(), u64::MAX) {
            Some(v) => v,
            None => {
                return None;
            },
        };
        if fullmove_count == 0 {
            return None;
        }
        let h = match find_last_ws(b, m) {
            Some(h) => h,
            None => {
                return None;
            },
        };
        let half = match parse_unsigned(b, h + 1, m, 255) {
            Some(v) => v as u8,
            None => {
                return None;
            },
        };
        let mut prefix: Vec<u8> = Vec::new();
        let mut i: usize = 0;
        while i < h
            invariant
                0 <= i <= h < b@.len(),
                prefix@ == b@.subrange(0, i as int),
            decreases h - i,
        {
            prefix.push(b[i]);
            assert(prefix@ =~= b@.subrange(0, i + 1));
            i = i + 1;
        }
        let board_state = match BoardState::from_fen_bytes(prefix.as_slice()) {
            Some(st) => st,
            None => {
                return None;
            },
        };
        let clock = BoardState { board: Board::empty(), ..BoardState::new() };
        assert(clock@ == clock_position());
        let mut last_move_states: Vec<(BoardState, u8)> = Vec::new();
        last_move_states.push((clock, half));
        assert(seen_model(last_move_states@) =~= seq![(clock_position(), half as nat)]);
        Some(Game { board_state, last_move_states, fullmove_count })
    }

    /// A draw may be claimed: the position has been seen three times, fifty moves by each
    /// side have passed without a capture or pawn move, or only kings are left.
    pub fn draw_claimable(&self) -> (r: bool)
        ensures
            r == (seen_count(seen_model(self.last_move_states@), self.board_state@) == 3
                || seen_total(seen_model(self.last_move_states@)) == 100 || only_kings(
                self.board_state@,
            )),
    {
        let ghost m = seen_model(self.last_move_states@);
        let repeated = match seen_index(&self.last_move_states, &self.board_state) {
            Some(i) => self.last_move_states[i].1 == 3,
            None => false,
        };
        let mut total: u128 = 0;
        let mut i: usize = 0;
        while i < self.last_move_states.len()
            invariant
                0 <= i <= self.last_move_states.len(),
                m == seen_model(self.last_move_states@),
                total == seen_total(m.take(i as int)),
                total <= 255 * i,
            decreases self.last_move_states.len() - i,
        {
            assert(m.take(i + 1).drop_last() =~= m.take(i as int));
            total = total + self.last_move_states[i].1 as u128;
            i = i + 1;
        }
        assert(m.take(i as int) =~= m);
        let mut kings_only = true;
        let mut k: u8 = 0;
        while k < 64
            invariant
                0 <= k <= 64,
                kings_only == (forall|j: int| 0 <= j < k ==> (#[trigger] self.board_state@.board[j]) is Empty || self.board_state@.board[j].spec_piece() == Some(Piece::King)),
            decreases 64 - k,
        {
            let cs = Coords::from_index(k);
            match self.board_state.get(cs) {
                Field::Occupied(_, Piece::King) => {},
                Field::Empty => {},
                _ => {
                    kings_only = false;
                },
            }
            k = k + 1;
        }
        repeated || total == 100 || kings_only
    }

    /// The move, if it is legal: the class of the move and the state after it.
    fn attempt_move(&self, from: Coords, unto: Coords, promotion: Option<Piece>) -> (r: Option<(Success, BoardState)>)
        ensures
            match apply_move(self.board_state@, from, unto, promotion) {
                Some((q, s)) => if in_check(q, self.board_state.side_to_move) {
                    r is None
                } else {
                    r matches Some((s2, st)) && s2 == s && st@ == q
                },
                None => r is None,
            },
    {
        let mut board_state = self.board_state;
        let success = match board_state.make_move(from, unto, promotion) {
            Ok(s) => s,
            Err(_) => {
                return None;
            },
        };
        if board_state.in_check(self.board_state.side_to_move) {
            None
        } else {
            Some((success, board_state))
        }
    }

    /// Plays a legal move of the side to move and records it. Returns whether it was legal;
    /// an illegal move changes nothing.
    pub fn make_move(&mut self, from: Coords, unto: Coords, promotion: Option<Piece>) -> (r: bool)
        ensures
            r == legal(old(self).board_state@, from, unto, promotion),
            !r ==> *final(self) == *old(self),
            r ==> match apply_move(old(self).board_state@, from, unto, promotion) {
                Some((q, s)) => final(self).board_state@ == q && seen_model(
                    final(self).last_move_states@,
                ) == record(
                    if resets_record(s) {
                        Seq::empty()
                    } else {
                        seen_model(old(self).last_move_states@)
                    },
                    q,
                ) && final(self).fullmove_count == if q.side_to_move == Colour::White
                    && old(self).fullmove_count < u64::MAX {
                    (old(self).fullmove_count + 1) as u64
                } else {
                    old(self).fullmove_count
                },
                None => false,
            },
    {
        match self.attempt_move(from, unto, promotion) {
            Some((success, new_state)) => {
                self.board_state = new_state;
                match success {
                    Success::PawnMovement | Success::PawnMovementAndCheck | Success::Capture => {
                        self.last_move_states.clear();
                        assert(seen_model(self.last_move_states@) =~= Seq::empty());
                    },
                    Success::Check | Success::PieceMovement => {},
                }
                let ghost before = seen_model(self.last_move_states@);
                match seen_index(&self.last_move_states, &self.board_state) {
                    Some(i) => {
                        let c = self.last_move_states[i].1;
                        let c = if c < 255 { c + 1 } else { 255 };
                        self.last_move_states[i] = (self.board_state, c);
                    },
                    None => {
                        self.last_move_states.push((self.board_state, 1));
                    },
                }
                assert(seen_model(self.last_move_states@) =~= record(before, self.board_state@));
                if self.board_state.side_to_move == Colour::White && self.fullmove_count < u64::MAX {
                    self.fullmove_count = self.fullmove_count + 1;
                }
                true
            },
            None => false,
        }
    }

    pub fn board_state(&self) -> (r: &BoardState)
        ensures
            *r == self.board_state,
    {
        &self.board_state
    }

    pub fn side_to_move(&self) -> (r: Colour)
        ensures
            r == self.board_state.side_to_move,
    {
        self.board_state.side_to_move
    }

    pub fn is_checked(&self, side: Colour) -> (r: bool)
        ensures
            r == in_check(self.board_state@, side),
    {
        self.board_state.in_check(side)
    }

    pub fn pawn_promototion_pending(&self) -> (r: bool)
        ensures
            r == pending_from(self.board_state@, 0) is Some,
    {
        self.board_state.pawn_promototion_pending().is_some()
    }

    /// Turns a pawn on its last rank into `into` (see `BoardState::promote`).
    pub fn promote(&mut self, into: Piece) -> (r: bool)
        ensures
            r == (pending_from(old(self).board_state@, 0) is Some && into != Piece::Pawn && into
                != Piece::King),
            final(self).last_move_states == old(self).last_move_states,
            final(self).fullmove_count == old(self).fullmove_count,
            r ==> final(self).board_state@ == promoted(old(self).board_state@, into),
            !r ==> final(self).board_state == old(self).board_state,
    {
        self.board_state.promote(into)
    }

    pub fn display_fen(&self) -> (r: GameFen<'_>)
        ensures
            *r.inner == *self,
    {
        GameFen { inner: self }
    }
}

/// A game, shown as a full FEN line.
pub struct GameFen<'a> {
    pub inner: &'a Game,
}

/// A full FEN line: the position, the half-move clock and the full-move number.
pub open spec fn game_fen_bytes(p: Position, half: int, full: nat) -> Seq<u8> {
    fen_bytes(p) + seq![32u8] + decimal(half as nat) + seq![32u8] + decimal(full)
}

impl GameFen<'_> {
    pub fn to_string(&self) -> (r: String)
        ensures
            r@ == as_chars(
                game_fen_bytes(
                    self.inner.board_state@,
                    seen_total(seen_model(self.inner.last_move_states@)),
                    self.inner.fullmove_count as nat,
                ),
            ),
    {
        let g = self.inner;
        let ghost m = seen_model(g.last_move_states@);
        let mut total: u128 = 0;
        let mut i: usize = 0;
        while i < g.last_move_states.len()
            invariant
                0 <= i <= g.last_move_states.len(),
                m == seen_model(g.last_move_states@),
                total == seen_total(m.take(i as int)),
                total <= 255 * i,
            decreases g.last_move_states.len() - i,
        {
            assert(m.take(i + 1).drop_last() =~= m.take(i as int));
            total = total + g.last_move_states[i].1 as u128;
            i = i + 1;
        }
        assert(m.take(i as int) =~= m);
        let mut out = g.board_state.display_fen().to_bytes();
        out.push(32);
        push_decimal(&mut out, total);
        out.push(32);
        push_decimal(&mut out, g.fullmove_count as u128);
        assert(out@ =~= game_fen_bytes(g.board_state@, total as int, g.fullmove_count as nat));
        crate::fen::ascii_string(out)
    }
}

/// The destination holds a piece or is the en-passant target.
pub open spec fn capturing(p: Position, d: Coords) -> bool {
    p.at(d) is Occupied || p.en_passant_target == Some(d)
}

/// A piece `pc` of the side to move stands on `sq` and may legally move to `unto`.
pub open spec fn can_move_from(p: Position, pc: Piece, unto: Coords, promotes: Option<Piece>) -> spec_fn(Coords) -> bool {
    |sq: Coords| p.at(sq) == Field::Occupied(p.side_to_move, pc) && legal(p, sq, unto, promotes)
}

/// The one square of `squares` from which such a move can be made; none where there are
/// none or several.
pub open spec fn unique_source(p: Position, squares: Seq<Coords>, pc: Piece, unto: Coords, promotes: Option<Piece>) -> Option<Coords> {
    let ms = squares.filter(can_move_from(p, pc, unto, promotes));
    if ms.len() == 1 {
        Some(ms[0])
    } else {
        None
    }
}

pub open spec fn file_squares(l: File) -> Seq<Coords> {
    Seq::new(8, |n: int| Coords { file: l, rank: rank_at(n) })
}

pub open spec fn rank_squares(n: Rank) -> Seq<Coords> {
    Seq::new(8, |f: int| Coords { file: file_at(f), rank: n })
}

pub open spec fn all_squares() -> Seq<Coords> {
    Seq::new(64, |i: int| square_of_index(i))
}

/// The from and to squares (and promotion) that a move in algebraic notation names in `p`.
/// Castling needs only the right; a capture mark must match the destination; a pawn that
/// reaches a back rank must name its promotion; and a piece named without its full square
/// must be the only one of its kind that can legally make the move.
pub open spec fn resolve(p: Position, mv: Move) -> Option<(Coords, Coords, Option<Piece>)> {
    let home = match p.side_to_move {
        Colour::White => 0int,
        Colour::Black => 7int,
    };
    match mv.move_type {
        MoveType::ShortCastle => if p.castling(p.side_to_move).short {
            Some((square_at(4, home), square_at(6, home), None))
        } else {
            None
        },
        MoveType::LongCastle => if p.castling(p.side_to_move).long {
            Some((square_at(4, home), square_at(2, home), None))
        } else {
            None
        },
        MoveType::Regular { mover, captures, destination: unto, promotes } => {
            if captures != capturing(p, unto) {
                None
            } else if mover.piece() == Piece::Pawn && (unto.rank.idx() == 0 || unto.rank.idx()
                == 7) && promotes is None {
                None
            } else {
                let source = match mover {
                    Mover::PieceAt(pc, from) => match p.at(from) {
                        Field::Occupied(c, p2) => if c == p.side_to_move && (pc == Piece::Pawn
                            || pc == p2) {
                            Some(from)
                        } else {
                            None
                        },
                        Field::Empty => None,
                    },
                    Mover::PieceAtLetter(pc, l) => unique_source(p, file_squares(l), pc, unto, promotes),
                    Mover::PieceAtNumber(pc, n) => unique_source(p, rank_squares(n), pc, unto, promotes),
                    Mover::Piece(pc) => unique_source(p, all_squares(), pc, unto, promotes),
                };
                match source {
                    Some(from) => Some((from, unto, promotes)),
                    None => None,
                }
            }
        },
    }
}

/// The one square of `squares` from which `pc` can legally move to `unto`.
fn find_unique(state: &BoardState, squares: &Vec<Coords>, pc: Piece, unto: Coords, promotes: Option<Piece>) -> (r: Option<Coords>)
    ensures
        r == unique_source(state@, squares@, pc, unto, promotes),
{
    let ghost p = state@;
    let ghost f = can_move_from(p, pc, unto, promotes);
    let mut found: Option<Coords> = None;
    let mut i: usize = 0;
    assert(squares@.take(0) =~= Seq::<Coords>::empty());
    assert(Seq::<Coords>::empty().filter(f) =~= Seq::<Coords>::empty()) by {
        reveal(Seq::filter);
    }
    while i < squares.len()
        invariant
            0 <= i <= squares.len(),
            p == state@,
            f == can_move_from(p, pc, unto, promotes),
            squares@.take(i as int).filter(f).len() <= 1,
            found == (if squares@.take(i as int).filter(f).len() == 0 {
                None
            } else {
                Some(squares@.take(i as int).filter(f)[0])
            }),
        decreases squares.len() - i,
    {
        let sq = squares[i];
        let ghost y = squares@.take(i as int);
        assert(squares@.take(i + 1) =~= y.push(sq));
        proof {
            lemma_filter_push(y, sq, f);
        }
        if state.get(sq) == Field::Occupied(state.side_to_move, pc) && check_move(state, (sq, unto, promotes)) {
            if found.is_some() {
                proof {
                    lemma_filter_prefix(y.push(sq), squares@.skip(i + 1), f);
                    assert(y.push(sq) + squares@.skip(i + 1) =~= squares@);
                }
                return None;
            }
            found = Some(sq);
        }
        i = i + 1;
    }
    assert(squares@.take(i as int) =~= squares@);
    found
}

fn file_squares_of(l: File) -> (r: Vec<Coords>)
    ensures
        r@ == file_squares(l),
{
    let mut v: Vec<Coords> = Vec::new();
    let mut n: u8 = 0;
    while n < 8
        invariant
            0 <= n <= 8,
            v@ == file_squares(l).take(n as int),
        decreases 8 - n,
    {
        let rank = Rank::new(n).unwrap();
        proof {
            crate::location::lemma_at_idx();
            Rank::lemma_idx_injective(rank, rank_at(n as int));
        }
        v.push(Coords::new(l, rank));
        assert(v@ =~= file_squares(l).take(n + 1));
        n = n + 1;
    }
    assert(v@ =~= file_squares(l));
    v
}

fn rank_squares_of(k: Rank) -> (r: Vec<Coords>)
    ensures
        r@ == rank_squares(k),
{
    let mut v: Vec<Coords> = Vec::new();
    let mut f: u8 = 0;
    while f < 8
        invariant
            0 <= f <= 8,
            v@ == rank_squares(k).take(f as int),
        decreases 8 - f,
    {
        let file = File::new(f).unwrap();
        proof {
            crate::location::lemma_at_idx();
            File::lemma_idx_injective(file, file_at(f as int));
        }
        v.push(Coords::new(file, k));
        assert(v@ =~= rank_squares(k).take(f + 1));
        f = f + 1;
    }
    assert(v@ =~= rank_squares(k));
    v
}

fn all_squares_of() -> (r: Vec<Coords>)
    ensures
        r@ == all_squares(),
{
    let mut v: Vec<Coords> = Vec::new();
    let mut i: u8 = 0;
    while i < 64
        invariant
            0 <= i <= 64,
            v@ == all_squares().take(i as int),
        decreases 64 - i,
    {
        v.push(Coords::from_index(i));
        assert(v@ =~= all_squares().take(i + 1));
        i = i + 1;
    }
    assert(v@ =~= all_squares());
    v
}

impl Game {
    /// The squares that a move in algebraic notation names, where it can be played: see
    /// `resolve`. Check and mate marks are not checked.
    pub fn check_move(&self, alg_move: Move) -> (r: Option<(Coords, Coords, Option<Piece>)>)
        ensures
            r == resolve(self.board_state@, alg_move),
    {
        let state = &self.board_state;
        let to_play = state.side_to_move;
        let (ca, brn) = match to_play {
            Colour::Black => (state.black_castling, Rank::N8),
            Colour::White => (state.white_castling, Rank::N1),
        };
        proof {
            crate::location::lemma_at_idx();
        }
        match alg_move.move_type {
            MoveType::ShortCastle => if ca.short {
                Some((Coords::new(File::E, brn), Coords::new(File::G, brn), None))
            } else {
                None
            },
            MoveType::LongCastle => if ca.long {
                Some((Coords::new(File::E, brn), Coords::new(File::C, brn), None))
            } else {
                None
            },
            MoveType::Regular { mover, captures, destination: unto, promotes } => {
                let capturing = state.get(unto).is_occupied() || state.en_passant_target == Some(unto);
                if captures != capturing {
                    return None;
                }
                if mover.is_pawn() && (unto.r() == Rank::N8 || unto.r() == Rank::N1) && promotes.is_none() {
                    return None;
                }
                let source = match mover {
                    Mover::PieceAt(pc, from) => match state.get(from) {
                        Field::Occupied(c, p2) => if c == to_play && (pc == Piece::Pawn || pc == p2) {
                            Some(from)
                        } else {
                            None
                        },
                        Field::Empty => None,
                    },
                    Mover::PieceAtLetter(pc, l) => find_unique(state, &file_squares_of(l), pc, unto, promotes),
                    Mover::PieceAtNumber(pc, n) => find_unique(state, &rank_squares_of(n), pc, unto, promotes),
                    Mover::Piece(pc) => find_unique(state, &all_squares_of(), pc, unto, promotes),
                };
                match source {
                    Some(from) => Some((from, unto, promotes)),
                    None => None,
                }
            },
        }
    }
}

} // verus!
