//! Static evaluation of a position, in thousandths of a pawn, from the side to move's view.
use vstd::prelude::*;

use crate::board::{Colour, Field, Piece};
use crate::boardstate::BoardState;
use crate::location::Coords;
use crate::movegen::{any_legal_moves, legal_moves};
use crate::rules::{Position, in_check};

verus! {

/// The score of a mate: the side to move has won (or, negated, lost).
pub const INFINITY: i64 = 1_000_000_000;

/// Added when the opponent is in check.
pub const CHECK_BONUS: i64 = 10_000;

/// The bonus, in thousandths, of a pawn `r` ranks from its own back rank (a tenth of
/// `r` to the power 1.1, rounded down).
pub open spec fn pawn_bonus(r: int) -> int {
    if r <= 0 {
        0
    } else if r == 1 {
        100
    } else if r == 2 {
        214
    } else if r == 3 {
        334
    } else if r == 4 {
        459
    } else if r == 5 {
        587
    } else if r == 6 {
        717
    } else {
        850
    }
}

/// A piece's material value in thousandths of a pawn; `r` is the distance from its own back
/// rank.
pub open spec fn piece_value(r: int, piece: Piece) -> int {
    match piece {
        Piece::Pawn => 1000 + pawn_bonus(r),
        Piece::Knight => 3000,
        Piece::Bishop => 3200,
        Piece::Rook => 5000,
        Piece::Queen => 9000,
        Piece::King => 0,
    }
}

/// The distance of rank `r` from the back rank of `c`.
pub open spec fn relative_rank(c: Colour, r: int) -> int {
    match c {
        Colour::White => r,
        Colour::Black => 7 - r,
    }
}

/// What the piece on raster square `i` adds to the side to move's material balance.
pub open spec fn square_value(p: Position, i: int) -> int {
    match p.board[i] {
        Field::Empty => 0,
        Field::Occupied(c, piece) => {
            let v = piece_value(relative_rank(c, i / 8), piece);
            if c == p.side_to_move {
                v
            } else {
                -v
            }
        },
    }
}

/// The material balance over the squares of raster index below `i`.
pub open spec fn balance_below(p: Position, i: int) -> int
    decreases i,
{
    if i <= 0 {
        0
    } else {
        balance_below(p, i - 1) + square_value(p, i - 1)
    }
}

/// The number of pieces on the squares of raster index below `i`.
pub open spec fn count_below(p: Position, i: int) -> int
    decreases i,
{
    if i <= 0 {
        0
    } else {
        count_below(p, i - 1) + if p.board[i - 1] is Occupied {
            1int
        } else {
            0
        }
    }
}

/// Division rounded towards zero.
pub open spec fn trunc_div(a: int, b: int) -> int {
    if a >= 0 {
        a / b
    } else {
        -((-a) / b)
    }
}

/// The material balance averaged over the pieces on the board.
pub open spec fn material(p: Position) -> int {
    let n = count_below(p, 64);
    if n == 0 {
        0
    } else {
        trunc_div(balance_below(p, 64), n)
    }
}

/// The same position with the other side to move.
pub open spec fn flipped(p: Position) -> Position {
    Position { side_to_move: p.side_to_move.spec_other(), ..p }
}

/// The static score of a position for the side to move: `-INFINITY` when it is mated, 0 in
/// stalemate, `INFINITY` when the opponent is in check and could not reply were it to move;
/// else the averaged material balance, plus a bonus where the opponent is in check.
pub open spec fn evaluate(p: Position) -> int {
    if legal_moves(p).len() == 0 {
        if in_check(p, p.side_to_move) {
            -INFINITY
        } else {
            0
        }
    } else if in_check(p, p.side_to_move.spec_other()) {
        if legal_moves(flipped(p)).len() == 0 {
            INFINITY as int
        } else {
            material(p) + CHECK_BONUS
        }
    } else {
        material(p)
    }
}

/// A side with no legal move scores `-INFINITY` when its king is in check (mate) and 0 when
/// it is not (stalemate).
pub proof fn lemma_no_moves_score(p: Position)
    requires
        legal_moves(p).len() == 0,
    ensures
        in_check(p, p.side_to_move) ==> evaluate(p) == -INFINITY,
        !in_check(p, p.side_to_move) ==> evaluate(p) == 0,
{
}

proof fn lemma_balance_bounds(p: Position, i: int)
    requires
        0 <= i <= 64,
    ensures
        -9000 * i <= balance_below(p, i) <= 9000 * i,
        0 <= count_below(p, i) <= i,
    decreases i,
{
    if i > 0 {
        lemma_balance_bounds(p, i - 1);
        let r = (i - 1) / 8;
        assert(0 <= r < 8);
    }
}

/// The value of `piece` standing `r` ranks from its own back rank.
fn piece_value_of(r: i8, piece: Piece) -> (v: i64)
    requires
        0 <= r < 8,
    ensures
        v == piece_value(r as int, piece),
{
    match piece {
        Piece::Pawn => {
            let bonus: i64 = match r {
                0 => 0,
                1 => 100,
                2 => 214,
                3 => 334,
                4 => 459,
                5 => 587,
                6 => 717,
                _ => 850,
            };
            1000 + bonus
        },
        Piece::Knight => 3000,
        Piece::Bishop => 3200,
        Piece::Rook => 5000,
        Piece::Queen => 9000,
        Piece::King => 0,
    }
}

/// The material balance for the side to move, averaged over the pieces on the board.
fn eval_pieces(state: &BoardState) -> (r: i64)
    ensures
        r == material(state@),
        -9000 * 64 <= r <= 9000 * 64,
{
    let ghost p = state@;
    let mut piece_difference: i64 = 0;
    let mut piece_total: i64 = 0;
    let mut i: u8 = 0;
    while i < 64
        invariant
            0 <= i <= 64,
            p == state@,
            piece_difference == balance_below(p, i as int),
            piece_total == count_below(p, i as int),
        decreases 64 - i,
    {
        proof {
            lemma_balance_bounds(p, i as int);
        }
        let cs = Coords::from_index(i);
        match state.get(cs) {
            Field::Empty => {},
            Field::Occupied(c, pc) => {
                piece_total = piece_total + 1;
                let r = cs.r().i8();
                let r = match c {
                    Colour::White => r,
                    Colour::Black => 7 - r,
                };
                let value = piece_value_of(r, pc);
                assert(cs.rank.idx() == i as int / 8);
                if c == state.side_to_move {
                    piece_difference = piece_difference + value;
                } else {
                    piece_difference = piece_difference - value;
                }
            },
        }
        i = i + 1;
    }
    proof {
        lemma_balance_bounds(p, 64);
    }
    if piece_total == 0 {
        0
    } else if piece_difference >= 0 {
        piece_difference / piece_total
    } else {
        -((-piece_difference) / piece_total)
    }
}

/// The static score of `state` for the side to move.
pub fn eval(state: &BoardState) -> (r: i64)
    ensures
        r == evaluate(state@),
        -INFINITY <= r <= INFINITY,
{
    if !any_legal_moves(state) {
        if state.in_check(state.side_to_move) {
            return -INFINITY;
        } else {
            return 0;
        }
    }
    let mut checking_bonus: i64 = 0;
    if state.in_check(state.side_to_move.other()) {
        checking_bonus = CHECK_BONUS;
        let mut new_state = *state;
        new_state.side_to_move = new_state.side_to_move.other();
        assert(new_state@ == flipped(state@));
        if !any_legal_moves(&new_state) {
            return INFINITY;
        }
    }
    eval_pieces(state) + checking_bonus
}

} // verus!
