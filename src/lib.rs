//! A chess rules engine and search bot: positions and their legality rules, a generator of
//! the legal moves, a static evaluator, and a negamax search with alpha-beta pruning,
//! iterative deepening and a transposition cache. FEN and algebraic notation are read and
//! written at the edges.
use vstd::prelude::*;

pub mod location;
pub mod board;
pub mod rules;
pub mod boardstate;
pub mod movegen;
pub mod eval;
pub mod search;
pub mod fen;
pub mod algebraic;
pub mod game;

verus! {

} // verus!
