//! A small UCI chess engine built around a verified move-search core.
//!
//! The engine speaks the UCI line protocol through a thin unverified shell.
//! Everything with algorithmic content lives here: the material evaluator,
//! the opening book (its text format, lookup policy and out-of-book latch),
//! and the iteratively deepened negamax/alpha-beta search.  Chess rules
//! themselves (move generation, legality, position status, hashing) come
//! from the `shakmaty` crate behind a small set of trusted wrappers; the
//! search runs over an explicitly expanded game tree so that the pruning
//! algorithm itself is verified against a full-width negamax specification.

pub mod book;
pub mod bookgen;
pub mod engine;
pub mod position;
pub mod score;
pub mod search;
pub mod tree;
pub mod uci;
