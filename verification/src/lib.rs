//! A search engine for the two-player double-six domino game.
//!
//! The engine plays the maximizing side against a minimizing opponent. Hands
//! are 28-bit masks over the tile indices, the board is known by its two open
//! ends, and the search is an iterative-deepening alpha-beta with a
//! transposition table, killer and history move ordering, and terminal scores
//! for a domino and for a blocked game.
//!
//! - `bitset`: masks as ascending sequences of bit positions
//! - `lookup`: the tiles, their suits, and the end that a placed tile leaves
//! - `movegen`: the legal moves of a hand, and the per-ply move buffer
//! - `scoring`: pip counts, and the scores of a domino and of a block
//! - `zobrist`: position hashes, from scratch and step by step
//! - `tt`: the transposition table
//! - `eval`: the static evaluator
//! - `ordering`: killers, history scores and the ordering of moves
//! - `position`: the position under search, the placement and the pass
//! - `model`: the search as a function on values, which the engine is held to
//! - `search`: minimax, the root iterations and the choice of a move
//! - `shell`: from a request to the search and back to a response
pub mod bitset;
pub mod lookup;
pub mod movegen;
pub mod scoring;
pub mod zobrist;
pub mod tt;
pub mod eval;
pub mod ordering;
pub mod position;
pub mod model;
pub mod search;
pub mod shell;
