//! Board, notation and rules of an 11x11 tafl game: attackers against a king
//! and his defenders.
//!
//! - `types`: the sides, the pieces, the ranks and the board, and the trait
//!   `Hnfen` of the values that have a text form.
//! - `moves`: positions, moves and directions, and the legal moves on a
//!   board.
//! - `board`: the queries on a board, the captures, and the board after a
//!   move.
//! - `notation`: the text form of sides, pieces, ranks, boards, positions and
//!   moves; `round_trip` proves that each text stands for the value it was
//!   written from.
//! - `start`: the starting position.
//! - `laws`: what holds of every board under the rules.
//! - `pretty`: a picture of the board.
//! - `text`: runs of characters and decimal numerals, on which the notation
//!   is built.
use vstd::prelude::*;

pub mod board;
pub mod laws;
pub mod moves;
pub mod notation;
pub mod pretty;
pub mod round_trip;
pub mod start;
pub mod text;
pub mod types;

verus! {

/// The starting layout of the standard game, attackers to move.
pub const DEFAULT_START_HNFEN: &'static str =
    "3aaaaa3/5a5/11/a4h4a/a3hhh3a/aa1hhKhh1aa/a3hhh3a/a4h4a/11/5a5/3aaaaa3 a";

} // verus!
