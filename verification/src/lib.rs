//! Creation and checking of binoxxo puzzles.
//!
//! A binoxxo puzzle is a square board of even side length whose cells hold an
//! `X`, an `O` or nothing. A finished board obeys four rules:
//!
//! * no cell is empty,
//! * no three neighbouring cells of a row or a column hold the same token,
//! * every row and every column holds as many `X` as `O`,
//! * no two rows are equal, and no two columns are equal.
//!
//! [`field`] models the board, [`text`] reads and writes boards as text,
//! [`rules`] checks single moves and whole boards, and [`bruteforce`] builds
//! random full boards and carves puzzles out of them.
//!
//! # Create a puzzle
//!
//! [`bruteforce::create_puzzle_board`] creates a random puzzle of a given
//! side length. Its second argument tunes the difficulty: the more guesses,
//! the more cells of the puzzle are empty. [`bruteforce::create_full_board`]
//! creates a random board without empty cells. Both draw their random
//! choices from a generator of the caller, so that a seed gives the same
//! board again.
//!
//! # Check a board
//!
//! [`rules::is_board_valid`] tells whether a board obeys all rules, and
//! [`rules::is_move_valid`] whether a single cell does.

pub mod bruteforce;
pub mod field;
pub mod text;

pub use bruteforce::rules;
