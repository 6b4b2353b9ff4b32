//! A brute force creator of random binoxxo puzzles, and the rule checks it
//! is built on.

pub mod build_board;
pub mod choose_move;
pub mod possible_move;
pub mod random;
pub mod rules;
pub mod solvable;
pub mod soundness;

pub use self::build_board::create_full_board;
pub use self::build_board::create_puzzle_board;
