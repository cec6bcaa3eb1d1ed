//! Checking filled 9x9 sudoku boards.
//!
//! A board is read from a line of comma-separated numbers ([`parse`]), cut
//! into its rows, columns and boxes ([`board`]) and accepted when each of
//! them holds the digits 1 to 9 exactly once ([`validate`], with the facts
//! about groups of nine digits in [`digits`]). Whole batches of lines are
//! counted in [`batch`].
//!
//! Nothing in here reads a file or starts a thread. A caller hands over
//! lines of text and gets back boards, verdicts and counts.

pub mod batch;
pub mod board;
pub mod digits;
pub mod parse;
pub mod validate;

pub use batch::{count_valid_sudokus, is_valid_sudoku_line};
pub use board::{Sudoku, ViewKind};
pub use parse::parse_raw_line_to_sudoku;
pub use validate::{eval_sudoku, is_slice_unique, is_valid_view};
