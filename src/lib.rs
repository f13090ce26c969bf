//! A 9x9 Sudoku solver: constraint propagation with backtracking, where the
//! speculative writes of each branch are tagged with a generation number and
//! undone by clearing every cell of that generation.

pub mod sudoku;

pub use sudoku::get::{convert, CellResponse, Difficulty, SudokuResponse};
pub use sudoku::solver::{find_value, solve};
pub use sudoku::{Cell, Cells, Sudoku, BOX_SIZE, SUDOKU_SIZE};
