use vstd::prelude::*;

use super::{cell_at, givens_only, in_grid, is_digit, value_at, Cell, Cells, Sudoku, SUDOKU_SIZE};

verus! {

/// How hard a puzzle the puzzle service is asked for.
#[derive(Clone, Copy, Debug, PartialEq, Eq, Structural)]
pub enum Difficulty {
    Easy,
    Medium,
    Hard,
}

impl Difficulty {
    /// The level number that the puzzle service expects.
    pub fn level(&self) -> (r: u8)
        ensures
            r == match *self {
                Difficulty::Easy => 1u8,
                Difficulty::Medium => 2u8,
                Difficulty::Hard => 3u8,
            },
    {
        match self {
            Difficulty::Easy => 1,
            Difficulty::Medium => 2,
            Difficulty::Hard => 3,
        }
    }
}

/// One pre-filled square of a puzzle as the puzzle service lists it.
#[derive(Clone, Copy, Debug)]
pub struct CellResponse {
    pub x: usize,
    pub y: usize,
    pub value: u8,
}

/// A puzzle as the puzzle service sends it.
#[derive(Debug)]
pub struct SudokuResponse {
    pub response: bool,
    pub size: u8,
    pub squares: Vec<CellResponse>,
}

/// The square lies on the grid and holds a digit.
pub open spec fn square_fits(c: CellResponse) -> bool {
    c.x < 9 && c.y < 9 && is_digit(c.value)
}

/// The digit that the last of `squares` at (x, y) gives, if any does.
pub open spec fn placed_value(squares: Seq<CellResponse>, x: int, y: int) -> Option<u8>
    decreases squares.len(),
{
    if squares.len() == 0 {
        None
    } else {
        let last = squares.last();
        if last.x == x && last.y == y {
            Some(last.value)
        } else {
            placed_value(squares.drop_last(), x, y)
        }
    }
}

/// Builds the puzzle that `response` lists, with every given cell at
/// generation 0; `None` when a square lies off the grid or holds no digit.
/// A later square at the same place overrides an earlier one.
pub fn convert(response: SudokuResponse) -> (r: Option<Sudoku>)
    ensures
        r is Some <==> forall|i: int|
            0 <= i < response.squares@.len() ==> square_fits(#[trigger] response.squares@[i]),
        r is Some ==> givens_only(r->Some_0.cells),
        r is Some ==> forall|x: int, y: int|
            in_grid(x, y) ==> #[trigger] value_at(r->Some_0.cells, x, y) == placed_value(
                response.squares@,
                x,
                y,
            ),
{
    let mut cells: Cells = [[None; SUDOKU_SIZE]; SUDOKU_SIZE];
    let mut i: usize = 0;
    while i < response.squares.len()
        invariant
            i <= response.squares@.len(),
            forall|k: int| 0 <= k < i ==> square_fits(#[trigger] response.squares@[k]),
            givens_only(cells),
            forall|x: int, y: int|
                in_grid(x, y) ==> #[trigger] value_at(cells, x, y) == placed_value(
                    response.squares@.take(i as int),
                    x,
                    y,
                ),
        decreases response.squares@.len() - i,
    {
        let cell = response.squares[i];
        if cell.x >= SUDOKU_SIZE || cell.y >= SUDOKU_SIZE || cell.value < 1 || cell.value > 9 {
            assert(!square_fits(response.squares@[i as int]));
            return None;
        }
        let ghost before = cells;
        cells[cell.x][cell.y] = Some(Cell { value: cell.value, num_iteration: 0 });
        assert(response.squares@.take(i + 1).drop_last() =~= response.squares@.take(i as int));
        assert forall|x: int, y: int| in_grid(x, y) implies #[trigger] value_at(cells, x, y)
            == placed_value(response.squares@.take(i + 1), x, y) by {
            if x != cell.x || y != cell.y {
                assert(value_at(before, x, y) == value_at(cells, x, y));
            }
        }
        assert forall|x: int, y: int|
            in_grid(x, y) && cell_at(cells, x, y) is Some implies cell_at(
            cells,
            x,
            y,
        )->Some_0.num_iteration == 0 by {
            if x != cell.x || y != cell.y {
                assert(cell_at(before, x, y) == cell_at(cells, x, y));
            }
        }
        i += 1;
    }
    assert(response.squares@.take(i as int) =~= response.squares@);
    Some(Sudoku { cells })
}

} // verus!
