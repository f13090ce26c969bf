use vstd::prelude::*;
use vstd::set_lib::{lemma_int_range, lemma_map_size, lemma_subset_equality, set_int_range};

pub mod get;
pub mod solver;

verus! {

/// Number of rows, of columns, and of digits.
pub const SUDOKU_SIZE: usize = 9;

/// Side of one of the nine sub-boxes.
pub const BOX_SIZE: usize = 3;

/// A filled cell: its digit and the search generation that wrote it
/// (generation 0 for the cells given with the puzzle).
#[derive(Clone, Copy, Debug)]
pub struct Cell {
    pub value: u8,
    pub num_iteration: u32,
}

/// The grid, indexed by row and then by column.
pub type Cells = [[Option<Cell>; SUDOKU_SIZE]; SUDOKU_SIZE];

/// A puzzle and, once solved, its solution.
#[derive(Clone, Copy, Debug)]
pub struct Sudoku {
    pub cells: Cells,
}

pub open spec fn in_grid(x: int, y: int) -> bool {
    0 <= x < 9 && 0 <= y < 9
}

pub open spec fn cell_at(cells: Cells, x: int, y: int) -> Option<Cell> {
    cells@[x]@[y]
}

/// The digit at (x, y), if any.
pub open spec fn value_at(cells: Cells, x: int, y: int) -> Option<u8> {
    match cell_at(cells, x, y) {
        Some(c) => Some(c.value),
        None => None,
    }
}

pub open spec fn is_digit(v: u8) -> bool {
    1 <= v <= 9
}

pub open spec fn same_box(x1: int, y1: int, x2: int, y2: int) -> bool {
    x1 / 3 == x2 / 3 && y1 / 3 == y2 / 3
}

/// (x1, y1) and (x2, y2) share a row, a column or a sub-box.
pub open spec fn shares_unit(x1: int, y1: int, x2: int, y2: int) -> bool {
    x1 == x2 || y1 == y2 || same_box(x1, y1, x2, y2)
}

/// Every filled cell holds a digit 1 to 9.
pub open spec fn digits_valid(cells: Cells) -> bool {
    forall|x: int, y: int|
        #![trigger cell_at(cells, x, y)]
        in_grid(x, y) && cell_at(cells, x, y) is Some ==> is_digit(cell_at(cells, x, y)->Some_0.value)
}

/// No digit repeats in a row, a column or a sub-box.
pub open spec fn consistent(cells: Cells) -> bool {
    forall|x1: int, y1: int, x2: int, y2: int|
        #![trigger value_at(cells, x1, y1), value_at(cells, x2, y2)]
        in_grid(x1, y1) && in_grid(x2, y2) && (x1 != x2 || y1 != y2) && shares_unit(x1, y1, x2, y2)
            && value_at(cells, x1, y1) is Some ==> value_at(cells, x1, y1) != value_at(cells, x2, y2)
}

/// No cell is empty.
pub open spec fn complete(cells: Cells) -> bool {
    forall|x: int, y: int| #![trigger cell_at(cells, x, y)] in_grid(x, y) ==> cell_at(cells, x, y) is Some
}

/// Every cell filled in `before` holds the same digit in `after`.
pub open spec fn keeps_values(after: Cells, before: Cells) -> bool {
    forall|x: int, y: int|
        #![trigger value_at(after, x, y)]
        in_grid(x, y) && value_at(before, x, y) is Some ==> value_at(after, x, y) == value_at(before, x, y)
}

/// Every cell filled in `before` is the same cell, generation included, in `after`.
pub open spec fn keeps_cells(after: Cells, before: Cells) -> bool {
    forall|x: int, y: int|
        #![trigger cell_at(after, x, y)]
        in_grid(x, y) && cell_at(before, x, y) is Some ==> cell_at(after, x, y) == cell_at(before, x, y)
}

/// `sol` is a complete, consistent grid of digits that agrees with `cells`
/// wherever `cells` is filled.
pub open spec fn is_solution(sol: Cells, cells: Cells) -> bool {
    &&& digits_valid(sol)
    &&& complete(sol)
    &&& consistent(sol)
    &&& keeps_values(sol, cells)
}

/// Some completion of `cells` solves the puzzle.
pub open spec fn solvable(cells: Cells) -> bool {
    exists|sol: Cells| is_solution(sol, cells)
}

/// Every filled cell carries generation 0, as the cells of a fresh puzzle do.
pub open spec fn givens_only(cells: Cells) -> bool {
    forall|x: int, y: int|
        #![trigger cell_at(cells, x, y)]
        in_grid(x, y) && cell_at(cells, x, y) is Some ==> cell_at(cells, x, y)->Some_0.num_iteration == 0
}

/// The digit `d` already stands in the row, the column or the sub-box of (x, y).
pub open spec fn seen(cells: Cells, x: int, y: int, d: u8) -> bool {
    exists|a: int, b: int|
        #![trigger value_at(cells, a, b)]
        in_grid(a, b) && shares_unit(a, b, x, y) && value_at(cells, a, b) == Some(d)
}

/// The digit `d` may still be written at (x, y).
pub open spec fn is_candidate(cells: Cells, x: int, y: int, d: u8) -> bool {
    is_digit(d) && !seen(cells, x, y, d)
}

/// The highest generation a cell may carry when the search starts: the search
/// tags its writes with up to 82 generations above it, which must fit in `u32`.
pub const MAX_GENERATION: u32 = 4294967213;

/// No filled cell carries a generation above `g`.
pub open spec fn generations_at_most(cells: Cells, g: u32) -> bool {
    forall|x: int, y: int|
        #![trigger cell_at(cells, x, y)]
        in_grid(x, y) && cell_at(cells, x, y) is Some ==> cell_at(cells, x, y)->Some_0.num_iteration <= g
}

/// What `solve` accepts: digits only, no repeated digit, and generations that
/// leave room for the search's own.
pub open spec fn ready(cells: Cells) -> bool {
    &&& digits_valid(cells)
    &&& consistent(cells)
    &&& generations_at_most(cells, MAX_GENERATION)
}

/// `a` and `b` hold the same digits at the same places.
pub open spec fn same_values(a: Cells, b: Cells) -> bool {
    forall|x: int, y: int| #![trigger value_at(a, x, y)] in_grid(x, y) ==> value_at(a, x, y) == value_at(b, x, y)
}

/// No other cell of the row, column or sub-box of (x, y) holds its digit.
pub open spec fn clash_free(cells: Cells, x: int, y: int) -> bool {
    forall|a: int, b: int|
        #![trigger value_at(cells, a, b)]
        in_grid(a, b) && (a != x || b != y) && shares_unit(a, b, x, y) ==> value_at(cells, a, b)
            != value_at(cells, x, y)
}

/// Whether the filled cell (x, y) shares its digit with another cell of its
/// row, column or sub-box.
fn check_clash_free(cells: &Cells, x: usize, y: usize) -> (r: bool)
    requires
        x < 9,
        y < 9,
    ensures
        r == clash_free(*cells, x as int, y as int),
{
    let here = cells[x][y];
    let mut a: usize = 0;
    while a < SUDOKU_SIZE
        invariant
            x < 9,
            y < 9,
            a <= 9,
            here == cell_at(*cells, x as int, y as int),
            forall|p: int, q: int|
                #![trigger value_at(*cells, p, q)]
                in_grid(p, q) && p < a && (p != x || q != y) && shares_unit(p, q, x as int, y as int)
                    ==> value_at(*cells, p, q) != value_at(*cells, x as int, y as int),
        decreases 9 - a,
    {
        let mut b: usize = 0;
        while b < SUDOKU_SIZE
            invariant
                x < 9,
                y < 9,
                a < 9,
                b <= 9,
                here == cell_at(*cells, x as int, y as int),
                forall|p: int, q: int|
                    #![trigger value_at(*cells, p, q)]
                    in_grid(p, q) && (p < a || (p == a && q < b)) && (p != x || q != y) && shares_unit(
                        p,
                        q,
                        x as int,
                        y as int,
                    ) ==> value_at(*cells, p, q) != value_at(*cells, x as int, y as int),
            decreases 9 - b,
        {
            let peer = (a == x || b == y || (a / BOX_SIZE == x / BOX_SIZE && b / BOX_SIZE == y
                / BOX_SIZE)) && (a != x || b != y);
            let there = cells[a][b];
            assert(there == cell_at(*cells, a as int, b as int));
            if peer {
                let equal = match (there, here) {
                    (Some(c), Some(d)) => c.value == d.value,
                    (None, None) => true,
                    _ => false,
                };
                if equal {
                    assert(value_at(*cells, a as int, b as int) == value_at(*cells, x as int, y as int));
                    return false;
                }
            }
            b += 1;
        }
        a += 1;
    }
    true
}

/// The highest generation that a filled cell carries, or 0 on an empty grid.
pub fn top_generation(cells: &Cells) -> (r: u32)
    ensures
        generations_at_most(*cells, r),
        forall|g: u32| generations_at_most(*cells, g) ==> r <= g,
{
    let mut top: u32 = 0;
    let mut x: usize = 0;
    while x < SUDOKU_SIZE
        invariant
            x <= 9,
            forall|a: int, b: int|
                #![trigger cell_at(*cells, a, b)]
                in_grid(a, b) && a < x && cell_at(*cells, a, b) is Some ==> cell_at(*cells, a, b)->Some_0.num_iteration
                    <= top,
            top == 0 || exists|a: int, b: int|
                #![trigger cell_at(*cells, a, b)]
                in_grid(a, b) && cell_at(*cells, a, b) is Some && cell_at(*cells, a, b)->Some_0.num_iteration
                    == top,
        decreases 9 - x,
    {
        let mut y: usize = 0;
        while y < SUDOKU_SIZE
            invariant
                x < 9,
                y <= 9,
                forall|a: int, b: int|
                    #![trigger cell_at(*cells, a, b)]
                    in_grid(a, b) && (a < x || (a == x && b < y)) && cell_at(*cells, a, b) is Some
                        ==> cell_at(*cells, a, b)->Some_0.num_iteration <= top,
                top == 0 || exists|a: int, b: int|
                    #![trigger cell_at(*cells, a, b)]
                    in_grid(a, b) && cell_at(*cells, a, b) is Some && cell_at(*cells, a, b)->Some_0.num_iteration
                        == top,
            decreases 9 - y,
        {
            if let Some(c) = cells[x][y] {
                assert(cell_at(*cells, x as int, y as int) == Some(c));
                if c.num_iteration > top {
                    top = c.num_iteration;
                }
            }
            y += 1;
        }
        x += 1;
    }
    proof {
        assert forall|g: u32| generations_at_most(*cells, g) implies top <= g by {
            if top != 0 {
                let (a, b) = choose|a: int, b: int|
                    in_grid(a, b) && cell_at(*cells, a, b) is Some && cell_at(*cells, a, b)->Some_0.num_iteration
                        == top;
            }
        }
    }
    top
}

impl Sudoku {
    /// A grid with no cell filled.
    pub fn empty() -> (r: Sudoku)
        ensures
            forall|x: int, y: int| in_grid(x, y) ==> #[trigger] cell_at(r.cells, x, y) is None,
    {
        Sudoku { cells: [[None; SUDOKU_SIZE]; SUDOKU_SIZE] }
    }

    /// The digit at row x, column y, if the cell is filled.
    pub fn value(&self, x: usize, y: usize) -> (r: Option<u8>)
        requires
            x < 9,
            y < 9,
        ensures
            r == value_at(self.cells, x as int, y as int),
    {
        match self.cells[x][y] {
            Some(c) => Some(c.value),
            None => None,
        }
    }

    /// Whether no cell is empty.
    pub fn is_complete(&self) -> (r: bool)
        ensures
            r == complete(self.cells),
    {
        let mut x: usize = 0;
        while x < SUDOKU_SIZE
            invariant
                x <= 9,
                forall|a: int, b: int|
                    #![trigger cell_at(self.cells, a, b)]
                    in_grid(a, b) && a < x ==> cell_at(self.cells, a, b) is Some,
            decreases 9 - x,
        {
            let mut y: usize = 0;
            while y < SUDOKU_SIZE
                invariant
                    x < 9,
                    y <= 9,
                    forall|a: int, b: int|
                        #![trigger cell_at(self.cells, a, b)]
                        in_grid(a, b) && (a < x || (a == x && b < y)) ==> cell_at(self.cells, a, b) is Some,
                decreases 9 - y,
            {
                if self.cells[x][y].is_none() {
                    assert(cell_at(self.cells, x as int, y as int) is None);
                    return false;
                }
                y += 1;
            }
            x += 1;
        }
        true
    }

    /// Whether every filled cell holds a digit 1 to 9 and no digit repeats in a
    /// row, a column or a sub-box.
    pub fn is_consistent(&self) -> (r: bool)
        ensures
            r == (digits_valid(self.cells) && consistent(self.cells)),
    {
        let mut x: usize = 0;
        while x < SUDOKU_SIZE
            invariant
                x <= 9,
                forall|a: int, b: int|
                    #![trigger cell_at(self.cells, a, b)]
                    in_grid(a, b) && a < x && cell_at(self.cells, a, b) is Some ==> is_digit(
                        cell_at(self.cells, a, b)->Some_0.value,
                    ) && clash_free(self.cells, a, b),
            decreases 9 - x,
        {
            let mut y: usize = 0;
            while y < SUDOKU_SIZE
                invariant
                    x < 9,
                    y <= 9,
                    forall|a: int, b: int|
                        #![trigger cell_at(self.cells, a, b)]
                        in_grid(a, b) && (a < x || (a == x && b < y)) && cell_at(self.cells, a, b) is Some
                            ==> is_digit(cell_at(self.cells, a, b)->Some_0.value) && clash_free(
                            self.cells,
                            a,
                            b,
                        ),
                decreases 9 - y,
            {
                let here = self.cells[x][y];
                assert(here == cell_at(self.cells, x as int, y as int));
                if let Some(c) = here {
                    if c.value < 1 || c.value > 9 {
                        return false;
                    }
                    if !check_clash_free(&self.cells, x, y) {
                        proof {
                            let (a, b) = choose|a: int, b: int|
                                in_grid(a, b) && (a != x || b != y) && shares_unit(a, b, x as int, y as int)
                                    && value_at(self.cells, a, b) == value_at(self.cells, x as int, y as int);
                            assert(shares_unit(x as int, y as int, a, b));
                        }
                        return false;
                    }
                }
                y += 1;
            }
            x += 1;
        }
        proof {
            assert forall|x1: int, y1: int, x2: int, y2: int|
                in_grid(x1, y1) && in_grid(x2, y2) && (x1 != x2 || y1 != y2) && shares_unit(
                    x1,
                    y1,
                    x2,
                    y2,
                ) && value_at(self.cells, x1, y1) is Some implies value_at(self.cells, x1, y1)
                != value_at(self.cells, x2, y2) by {
                assert(cell_at(self.cells, x1, y1) is Some);
                assert(clash_free(self.cells, x1, y1));
                assert(shares_unit(x2, y2, x1, y1));
                assert(value_at(self.cells, x2, y2) != value_at(self.cells, x1, y1));
            }
        }
        true
    }

    /// Whether `solve` accepts this grid.
    pub fn is_ready(&self) -> (r: bool)
        ensures
            r == ready(self.cells),
    {
        self.is_consistent() && top_generation(&self.cells) <= MAX_GENERATION
    }
}

/// The character that shows a digit from 1 to 9.
pub open spec fn digit_char(d: u8) -> char {
    if d == 1 {
        '1'
    } else if d == 2 {
        '2'
    } else if d == 3 {
        '3'
    } else if d == 4 {
        '4'
    } else if d == 5 {
        '5'
    } else if d == 6 {
        '6'
    } else if d == 7 {
        '7'
    } else if d == 8 {
        '8'
    } else {
        '9'
    }
}

/// The character that shows a cell: its digit, or a blank when it is empty.
pub open spec fn cell_char(c: Option<Cell>) -> char {
    match c {
        Some(c) => digit_char(c.value),
        None => ' ',
    }
}

/// The first `n` cells of row x, each after a bar: `|7|2|3` for n = 3.
pub open spec fn row_prefix(cells: Cells, x: int, n: int) -> Seq<char>
    decreases n,
{
    if n <= 0 {
        Seq::empty()
    } else {
        row_prefix(cells, x, n - 1) + seq!['|', cell_char(cell_at(cells, x, n - 1))]
    }
}

/// A line break, then the first `n` rows, each closed by a bar and a line break.
pub open spec fn grid_prefix(cells: Cells, n: int) -> Seq<char>
    decreases n,
{
    if n <= 0 {
        seq!['\n']
    } else {
        grid_prefix(cells, n - 1) + row_prefix(cells, n - 1, 9) + seq!['|', '\n']
    }
}

/// The text that shows a cell.
fn cell_str(c: Option<Cell>) -> (r: &'static str)
    requires
        c is Some ==> is_digit(c->Some_0.value),
    ensures
        r@ == seq![cell_char(c)],
{
    match c {
        None => {
            proof {
                reveal_strlit(" ");
            }
            " "
        },
        Some(cell) => {
            if cell.value == 1 {
                proof {
                    reveal_strlit("1");
                }
                "1"
            } else if cell.value == 2 {
                proof {
                    reveal_strlit("2");
                }
                "2"
            } else if cell.value == 3 {
                proof {
                    reveal_strlit("3");
                }
                "3"
            } else if cell.value == 4 {
                proof {
                    reveal_strlit("4");
                }
                "4"
            } else if cell.value == 5 {
                proof {
                    reveal_strlit("5");
                }
                "5"
            } else if cell.value == 6 {
                proof {
                    reveal_strlit("6");
                }
                "6"
            } else if cell.value == 7 {
                proof {
                    reveal_strlit("7");
                }
                "7"
            } else if cell.value == 8 {
                proof {
                    reveal_strlit("8");
                }
                "8"
            } else {
                proof {
                    reveal_strlit("9");
                }
                "9"
            }
        },
    }
}

impl Sudoku {
    /// The grid as text: a line break, then one line per row, each cell after
    /// a bar and each line closed by a bar, with a blank for an empty cell.
    pub fn to_text(&self) -> (r: String)
        requires
            digits_valid(self.cells),
        ensures
            r@ == grid_prefix(self.cells, 9),
    {
        proof {
            reveal_strlit("\n");
        }
        let mut text = String::from_str("\n");
        let mut x: usize = 0;
        while x < SUDOKU_SIZE
            invariant
                x <= 9,
                digits_valid(self.cells),
                text@ == grid_prefix(self.cells, x as int),
            decreases 9 - x,
        {
            let ghost head = text@;
            let mut y: usize = 0;
            while y < SUDOKU_SIZE
                invariant
                    x < 9,
                    y <= 9,
                    digits_valid(self.cells),
                    text@ == head + row_prefix(self.cells, x as int, y as int),
                decreases 9 - y,
            {
                let cell = self.cells[x][y];
                assert(cell == cell_at(self.cells, x as int, y as int));
                proof {
                    reveal_strlit("|");
                }
                text.append("|");
                text.append(cell_str(cell));
                assert(text@ =~= head + row_prefix(self.cells, x as int, y + 1));
                y += 1;
            }
            proof {
                reveal_strlit("|\n");
            }
            text.append("|\n");
            assert(text@ =~= grid_prefix(self.cells, x + 1));
            x += 1;
        }
        text
    }
}

impl PartialEq for Cell {
    /// Cells compare by their digit alone.
    fn eq(&self, other: &Cell) -> (r: bool) {
        self.value == other.value
    }
}

impl vstd::std_specs::cmp::PartialEqSpecImpl for Cell {
    open spec fn obeys_eq_spec() -> bool {
        true
    }

    open spec fn eq_spec(&self, other: &Cell) -> bool {
        self.value == other.value
    }
}

impl PartialEq for Sudoku {
    /// Grids compare by their digits alone, not by the generations.
    fn eq(&self, other: &Sudoku) -> (r: bool) {
        let mut x: usize = 0;
        while x < SUDOKU_SIZE
            invariant
                x <= 9,
                forall|a: int, b: int|
                    #![trigger value_at(self.cells, a, b)]
                    in_grid(a, b) && a < x ==> value_at(self.cells, a, b) == value_at(other.cells, a, b),
            decreases 9 - x,
        {
            let mut y: usize = 0;
            while y < SUDOKU_SIZE
                invariant
                    x < 9,
                    y <= 9,
                    forall|a: int, b: int|
                        #![trigger value_at(self.cells, a, b)]
                        in_grid(a, b) && (a < x || (a == x && b < y)) ==> value_at(self.cells, a, b)
                            == value_at(other.cells, a, b),
                decreases 9 - y,
            {
                let mine = self.cells[x][y];
                let theirs = other.cells[x][y];
                assert(mine == cell_at(self.cells, x as int, y as int));
                assert(theirs == cell_at(other.cells, x as int, y as int));
                let equal = match (mine, theirs) {
                    (Some(c), Some(d)) => c == d,
                    (None, None) => true,
                    _ => false,
                };
                if !equal {
                    assert(value_at(self.cells, x as int, y as int) != value_at(
                        other.cells,
                        x as int,
                        y as int,
                    ));
                    return false;
                }
                y += 1;
            }
            x += 1;
        }
        true
    }
}

impl vstd::std_specs::cmp::PartialEqSpecImpl for Sudoku {
    open spec fn obeys_eq_spec() -> bool {
        true
    }

    open spec fn eq_spec(&self, other: &Sudoku) -> bool {
        same_values(self.cells, other.cells)
    }
}

/// The digit `d` stands exactly once in row x.
pub open spec fn row_holds_once(cells: Cells, x: int, d: u8) -> bool {
    exists|y: int|
        #![trigger value_at(cells, x, y)]
        0 <= y < 9 && value_at(cells, x, y) == Some(d) && forall|y2: int|
            #![trigger value_at(cells, x, y2)]
            0 <= y2 < 9 && value_at(cells, x, y2) == Some(d) ==> y2 == y
}

/// The digit `d` stands exactly once in column y.
pub open spec fn column_holds_once(cells: Cells, y: int, d: u8) -> bool {
    exists|x: int|
        #![trigger value_at(cells, x, y)]
        0 <= x < 9 && value_at(cells, x, y) == Some(d) && forall|x2: int|
            #![trigger value_at(cells, x2, y)]
            0 <= x2 < 9 && value_at(cells, x2, y) == Some(d) ==> x2 == x
}

/// The digit `d` stands exactly once in the sub-box whose top-left cell is
/// (3 * i, 3 * j).
pub open spec fn box_holds_once(cells: Cells, i: int, j: int, d: u8) -> bool {
    exists|x: int, y: int|
        #![trigger value_at(cells, x, y)]
        in_grid(x, y) && x / 3 == i && y / 3 == j && value_at(cells, x, y) == Some(d) && forall|
            x2: int,
            y2: int,
        |
            #![trigger value_at(cells, x2, y2)]
            in_grid(x2, y2) && x2 / 3 == i && y2 / 3 == j && value_at(cells, x2, y2) == Some(d) ==> x2
                == x && y2 == y
}

/// Nine distinct values from 1 to 9 take every value from 1 to 9.
proof fn lemma_pigeonhole(f: spec_fn(int) -> int, d: int)
    requires
        forall|k: int| 0 <= k < 9 ==> 1 <= #[trigger] f(k) <= 9,
        forall|k1: int, k2: int| 0 <= k1 < 9 && 0 <= k2 < 9 && k1 != k2 ==> #[trigger] f(k1) != #[trigger] f(k2),
        1 <= d <= 9,
    ensures
        exists|k: int| 0 <= k < 9 && #[trigger] f(k) == d,
{
    let dom = set_int_range(0, 9);
    let digits = set_int_range(1, 10);
    lemma_int_range(0, 9);
    lemma_int_range(1, 10);
    let image = dom.map(f);
    assert(vstd::relations::injective_on(f, dom));
    lemma_map_size(dom, image, f);
    assert forall|v: int| image.contains(v) implies digits.contains(v) by {
        let k = choose|k: int| dom.contains(k) && f(k) == v;
    }
    lemma_subset_equality(image, digits);
    assert(image.contains(d));
}

/// In a solution, each digit from 1 to 9 stands exactly once in every row,
/// every column and every sub-box.
pub proof fn lemma_solution_units(sol: Cells, cells: Cells)
    requires
        is_solution(sol, cells),
    ensures
        forall|x: int, d: u8| 0 <= x < 9 && is_digit(d) ==> #[trigger] row_holds_once(sol, x, d),
        forall|y: int, d: u8| 0 <= y < 9 && is_digit(d) ==> #[trigger] column_holds_once(sol, y, d),
        forall|i: int, j: int, d: u8|
            0 <= i < 3 && 0 <= j < 3 && is_digit(d) ==> #[trigger] box_holds_once(sol, i, j, d),
{
    assert forall|x: int, d: u8| 0 <= x < 9 && is_digit(d) implies #[trigger] row_holds_once(
        sol,
        x,
        d,
    ) by {
        let f = |k: int| value_at(sol, x, k)->Some_0 as int;
        assert forall|k: int| 0 <= k < 9 implies 1 <= #[trigger] f(k) <= 9 by {
            assert(cell_at(sol, x, k) is Some);
        }
        assert forall|k1: int, k2: int|
            0 <= k1 < 9 && 0 <= k2 < 9 && k1 != k2 implies #[trigger] f(k1) != #[trigger] f(k2) by {
            assert(cell_at(sol, x, k1) is Some);
            assert(cell_at(sol, x, k2) is Some);
            assert(shares_unit(x, k1, x, k2));
        }
        lemma_pigeonhole(f, d as int);
        let y = choose|k: int| 0 <= k < 9 && #[trigger] f(k) == d as int;
        assert(cell_at(sol, x, y) is Some);
        assert forall|y2: int| 0 <= y2 < 9 && value_at(sol, x, y2) == Some(d) implies y2 == y by {
            assert(shares_unit(x, y2, x, y));
        }
        assert(value_at(sol, x, y) == Some(d));
    }
    assert forall|y: int, d: u8| 0 <= y < 9 && is_digit(d) implies #[trigger] column_holds_once(
        sol,
        y,
        d,
    ) by {
        let f = |k: int| value_at(sol, k, y)->Some_0 as int;
        assert forall|k: int| 0 <= k < 9 implies 1 <= #[trigger] f(k) <= 9 by {
            assert(cell_at(sol, k, y) is Some);
        }
        assert forall|k1: int, k2: int|
            0 <= k1 < 9 && 0 <= k2 < 9 && k1 != k2 implies #[trigger] f(k1) != #[trigger] f(k2) by {
            assert(cell_at(sol, k1, y) is Some);
            assert(cell_at(sol, k2, y) is Some);
            assert(shares_unit(k1, y, k2, y));
        }
        lemma_pigeonhole(f, d as int);
        let x = choose|k: int| 0 <= k < 9 && #[trigger] f(k) == d as int;
        assert(cell_at(sol, x, y) is Some);
        assert forall|x2: int| 0 <= x2 < 9 && value_at(sol, x2, y) == Some(d) implies x2 == x by {
            assert(shares_unit(x2, y, x, y));
        }
        assert(value_at(sol, x, y) == Some(d));
    }
    assert forall|i: int, j: int, d: u8|
        0 <= i < 3 && 0 <= j < 3 && is_digit(d) implies #[trigger] box_holds_once(sol, i, j, d) by {
        let f = |k: int| value_at(sol, 3 * i + k / 3, 3 * j + k % 3)->Some_0 as int;
        assert forall|k: int| 0 <= k < 9 implies 1 <= #[trigger] f(k) <= 9 by {
            assert(cell_at(sol, 3 * i + k / 3, 3 * j + k % 3) is Some);
        }
        assert forall|k1: int, k2: int|
            0 <= k1 < 9 && 0 <= k2 < 9 && k1 != k2 implies #[trigger] f(k1) != #[trigger] f(k2) by {
            let (a1, b1) = (3 * i + k1 / 3, 3 * j + k1 % 3);
            let (a2, b2) = (3 * i + k2 / 3, 3 * j + k2 % 3);
            assert(cell_at(sol, a1, b1) is Some);
            assert(cell_at(sol, a2, b2) is Some);
            assert(a1 / 3 == i && a2 / 3 == i && b1 / 3 == j && b2 / 3 == j);
            assert(a1 != a2 || b1 != b2);
            assert(shares_unit(a1, b1, a2, b2));
        }
        lemma_pigeonhole(f, d as int);
        let k = choose|k: int| 0 <= k < 9 && #[trigger] f(k) == d as int;
        let (x, y) = (3 * i + k / 3, 3 * j + k % 3);
        assert(cell_at(sol, x, y) is Some);
        assert(x / 3 == i && y / 3 == j);
        assert forall|x2: int, y2: int|
            in_grid(x2, y2) && x2 / 3 == i && y2 / 3 == j && value_at(sol, x2, y2) == Some(
                d,
            ) implies x2 == x && y2 == y by {
            assert(shares_unit(x2, y2, x, y));
        }
        assert(value_at(sol, x, y) == Some(d));
    }
}

} // verus!
