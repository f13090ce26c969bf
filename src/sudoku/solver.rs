use vstd::prelude::*;

use super::{
    cell_at, complete, consistent, digits_valid, generations_at_most, in_grid, is_candidate,
    is_digit, is_solution, keeps_cells, ready, same_box, top_generation, seen, shares_unit, solvable, value_at, Cell,
    Cells, Sudoku, BOX_SIZE, SUDOKU_SIZE,
};

verus! {

/// The digit `d` stands in row x or column y, within the first `n` cells of each.
pub open spec fn line_seen(cells: Cells, x: int, y: int, d: u8, n: int) -> bool {
    exists|r: int|
        #![trigger value_at(cells, x, r)]
        #![trigger value_at(cells, r, y)]
        0 <= r < n && (value_at(cells, x, r) == Some(d) || value_at(cells, r, y) == Some(d))
}

/// The top-left corner of the sub-box that holds index `i`.
pub open spec fn box_anchor(i: int) -> int {
    i - i % 3
}

/// The digit `d` stands in the sub-box of (x, y), within its first `n` cells
/// in row-major order.
pub open spec fn box_seen(cells: Cells, x: int, y: int, d: u8, n: int) -> bool {
    exists|a: int, b: int|
        #![trigger value_at(cells, a, b)]
        box_anchor(x) <= a < box_anchor(x) + 3 && box_anchor(y) <= b < box_anchor(y) + 3
            && 3 * (a - box_anchor(x)) + (b - box_anchor(y)) < n && value_at(cells, a, b) == Some(d)
}

proof fn lemma_box_window(a: int, x: int)
    requires
        0 <= a < 9,
        0 <= x < 9,
    ensures
        a / 3 == x / 3 <==> box_anchor(x) <= a < box_anchor(x) + 3,
{
}

/// Clears from `possible` the digit that `cell` holds, if it holds one.
fn remove_value_if_necessary(possible: &mut [Option<u8>; SUDOKU_SIZE], cell: Option<Cell>)
    requires
        cell is Some ==> is_digit(cell->Some_0.value),
    ensures
        forall|i: int|
            0 <= i < 9 ==> final(possible)@[i] == (if cell is Some && cell->Some_0.value == i + 1 {
                None
            } else {
                old(possible)@[i]
            }),
{
    if let Some(c) = cell {
        possible[(c.value - 1) as usize] = None;
    }
}

/// The digits that may still be written at (x, y), in ascending order.
pub fn find_value(cells: &Cells, x: usize, y: usize) -> (r: Vec<u8>)
    requires
        x < 9,
        y < 9,
        digits_valid(*cells),
    ensures
        forall|i: int, j: int| 0 <= i < j < r@.len() ==> r@[i] < r@[j],
        forall|d: u8| r@.contains(d) <==> is_candidate(*cells, x as int, y as int, d),
{
    let mut possible: [Option<u8>; SUDOKU_SIZE] = [
        Some(1),
        Some(2),
        Some(3),
        Some(4),
        Some(5),
        Some(6),
        Some(7),
        Some(8),
        Some(9),
    ];
    let mut rolling: usize = 0;
    while rolling < SUDOKU_SIZE
        invariant
            x < 9,
            y < 9,
            rolling <= 9,
            digits_valid(*cells),
            forall|i: int|
                0 <= i < 9 ==> (possible@[i] is None || possible@[i] == Some((i + 1) as u8)),
            forall|i: int|
                0 <= i < 9 ==> (possible@[i] is None <==> line_seen(
                    *cells,
                    x as int,
                    y as int,
                    (i + 1) as u8,
                    rolling as int,
                )),
        decreases 9 - rolling,
    {
        let cell_x = cells[x][rolling];
        let cell_y = cells[rolling][y];
        assert(cell_at(*cells, x as int, rolling as int) == cell_x);
        assert(cell_at(*cells, rolling as int, y as int) == cell_y);
        remove_value_if_necessary(&mut possible, cell_x);
        remove_value_if_necessary(&mut possible, cell_y);
        assert forall|i: int| 0 <= i < 9 implies (possible@[i] is None <==> line_seen(
            *cells,
            x as int,
            y as int,
            (i + 1) as u8,
            rolling + 1,
        )) by {
            let d = (i + 1) as u8;
            if line_seen(*cells, x as int, y as int, d, rolling + 1) {
                let r = choose|r: int|
                    0 <= r < rolling + 1 && (value_at(*cells, x as int, r) == Some(d) || value_at(
                        *cells,
                        r,
                        y as int,
                    ) == Some(d));
                if r < rolling {
                    assert(line_seen(*cells, x as int, y as int, d, rolling as int));
                }
            }
            if possible@[i] is None && !(cell_x is Some && cell_x->Some_0.value == i + 1) && !(
            cell_y is Some && cell_y->Some_0.value == i + 1) {
                let r = choose|r: int|
                    0 <= r < rolling && (value_at(*cells, x as int, r) == Some(d) || value_at(
                        *cells,
                        r,
                        y as int,
                    ) == Some(d));
                assert(value_at(*cells, x as int, r) == Some(d) || value_at(*cells, r, y as int)
                    == Some(d));
            }
            if cell_x is Some && cell_x->Some_0.value == i + 1 {
                assert(value_at(*cells, x as int, rolling as int) == Some(d));
            }
            if cell_y is Some && cell_y->Some_0.value == i + 1 {
                assert(value_at(*cells, rolling as int, y as int) == Some(d));
            }
        }
        rolling += 1;
    }
    let x0: usize = x - x % BOX_SIZE;
    let y0: usize = y - y % BOX_SIZE;
    let mut bx: usize = 0;
    while bx < BOX_SIZE
        invariant
            x < 9,
            y < 9,
            x0 == box_anchor(x as int),
            y0 == box_anchor(y as int),
            bx <= 3,
            digits_valid(*cells),
            forall|i: int|
                0 <= i < 9 ==> (possible@[i] is None || possible@[i] == Some((i + 1) as u8)),
            forall|i: int|
                0 <= i < 9 ==> (possible@[i] is None <==> (line_seen(
                    *cells,
                    x as int,
                    y as int,
                    (i + 1) as u8,
                    9,
                ) || box_seen(*cells, x as int, y as int, (i + 1) as u8, 3 * bx))),
        decreases 3 - bx,
    {
        let mut by: usize = 0;
        while by < BOX_SIZE
            invariant
                x < 9,
                y < 9,
                x0 == box_anchor(x as int),
                y0 == box_anchor(y as int),
                bx < 3,
                by <= 3,
                digits_valid(*cells),
                forall|i: int|
                    0 <= i < 9 ==> (possible@[i] is None || possible@[i] == Some((i + 1) as u8)),
                forall|i: int|
                    0 <= i < 9 ==> (possible@[i] is None <==> (line_seen(
                        *cells,
                        x as int,
                        y as int,
                        (i + 1) as u8,
                        9,
                    ) || box_seen(*cells, x as int, y as int, (i + 1) as u8, 3 * bx + by))),
            decreases 3 - by,
        {
            let a = x0 + bx;
            let b = y0 + by;
            let cell = cells[a][b];
            assert(cell_at(*cells, a as int, b as int) == cell);
            remove_value_if_necessary(&mut possible, cell);
            assert forall|i: int| 0 <= i < 9 implies (possible@[i] is None <==> (line_seen(
                *cells,
                x as int,
                y as int,
                (i + 1) as u8,
                9,
            ) || box_seen(*cells, x as int, y as int, (i + 1) as u8, 3 * bx + by + 1))) by {
                let d = (i + 1) as u8;
                let n = 3 * bx + by;
                if box_seen(*cells, x as int, y as int, d, n + 1) {
                    let (a2, b2) = choose|a2: int, b2: int|
                        box_anchor(x as int) <= a2 < box_anchor(x as int) + 3 && box_anchor(
                            y as int,
                        ) <= b2 < box_anchor(y as int) + 3 && 3 * (a2 - box_anchor(x as int)) + (
                        b2 - box_anchor(y as int)) < n + 1 && value_at(*cells, a2, b2) == Some(d);
                    if 3 * (a2 - box_anchor(x as int)) + (b2 - box_anchor(y as int)) < n {
                        assert(box_seen(*cells, x as int, y as int, d, n));
                    }
                }
                if box_seen(*cells, x as int, y as int, d, n) {
                    let (a2, b2) = choose|a2: int, b2: int|
                        box_anchor(x as int) <= a2 < box_anchor(x as int) + 3 && box_anchor(
                            y as int,
                        ) <= b2 < box_anchor(y as int) + 3 && 3 * (a2 - box_anchor(x as int)) + (
                        b2 - box_anchor(y as int)) < n && value_at(*cells, a2, b2) == Some(d);
                    assert(box_seen(*cells, x as int, y as int, d, n + 1));
                }
                if cell is Some && cell->Some_0.value == i + 1 {
                    assert(value_at(*cells, a as int, b as int) == Some(d));
                    assert(box_seen(*cells, x as int, y as int, d, n + 1));
                }
            }
            by += 1;
        }
        bx += 1;
    }
    proof {
        assert forall|d: u8| is_digit(d) implies (possible@[d - 1] is None <==> seen(
            *cells,
            x as int,
            y as int,
            d,
        )) by {
            let xi = x as int;
            let yi = y as int;
            if seen(*cells, xi, yi, d) {
                let (a, b) = choose|a: int, b: int|
                    in_grid(a, b) && shares_unit(a, b, xi, yi) && value_at(*cells, a, b) == Some(
                        d,
                    );
                lemma_box_window(a, xi);
                lemma_box_window(b, yi);
                if a == xi {
                    assert(line_seen(*cells, xi, yi, d, 9));
                } else if b == yi {
                    assert(line_seen(*cells, xi, yi, d, 9));
                } else {
                    assert(box_seen(*cells, xi, yi, d, 9));
                }
            }
            if line_seen(*cells, xi, yi, d, 9) {
                let r = choose|r: int|
                    0 <= r < 9 && (value_at(*cells, xi, r) == Some(d) || value_at(*cells, r, yi)
                        == Some(d));
                if value_at(*cells, xi, r) == Some(d) {
                    assert(shares_unit(xi, r, xi, yi));
                } else {
                    assert(shares_unit(r, yi, xi, yi));
                }
            }
            if box_seen(*cells, xi, yi, d, 9) {
                let (a, b) = choose|a: int, b: int|
                    box_anchor(xi) <= a < box_anchor(xi) + 3 && box_anchor(yi) <= b < box_anchor(yi)
                        + 3 && 3 * (a - box_anchor(xi)) + (b - box_anchor(yi)) < 9 && value_at(
                        *cells,
                        a,
                        b,
                    ) == Some(d);
                lemma_box_window(a, xi);
                lemma_box_window(b, yi);
                assert(same_box(a, b, xi, yi));
                assert(shares_unit(a, b, xi, yi));
            }
        }
    }
    let mut r: Vec<u8> = Vec::new();
    let mut i: usize = 0;
    while i < SUDOKU_SIZE
        invariant
            i <= 9,
            forall|k: int|
                0 <= k < 9 ==> (possible@[k] is None || possible@[k] == Some((k + 1) as u8)),
            forall|j: int, k: int| 0 <= j < k < r@.len() ==> r@[j] < r@[k],
            forall|j: int| 0 <= j < r@.len() ==> 1 <= #[trigger] r@[j] <= i,
            forall|d: u8| r@.contains(d) <==> (1 <= d <= i && possible@[d - 1] is Some),
        decreases 9 - i,
    {
        let ghost before = r@;
        if let Some(v) = possible[i] {
            r.push(v);
        }
        assert(possible@[i as int] is Some ==> r@ == before.push((i + 1) as u8));
        assert(possible@[i as int] is None ==> r@ == before);
        assert forall|d: u8| r@.contains(d) <==> (1 <= d <= i + 1 && possible@[d - 1] is Some) by {
            if r@.contains(d) {
                let j = choose|j: int| 0 <= j < r@.len() && r@[j] == d;
                if j < before.len() {
                    assert(before.contains(d));
                }
            }
            if 1 <= d <= i && possible@[d - 1] is Some {
                assert(before.contains(d));
                let j = choose|j: int| 0 <= j < before.len() && before[j] == d;
                assert(r@[j] == d);
                assert(r@.contains(d));
            }
            if d == i + 1 && possible@[d - 1] is Some {
                assert(r@[r@.len() - 1] == d);
            }
        }
        i += 1;
    }
    r
}

/// Number of empty cells among the first `n` cells of row x.
pub open spec fn empties_in_row(cells: Cells, x: int, n: int) -> nat
    decreases n,
{
    if n <= 0 {
        0
    } else {
        empties_in_row(cells, x, n - 1) + if cell_at(cells, x, n - 1) is None {
            1nat
        } else {
            0nat
        }
    }
}

/// Number of empty cells among the first `n` rows.
pub open spec fn empties_upto(cells: Cells, n: int) -> nat
    decreases n,
{
    if n <= 0 {
        0
    } else {
        empties_upto(cells, n - 1) + empties_in_row(cells, n - 1, 9)
    }
}

/// Number of empty cells of the grid: each step of the search fills one.
pub open spec fn empty_count(cells: Cells) -> nat {
    empties_upto(cells, 9)
}

/// `a` and `b` hold the same cells, generations included.
pub open spec fn same_cells(a: Cells, b: Cells) -> bool {
    forall|x: int, y: int| #![trigger cell_at(b, x, y)] in_grid(x, y) ==> cell_at(a, x, y) == cell_at(b, x, y)
}

/// `a` and `b` hold the same cells everywhere but at (x, y).
pub open spec fn same_except(a: Cells, b: Cells, x: int, y: int) -> bool {
    forall|p: int, q: int|
        #![trigger cell_at(b, p, q)]
        in_grid(p, q) && (p != x || q != y) ==> cell_at(a, p, q) == cell_at(b, p, q)
}

/// Every cell that is empty in `before` is, in `after`, empty or of generation `g`.
pub open spec fn only_generation(after: Cells, before: Cells, g: u32) -> bool {
    forall|x: int, y: int|
        #![trigger cell_at(after, x, y)]
        in_grid(x, y) && cell_at(before, x, y) is None ==> (cell_at(after, x, y) is None || cell_at(
            after,
            x,
            y,
        )->Some_0.num_iteration == g)
}

/// `best` lists, in ascending order, the candidates of (x, y).
pub open spec fn lists_candidates(best: Seq<u8>, cells: Cells, x: int, y: int) -> bool {
    &&& forall|i: int, j: int| 0 <= i < j < best.len() ==> best[i] < best[j]
    &&& forall|d: u8| best.contains(d) <==> is_candidate(cells, x, y, d)
}

/// No solution of `cells` has the digit `d` at (x, y).
pub open spec fn ruled_out(cells: Cells, x: int, y: int, d: u8) -> bool {
    forall|sol: Cells| is_solution(sol, cells) ==> value_at(sol, x, y) != Some(d)
}

proof fn lemma_row_count_bound(cells: Cells, x: int, n: int)
    requires
        0 <= n,
    ensures
        empties_in_row(cells, x, n) <= n,
    decreases n,
{
    if n > 0 {
        lemma_row_count_bound(cells, x, n - 1);
    }
}

proof fn lemma_count_bound(cells: Cells, n: int)
    requires
        0 <= n,
    ensures
        empties_upto(cells, n) <= 9 * n,
    decreases n,
{
    if n > 0 {
        lemma_count_bound(cells, n - 1);
        lemma_row_count_bound(cells, n - 1, 9);
    }
}

proof fn lemma_fill_row(a: Cells, b: Cells, x: int, y: int, r: int, n: int)
    requires
        in_grid(x, y),
        0 <= r < 9,
        0 <= n <= 9,
        same_except(a, b, x, y),
        cell_at(a, x, y) is None,
        cell_at(b, x, y) is Some,
    ensures
        empties_in_row(b, r, n) + (if r == x && y < n {
            1int
        } else {
            0int
        }) == empties_in_row(a, r, n),
    decreases n,
{
    if n > 0 {
        lemma_fill_row(a, b, x, y, r, n - 1);
        assert(cell_at(b, r, n - 1) == cell_at(a, r, n - 1) || (r == x && n - 1 == y));
    }
}

proof fn lemma_fill_upto(a: Cells, b: Cells, x: int, y: int, n: int)
    requires
        in_grid(x, y),
        0 <= n <= 9,
        same_except(a, b, x, y),
        cell_at(a, x, y) is None,
        cell_at(b, x, y) is Some,
    ensures
        empties_upto(b, n) + (if x < n {
            1int
        } else {
            0int
        }) == empties_upto(a, n),
    decreases n,
{
    if n > 0 {
        lemma_fill_upto(a, b, x, y, n - 1);
        lemma_fill_row(a, b, x, y, n - 1, 9);
    }
}

/// An empty cell among the first `n` rows makes their count positive.
proof fn lemma_empty_cell_counts(cells: Cells, x: int, y: int, n: int)
    requires
        in_grid(x, y),
        x < n <= 9,
        cell_at(cells, x, y) is None,
    ensures
        empties_upto(cells, n) >= 1,
    decreases n,
{
    if x < n - 1 {
        lemma_empty_cell_counts(cells, x, y, n - 1);
    } else {
        lemma_row_has_empty(cells, x, y, 9);
    }
}

proof fn lemma_row_has_empty(cells: Cells, x: int, y: int, n: int)
    requires
        in_grid(x, y),
        y < n <= 9,
        cell_at(cells, x, y) is None,
    ensures
        empties_in_row(cells, x, n) >= 1,
    decreases n,
{
    if y < n - 1 {
        lemma_row_has_empty(cells, x, y, n - 1);
    }
}

/// Filling one empty cell lowers the number of empty cells by one.
proof fn lemma_fill_count(a: Cells, b: Cells, x: int, y: int)
    requires
        in_grid(x, y),
        same_except(a, b, x, y),
        cell_at(a, x, y) is None,
        cell_at(b, x, y) is Some,
    ensures
        empty_count(b) + 1 == empty_count(a),
{
    lemma_fill_upto(a, b, x, y, 9);
}

/// The digit that a solution puts in an empty cell is one of its candidates.
proof fn lemma_solution_value_is_candidate(sol: Cells, cells: Cells, x: int, y: int)
    requires
        in_grid(x, y),
        is_solution(sol, cells),
        cell_at(cells, x, y) is None,
    ensures
        value_at(sol, x, y) is Some,
        is_candidate(cells, x, y, value_at(sol, x, y)->Some_0),
{
    assert(cell_at(sol, x, y) is Some);
    let d = value_at(sol, x, y)->Some_0;
    if seen(cells, x, y, d) {
        let (a, b) = choose|a: int, b: int|
            in_grid(a, b) && shares_unit(a, b, x, y) && value_at(cells, a, b) == Some(d);
        assert(value_at(sol, a, b) == Some(d));
        assert(value_at(cells, x, y) is None);
        assert(shares_unit(x, y, a, b));
    }
}

/// Writing a candidate into an empty cell keeps the grid consistent, and the
/// solutions of the new grid are those of the old one with that digit there.
proof fn lemma_place_candidate(before: Cells, after: Cells, x: int, y: int, d: u8)
    requires
        in_grid(x, y),
        digits_valid(before),
        consistent(before),
        same_except(before, after, x, y),
        cell_at(before, x, y) is None,
        value_at(after, x, y) == Some(d),
        is_candidate(before, x, y, d),
    ensures
        digits_valid(after),
        consistent(after),
        forall|sol: Cells| is_solution(sol, after) ==> is_solution(sol, before),
        forall|sol: Cells|
            is_solution(sol, before) && value_at(sol, x, y) == Some(d) ==> is_solution(sol, after),
{
    assert forall|x1: int, y1: int, x2: int, y2: int|
        in_grid(x1, y1) && in_grid(x2, y2) && (x1 != x2 || y1 != y2) && shares_unit(x1, y1, x2, y2)
            && value_at(after, x1, y1) is Some implies value_at(after, x1, y1) != value_at(
        after,
        x2,
        y2,
    ) by {
        if x1 == x && y1 == y {
            if value_at(after, x2, y2) == Some(d) {
                assert(value_at(before, x2, y2) == Some(d));
                assert(shares_unit(x2, y2, x, y));
            }
        } else if x2 == x && y2 == y {
            if value_at(after, x1, y1) == Some(d) {
                assert(value_at(before, x1, y1) == Some(d));
            }
        } else {
            assert(value_at(after, x1, y1) == value_at(before, x1, y1));
            assert(value_at(after, x2, y2) == value_at(before, x2, y2));
        }
    }
    assert forall|sol: Cells| is_solution(sol, after) implies is_solution(sol, before) by {
        assert forall|p: int, q: int|
            in_grid(p, q) && value_at(before, p, q) is Some implies value_at(sol, p, q) == value_at(
            before,
            p,
            q,
        ) by {
            assert(value_at(after, p, q) == value_at(before, p, q));
        }
    }
    assert forall|sol: Cells|
        is_solution(sol, before) && value_at(sol, x, y) == Some(d) implies is_solution(
        sol,
        after,
    ) by {
        assert forall|p: int, q: int|
            in_grid(p, q) && value_at(after, p, q) is Some implies value_at(sol, p, q) == value_at(
            after,
            p,
            q,
        ) by {
            if p != x || q != y {
                assert(value_at(after, p, q) == value_at(before, p, q));
            }
        }
    }
}

/// Grids that hold the same cells are equal.
proof fn lemma_same_cells_equal(a: Cells, b: Cells)
    requires
        same_cells(a, b),
    ensures
        a == b,
{
    assert forall|x: int| 0 <= x < 9 implies a[x] == b[x] by {
        assert forall|y: int| 0 <= y < 9 implies a[x][y] == b[x][y] by {
            assert(cell_at(a, x, y) == cell_at(b, x, y));
        }
        assert(a[x] =~= b[x]);
    }
    assert(a =~= b);
}

/// Clears every cell written at generation `num_iteration`.
fn roll_back(cells: &mut Cells, num_iteration: u32)
    ensures
        forall|x: int, y: int|
            #![trigger cell_at(*final(cells), x, y)]
            in_grid(x, y) ==> cell_at(*final(cells), x, y) == (if cell_at(*old(cells), x, y) is Some
                && cell_at(*old(cells), x, y)->Some_0.num_iteration == num_iteration {
                None
            } else {
                cell_at(*old(cells), x, y)
            }),
{
    let ghost start = *cells;
    let mut x: usize = 0;
    while x < SUDOKU_SIZE
        invariant
            x <= 9,
            forall|a: int, b: int|
                #![trigger cell_at(*cells, a, b)]
                in_grid(a, b) ==> cell_at(*cells, a, b) == (if a < x && cell_at(start, a, b) is Some
                    && cell_at(start, a, b)->Some_0.num_iteration == num_iteration {
                    None
                } else {
                    cell_at(start, a, b)
                }),
        decreases 9 - x,
    {
        let mut y: usize = 0;
        while y < SUDOKU_SIZE
            invariant
                x < 9,
                y <= 9,
                forall|a: int, b: int|
                    #![trigger cell_at(*cells, a, b)]
                    in_grid(a, b) ==> cell_at(*cells, a, b) == (if (a < x || (a == x && b < y))
                        && cell_at(start, a, b) is Some && cell_at(start, a, b)->Some_0.num_iteration
                        == num_iteration {
                        None
                    } else {
                        cell_at(start, a, b)
                    }),
            decreases 9 - y,
        {
            let ghost pre = *cells;
            let current = cells[x][y];
            assert(current == cell_at(pre, x as int, y as int));
            if let Some(cell) = current {
                if cell.num_iteration == num_iteration {
                    cells[x][y] = None;
                }
            }
            assert(same_except(pre, *cells, x as int, y as int));
            y += 1;
        }
        x += 1;
    }
}

/// One step of the search at generation `num_iteration`: fills the empty cell
/// with the fewest candidates, recursing on each, and reports whether the grid
/// could be completed.
///
/// On success the grid is a solution of the grid it was given. On failure no
/// solution exists, the cells given are untouched, and every other cell is
/// empty or of generation `num_iteration`: the caller clears that generation.
fn solve_internal(cells: &mut Cells, num_iteration: u32) -> (r: bool)
    requires
        digits_valid(*old(cells)),
        consistent(*old(cells)),
        generations_at_most(*old(cells), num_iteration),
        num_iteration + empty_count(*old(cells)) <= u32::MAX,
    ensures
        r == solvable(*old(cells)),
        r ==> is_solution(*final(cells), *old(cells)),
        keeps_cells(*final(cells), *old(cells)),
        !r ==> only_generation(*final(cells), *old(cells), num_iteration),
        complete(*old(cells)) ==> *final(cells) == *old(cells),
    decreases empty_count(*old(cells)),
{
    let ghost start = *cells;
    // Row-major scan: the first empty cell with the fewest candidates is kept,
    // and one with a single candidate ends the scan at once.
    let mut found = false;
    let mut should_finish = false;
    let mut bx: usize = 0;
    let mut by: usize = 0;
    let mut best: Vec<u8> = Vec::new();
    let mut x: usize = 0;
    while x < SUDOKU_SIZE && !should_finish
        invariant
            *cells == start,
            digits_valid(start),
            x <= 9,
            found ==> in_grid(bx as int, by as int) && cell_at(start, bx as int, by as int) is None
                && lists_candidates(best@, start, bx as int, by as int),
            !found ==> forall|a: int, b: int|
                #![trigger cell_at(start, a, b)]
                in_grid(a, b) && a < x ==> cell_at(start, a, b) is Some,
            should_finish ==> found && best@.len() == 1,
        decreases 9 - x,
    {
        let mut y: usize = 0;
        while y < SUDOKU_SIZE && !should_finish
            invariant
                *cells == start,
                digits_valid(start),
                x < 9,
                y <= 9,
                found ==> in_grid(bx as int, by as int) && cell_at(start, bx as int, by as int)
                    is None && lists_candidates(best@, start, bx as int, by as int),
                !found ==> forall|a: int, b: int|
                    #![trigger cell_at(start, a, b)]
                    in_grid(a, b) && (a < x || (a == x && b < y)) ==> cell_at(start, a, b) is Some,
                should_finish ==> found && best@.len() == 1,
            decreases 9 - y,
        {
            if cells[x][y].is_none() {
                let possible = find_value(cells, x, y);
                should_finish = possible.len() == 1;
                if !found || should_finish || possible.len() < best.len() {
                    found = true;
                    bx = x;
                    by = y;
                    best = possible;
                }
            }
            y += 1;
        }
        x += 1;
    }
    if !found {
        assert(complete(start));
        assert(is_solution(start, start));
        return true;
    }
    assert(!complete(start));
    if best.len() == 1 {
        let value = best[0];
        assert(best@.contains(value));
        cells[bx][by] = Some(Cell { value, num_iteration });
        proof {
            let assigned = *cells;
            assert(same_except(start, assigned, bx as int, by as int));
            lemma_fill_count(start, assigned, bx as int, by as int);
            lemma_place_candidate(start, assigned, bx as int, by as int, value);
            assert forall|sol: Cells| is_solution(sol, start) implies is_solution(sol, assigned) by {
                lemma_solution_value_is_candidate(sol, start, bx as int, by as int);
                let d = value_at(sol, bx as int, by as int)->Some_0;
                assert(best@.contains(d));
                let i = choose|i: int| 0 <= i < best@.len() && best@[i] == d;
            }
        }
        return solve_internal(cells, num_iteration);
    }
    let size = best.len();
    let mut index: usize = 0;
    while index < size
        invariant
            same_cells(*cells, start),
            digits_valid(start),
            consistent(start),
            generations_at_most(start, num_iteration),
            num_iteration + empty_count(start) <= u32::MAX,
            start == *old(cells),
            size == best@.len(),
            size != 1,
            index <= size,
            in_grid(bx as int, by as int),
            cell_at(start, bx as int, by as int) is None,
            lists_candidates(best@, start, bx as int, by as int),
            forall|i: int| 0 <= i < index ==> ruled_out(start, bx as int, by as int, #[trigger] best@[i]),
        decreases size - index,
    {
        let value = best[index];
        let is_last = index == size - 1;
        assert(best@.contains(value));
        proof {
            lemma_empty_cell_counts(start, bx as int, by as int, 9);
        }
        let next_iteration = if is_last {
            num_iteration
        } else {
            num_iteration + 1
        };
        cells[bx][by] = Some(Cell { value, num_iteration: next_iteration });
        let ghost assigned = *cells;
        proof {
            assert(same_except(start, assigned, bx as int, by as int));
            lemma_fill_count(start, assigned, bx as int, by as int);
            lemma_place_candidate(start, assigned, bx as int, by as int, value);
        }
        let is_finished = solve_internal(cells, next_iteration);
        if is_finished {
            return true;
        }
        if is_last {
            proof {
                assert forall|sol: Cells| is_solution(sol, start) implies false by {
                    lemma_solution_value_is_candidate(sol, start, bx as int, by as int);
                    let d = value_at(sol, bx as int, by as int)->Some_0;
                    assert(best@.contains(d));
                    let i = choose|i: int| 0 <= i < best@.len() && best@[i] == d;
                    if i < index {
                        assert(ruled_out(start, bx as int, by as int, best@[i]));
                    }
                }
            }
            return false;
        }
        roll_back(cells, next_iteration);
        index += 1;
    }
    proof {
        assert forall|sol: Cells| is_solution(sol, start) implies false by {
            lemma_solution_value_is_candidate(sol, start, bx as int, by as int);
            let d = value_at(sol, bx as int, by as int)->Some_0;
            assert(best@.contains(d));
            let i = choose|i: int| 0 <= i < best@.len() && best@[i] == d;
            assert(ruled_out(start, bx as int, by as int, best@[i]));
        }
    }
    false
}

/// Fills every empty cell of `sudoku` so that no digit repeats in a row, a
/// column or a sub-box, and tells whether that was possible.
///
/// The search tags its writes with generations above every generation
/// present, so that the cells there before survive the final rollback.
pub fn solve(sudoku: &mut Sudoku) -> (r: bool)
    requires
        ready(old(sudoku).cells),
    ensures
        r == solvable(old(sudoku).cells),
        r ==> is_solution(final(sudoku).cells, old(sudoku).cells),
        keeps_cells(final(sudoku).cells, old(sudoku).cells),
        !r ==> *final(sudoku) == *old(sudoku),
        complete(old(sudoku).cells) ==> r && *final(sudoku) == *old(sudoku),
{
    let ghost start = sudoku.cells;
    let first = top_generation(&sudoku.cells) + 1;
    proof {
        lemma_count_bound(start, 9);
        if complete(start) {
            assert(is_solution(start, start));
        }
    }
    let r = solve_internal(&mut sudoku.cells, first);
    if !r {
        roll_back(&mut sudoku.cells, first);
        proof {
            assert forall|x: int, y: int| in_grid(x, y) implies cell_at(sudoku.cells, x, y)
                == cell_at(start, x, y) by {
                if cell_at(start, x, y) is Some {
                    assert(cell_at(start, x, y)->Some_0.num_iteration < first);
                }
            }
            lemma_same_cells_equal(sudoku.cells, start);
        }
    }
    r
}

} // verus!
