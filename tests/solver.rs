use sudoku_solver::{find_value, solve, Cell, Cells, Sudoku};

fn board(rows: [[u8; 9]; 9]) -> Sudoku {
    let mut cells: Cells = [[None; 9]; 9];
    for x in 0..9 {
        for y in 0..9 {
            if rows[x][y] != 0 {
                cells[x][y] = Some(Cell {
                    value: rows[x][y],
                    num_iteration: 0,
                });
            }
        }
    }
    Sudoku { cells }
}

fn same_cells_and_generations(a: &Sudoku, b: &Sudoku) -> bool {
    for x in 0..9 {
        for y in 0..9 {
            let same = match (a.cells[x][y], b.cells[x][y]) {
                (None, None) => true,
                (Some(c), Some(d)) => c.value == d.value && c.num_iteration == d.num_iteration,
                _ => false,
            };
            if !same {
                return false;
            }
        }
    }
    true
}

fn assert_solved(sudoku: &Sudoku) {
    assert!(sudoku.is_complete());
    assert!(sudoku.is_consistent());
    for d in 1..=9u8 {
        for i in 0..9 {
            assert_eq!((0..9).filter(|&j| sudoku.value(i, j) == Some(d)).count(), 1);
            assert_eq!((0..9).filter(|&j| sudoku.value(j, i) == Some(d)).count(), 1);
            let (bx, by) = (3 * (i / 3), 3 * (i % 3));
            assert_eq!(
                (0..9).filter(|&k| sudoku.value(bx + k / 3, by + k % 3) == Some(d)).count(),
                1
            );
        }
    }
}

#[test]
fn test_solve() {
    let mut sudoku = board([
        [0, 0, 3, 0, 0, 0, 6, 0, 0],
        [0, 4, 0, 7, 0, 8, 0, 3, 0],
        [1, 0, 0, 0, 0, 0, 0, 0, 9],
        [0, 7, 0, 4, 0, 5, 0, 1, 0],
        [0, 0, 0, 0, 8, 0, 0, 0, 0],
        [0, 3, 0, 9, 0, 1, 0, 7, 0],
        [6, 0, 0, 0, 0, 0, 0, 0, 2],
        [0, 8, 0, 3, 0, 6, 0, 5, 0],
        [0, 0, 9, 0, 0, 0, 4, 0, 0],
    ]);
    let expected_sudoku = board([
        [7, 2, 3, 1, 4, 9, 6, 8, 5],
        [9, 4, 5, 7, 6, 8, 2, 3, 1],
        [1, 6, 8, 2, 5, 3, 7, 4, 9],
        [8, 7, 2, 4, 3, 5, 9, 1, 6],
        [4, 9, 1, 6, 8, 7, 5, 2, 3],
        [5, 3, 6, 9, 2, 1, 8, 7, 4],
        [6, 5, 7, 8, 1, 4, 3, 9, 2],
        [2, 8, 4, 3, 9, 6, 1, 5, 7],
        [3, 1, 9, 5, 7, 2, 4, 6, 8],
    ]);

    solve(&mut sudoku);
    assert_eq!(expected_sudoku, sudoku);
}

#[test]
fn test_may_take_long_time_to_solve() {
    let mut sudoku = board([
        [0, 6, 0, 0, 0, 3, 0, 0, 0],
        [0, 0, 8, 0, 5, 0, 0, 0, 0],
        [0, 0, 0, 0, 0, 0, 4, 0, 2],
        [5, 0, 0, 0, 0, 0, 0, 0, 0],
        [0, 0, 0, 0, 4, 0, 3, 0, 0],
        [0, 3, 4, 0, 0, 0, 0, 1, 0],
        [0, 0, 0, 0, 0, 5, 0, 0, 3],
        [0, 0, 9, 7, 6, 0, 0, 0, 0],
        [1, 0, 0, 0, 0, 0, 7, 0, 4],
    ]);
    let expected_sudoku = board([
        [4, 6, 1, 2, 7, 3, 5, 8, 9],
        [7, 2, 8, 9, 5, 4, 1, 3, 6],
        [9, 5, 3, 1, 8, 6, 4, 7, 2],
        [5, 1, 2, 6, 3, 7, 9, 4, 8],
        [6, 9, 7, 8, 4, 1, 3, 2, 5],
        [8, 3, 4, 5, 2, 9, 6, 1, 7],
        [2, 7, 6, 4, 1, 5, 8, 9, 3],
        [3, 4, 9, 7, 6, 8, 2, 5, 1],
        [1, 8, 5, 3, 9, 2, 7, 6, 4],
    ]);

    solve(&mut sudoku);
    assert_eq!(expected_sudoku, sudoku);
}

#[test]
fn solve_reports_success_and_keeps_givens() {
    let before = board([
        [0, 0, 3, 0, 0, 0, 6, 0, 0],
        [0, 4, 0, 7, 0, 8, 0, 3, 0],
        [1, 0, 0, 0, 0, 0, 0, 0, 9],
        [0, 7, 0, 4, 0, 5, 0, 1, 0],
        [0, 0, 0, 0, 8, 0, 0, 0, 0],
        [0, 3, 0, 9, 0, 1, 0, 7, 0],
        [6, 0, 0, 0, 0, 0, 0, 0, 2],
        [0, 8, 0, 3, 0, 6, 0, 5, 0],
        [0, 0, 9, 0, 0, 0, 4, 0, 0],
    ]);
    let mut sudoku = before;
    assert!(solve(&mut sudoku));
    assert_solved(&sudoku);
    for x in 0..9 {
        for y in 0..9 {
            if let Some(given) = before.cells[x][y] {
                let now = sudoku.cells[x][y].unwrap();
                assert_eq!(now.value, given.value);
                assert_eq!(now.num_iteration, 0);
            } else {
                assert!(sudoku.cells[x][y].unwrap().num_iteration >= 1);
            }
        }
    }
}

#[test]
fn solve_seventeen_clue_puzzle_to_its_unique_solution() {
    let mut sudoku = board([
        [0, 0, 0, 0, 0, 0, 0, 1, 0],
        [4, 0, 0, 0, 0, 0, 0, 0, 0],
        [0, 2, 0, 0, 0, 0, 0, 0, 0],
        [0, 0, 0, 0, 5, 0, 4, 0, 7],
        [0, 0, 8, 0, 0, 0, 3, 0, 0],
        [0, 0, 1, 0, 9, 0, 0, 0, 0],
        [3, 0, 0, 4, 0, 0, 2, 0, 0],
        [0, 5, 0, 1, 0, 0, 0, 0, 0],
        [0, 0, 0, 8, 0, 6, 0, 0, 0],
    ]);
    let expected = board([
        [6, 9, 3, 7, 8, 4, 5, 1, 2],
        [4, 8, 7, 5, 1, 2, 9, 3, 6],
        [1, 2, 5, 9, 6, 3, 8, 7, 4],
        [9, 3, 2, 6, 5, 1, 4, 8, 7],
        [5, 6, 8, 2, 4, 7, 3, 9, 1],
        [7, 4, 1, 3, 9, 8, 6, 2, 5],
        [3, 1, 9, 4, 7, 5, 2, 6, 8],
        [8, 5, 6, 1, 2, 9, 7, 4, 3],
        [2, 7, 4, 8, 3, 6, 1, 5, 9],
    ]);
    assert!(solve(&mut sudoku));
    assert_eq!(expected, sudoku);
    assert_solved(&sudoku);
}

#[test]
fn solve_empty_board_completes_it() {
    let mut sudoku = Sudoku::empty();
    assert!(solve(&mut sudoku));
    assert_solved(&sudoku);
}

#[test]
fn solve_complete_board_changes_nothing() {
    let before = board([
        [7, 2, 3, 1, 4, 9, 6, 8, 5],
        [9, 4, 5, 7, 6, 8, 2, 3, 1],
        [1, 6, 8, 2, 5, 3, 7, 4, 9],
        [8, 7, 2, 4, 3, 5, 9, 1, 6],
        [4, 9, 1, 6, 8, 7, 5, 2, 3],
        [5, 3, 6, 9, 2, 1, 8, 7, 4],
        [6, 5, 7, 8, 1, 4, 3, 9, 2],
        [2, 8, 4, 3, 9, 6, 1, 5, 7],
        [3, 1, 9, 5, 7, 2, 4, 6, 8],
    ]);
    let mut sudoku = before;
    assert!(solve(&mut sudoku));
    assert!(same_cells_and_generations(&before, &sudoku));
}

#[test]
fn solve_complete_board_with_later_generations_changes_nothing() {
    let mut before = board([
        [4, 6, 1, 2, 7, 3, 5, 8, 9],
        [7, 2, 8, 9, 5, 4, 1, 3, 6],
        [9, 5, 3, 1, 8, 6, 4, 7, 2],
        [5, 1, 2, 6, 3, 7, 9, 4, 8],
        [6, 9, 7, 8, 4, 1, 3, 2, 5],
        [8, 3, 4, 5, 2, 9, 6, 1, 7],
        [2, 7, 6, 4, 1, 5, 8, 9, 3],
        [3, 4, 9, 7, 6, 8, 2, 5, 1],
        [1, 8, 5, 3, 9, 2, 7, 6, 4],
    ]);
    before.cells[4][4] = Some(Cell {
        value: 4,
        num_iteration: 7,
    });
    let mut sudoku = before;
    assert!(sudoku.is_ready());
    assert!(solve(&mut sudoku));
    assert!(same_cells_and_generations(&before, &sudoku));
}

#[test]
fn solve_over_constrained_board_fails_and_restores_it() {
    let before = board([
        [0, 2, 3, 4, 5, 6, 7, 8, 0],
        [0, 0, 0, 0, 0, 0, 0, 0, 0],
        [0, 0, 0, 0, 0, 0, 0, 0, 0],
        [9, 0, 0, 0, 0, 0, 0, 0, 0],
        [0, 0, 0, 0, 0, 0, 0, 0, 0],
        [0, 0, 0, 0, 0, 0, 0, 0, 9],
        [0, 0, 0, 0, 0, 0, 0, 0, 0],
        [0, 0, 0, 0, 0, 0, 0, 0, 0],
        [0, 0, 0, 0, 0, 0, 0, 0, 0],
    ]);
    assert!(before.is_ready());
    let mut sudoku = before;
    assert!(!solve(&mut sudoku));
    assert!(same_cells_and_generations(&before, &sudoku));
}

#[test]
fn solve_dead_end_deep_in_search_restores_board() {
    // (0, 8) has no candidate at all; the forced 1 written at (0, 0) before
    // that is found must be cleared again.
    let mut rows = [
        [0, 2, 3, 4, 5, 6, 7, 8, 0],
        [0, 0, 0, 0, 0, 0, 0, 0, 0],
        [0, 0, 0, 0, 0, 0, 0, 0, 0],
        [9, 0, 0, 0, 0, 0, 0, 0, 0],
        [0, 0, 0, 0, 0, 0, 0, 0, 0],
        [0, 0, 0, 0, 0, 0, 0, 0, 9],
        [0, 0, 0, 0, 0, 0, 0, 0, 0],
        [0, 0, 0, 0, 0, 0, 0, 0, 0],
        [0, 0, 0, 0, 0, 0, 0, 0, 0],
    ];
    rows[5][8] = 0;
    rows[6][8] = 1;
    rows[7][8] = 9;
    let before = board(rows);
    assert!(before.is_ready());
    let mut sudoku = before;
    assert!(!solve(&mut sudoku));
    assert!(same_cells_and_generations(&before, &sudoku));
}

#[test]
fn find_value_lists_candidates_in_ascending_order() {
    let sudoku = board([
        [0, 0, 3, 0, 0, 0, 6, 0, 0],
        [0, 4, 0, 7, 0, 8, 0, 3, 0],
        [1, 0, 0, 0, 0, 0, 0, 0, 9],
        [0, 7, 0, 4, 0, 5, 0, 1, 0],
        [0, 0, 0, 0, 8, 0, 0, 0, 0],
        [0, 3, 0, 9, 0, 1, 0, 7, 0],
        [6, 0, 0, 0, 0, 0, 0, 0, 2],
        [0, 8, 0, 3, 0, 6, 0, 5, 0],
        [0, 0, 9, 0, 0, 0, 4, 0, 0],
    ]);
    // Row 0 holds 3 and 6, column 0 holds 1 and 6, the box holds 1, 3 and 4.
    assert_eq!(find_value(&sudoku.cells, 0, 0), vec![2, 5, 7, 8, 9]);
    // Row 4 and column 4 hold 8, the centre box holds 1, 4, 5, 8 and 9.
    assert_eq!(find_value(&sudoku.cells, 4, 4), vec![2, 3, 6, 7]);
}

#[test]
fn find_value_on_empty_board_offers_every_digit() {
    let sudoku = Sudoku::empty();
    assert_eq!(find_value(&sudoku.cells, 8, 8), vec![1, 2, 3, 4, 5, 6, 7, 8, 9]);
}

#[test]
fn find_value_with_no_candidate_is_empty() {
    let sudoku = board([
        [0, 2, 3, 4, 5, 6, 7, 8, 0],
        [0, 0, 0, 0, 0, 0, 0, 0, 0],
        [0, 0, 0, 0, 0, 0, 0, 0, 0],
        [9, 0, 0, 0, 0, 0, 0, 0, 0],
        [0, 0, 0, 0, 0, 0, 0, 0, 0],
        [0, 0, 0, 0, 0, 0, 0, 0, 9],
        [0, 0, 0, 0, 0, 0, 0, 0, 0],
        [0, 0, 0, 0, 0, 0, 0, 0, 0],
        [0, 0, 0, 0, 0, 0, 0, 0, 0],
    ]);
    assert_eq!(find_value(&sudoku.cells, 0, 8), vec![1]);
    assert_eq!(find_value(&sudoku.cells, 0, 0), vec![1]);
    let mut rows = [
        [0, 2, 3, 4, 5, 6, 7, 8, 0],
        [0, 0, 0, 0, 0, 0, 0, 0, 0],
        [0, 0, 0, 0, 0, 0, 0, 0, 0],
        [9, 0, 0, 0, 0, 0, 0, 0, 0],
        [0, 0, 0, 0, 0, 0, 0, 0, 0],
        [0, 0, 0, 0, 0, 0, 0, 0, 9],
        [0, 0, 0, 0, 0, 0, 0, 0, 0],
        [0, 0, 0, 0, 0, 0, 0, 0, 0],
        [0, 0, 0, 0, 0, 0, 0, 0, 0],
    ];
    rows[0][0] = 1;
    let blocked = board(rows);
    assert_eq!(find_value(&blocked.cells, 0, 8), Vec::<u8>::new());
}

#[test]
fn solve_keeps_cells_of_later_generations_when_it_fails() {
    let mut rows = [[0u8; 9]; 9];
    rows[0] = [0, 2, 3, 4, 5, 6, 7, 8, 0];
    rows[3][0] = 9;
    rows[5][8] = 9;
    let mut before = board(rows);
    before.cells[0][1] = Some(Cell {
        value: 2,
        num_iteration: 1,
    });
    before.cells[3][0] = Some(Cell {
        value: 9,
        num_iteration: 6,
    });
    assert!(before.is_ready());
    let mut sudoku = before;
    assert!(!solve(&mut sudoku));
    assert!(same_cells_and_generations(&before, &sudoku));
}

#[test]
fn solve_tags_its_writes_above_the_generations_present() {
    let mut before = board([
        [0, 0, 3, 0, 0, 0, 6, 0, 0],
        [0, 4, 0, 7, 0, 8, 0, 3, 0],
        [1, 0, 0, 0, 0, 0, 0, 0, 9],
        [0, 7, 0, 4, 0, 5, 0, 1, 0],
        [0, 0, 0, 0, 8, 0, 0, 0, 0],
        [0, 3, 0, 9, 0, 1, 0, 7, 0],
        [6, 0, 0, 0, 0, 0, 0, 0, 2],
        [0, 8, 0, 3, 0, 6, 0, 5, 0],
        [0, 0, 9, 0, 0, 0, 4, 0, 0],
    ]);
    before.cells[4][4] = Some(Cell {
        value: 8,
        num_iteration: 5,
    });
    let mut sudoku = before;
    assert!(solve(&mut sudoku));
    assert_solved(&sudoku);
    assert_eq!(sudoku.cells[4][4].unwrap().num_iteration, 5);
    for x in 0..9 {
        for y in 0..9 {
            if before.cells[x][y].is_none() {
                assert!(sudoku.cells[x][y].unwrap().num_iteration >= 6);
            }
        }
    }
}
