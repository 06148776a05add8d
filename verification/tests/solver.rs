use sudoku::analysis::Analysis;
use sudoku::grid::Grid;
use sudoku::vec2::Vec2;

/// A complete valid assignment: val(x, y) = (3*(y%3) + y/3 + x) % 9 + 1.
fn solved_value(x: u8, y: u8) -> u8 {
    (3 * (y % 3) + y / 3 + x) % 9 + 1
}

fn solved_grid() -> Grid {
    let mut grid = Grid::new();
    for x in 0..9 {
        for y in 0..9 {
            grid.insert_number(&Vec2::new(x, y), solved_value(x, y));
        }
    }
    grid
}

/// A grid with every candidate set freshly recomputed.
fn with_candidates(mut grid: Grid) -> Grid {
    for x in 0..9 {
        for y in 0..9 {
            let q = Vec2::new(x, y);
            if !grid.has_number(&q) {
                grid.calculate_candidates(&q);
            }
        }
    }
    grid
}

#[test]
fn naked_single_in_row() {
    // row 4 holds [5, 3, 4, 6, 7, 8, _, 1, 2]: only 9 fits the gap
    let mut grid = Grid::new();
    let row = [5, 3, 4, 6, 7, 8, 0, 1, 2];
    for x in 0..9 {
        if row[x as usize] != 0 {
            grid.insert_number(&Vec2::new(x, 4), row[x as usize]);
        }
    }
    let mut analysis = Analysis::new(grid, false);
    analysis.calculate_all_candidates();
    assert_eq!(analysis.grid.get_candidates(&Vec2::new(6, 4)), vec![9]);
    let lonely = analysis.lonely_cells();
    assert!(lonely.contains(&((6, 4), 9)));
    let n = analysis.round();
    assert!(n >= 1);
    assert_eq!(analysis.grid.get_number(&Vec2::new(6, 4)), 9);
}

#[test]
fn hidden_single_in_box() {
    // box 0 has three empty cells in its top row; 7 fits only (0, 0)
    let mut grid = Grid::new();
    grid.insert_number(&Vec2::new(0, 1), 1);
    grid.insert_number(&Vec2::new(1, 1), 2);
    grid.insert_number(&Vec2::new(2, 1), 3);
    grid.insert_number(&Vec2::new(0, 2), 4);
    grid.insert_number(&Vec2::new(1, 2), 5);
    grid.insert_number(&Vec2::new(2, 2), 6);
    grid.insert_number(&Vec2::new(1, 4), 7);
    grid.insert_number(&Vec2::new(2, 7), 7);
    let analysis = Analysis::new(with_candidates(grid), false);
    assert!(analysis.grid.get_candidates(&Vec2::new(0, 0)).contains(&7));
    assert!(!analysis.grid.get_candidates(&Vec2::new(1, 0)).contains(&7));
    assert!(!analysis.grid.get_candidates(&Vec2::new(2, 0)).contains(&7));
    let singles = analysis.single_in_squares();
    assert!(singles.contains(&((0, 0), 7)));
    // and it is the only hidden 7 reported inside box 0
    for &((x, y), v) in singles.iter() {
        if v == 7 && x < 3 && y < 3 {
            assert_eq!((x, y), (0, 0));
        }
    }
}

#[test]
fn pointing_removes_along_row() {
    // in box 0, candidate 4 is left only in the top row's 3 cells
    let mut grid = with_candidates(Grid::new());
    for x in 0..3 {
        for y in 1..3 {
            grid.remove_candidate(&Vec2::new(x, y), 4);
        }
    }
    let mut analysis = Analysis::new(grid, false);
    assert!(analysis.single_line_in_squares());
    // 4 left the rest of row 0 outside box 0
    for x in 3..9 {
        assert!(!analysis.grid.get_candidates(&Vec2::new(x, 0)).contains(&4));
    }
    // and stayed in the box's own top row
    for x in 0..3 {
        assert!(analysis.grid.get_candidates(&Vec2::new(x, 0)).contains(&4));
    }
    // cells outside row 0 keep 4
    assert!(analysis.grid.get_candidates(&Vec2::new(3, 1)).contains(&4));
    assert!(analysis.grid.get_candidates(&Vec2::new(8, 8)).contains(&4));
}

#[test]
fn claiming_removes_inside_box() {
    // in row 0, candidate 8 is left only inside box 0's 3 cells
    let mut grid = with_candidates(Grid::new());
    for x in 3..9 {
        grid.remove_candidate(&Vec2::new(x, 0), 8);
    }
    let mut analysis = Analysis::new(grid, false);
    assert!(analysis.square_claim_rows());
    // 8 left the other 6 cells of box 0
    for x in 0..3 {
        for y in 1..3 {
            assert!(!analysis.grid.get_candidates(&Vec2::new(x, y)).contains(&8));
        }
    }
    // and stayed in box 0's row-0 cells
    for x in 0..3 {
        assert!(analysis.grid.get_candidates(&Vec2::new(x, 0)).contains(&8));
    }
    // untouched elsewhere
    assert!(analysis.grid.get_candidates(&Vec2::new(3, 1)).contains(&8));
    assert!(analysis.grid.get_candidates(&Vec2::new(0, 5)).contains(&8));
}

#[test]
fn claiming_removes_along_columns() {
    // in column 0, candidate 6 is left only inside box 0's 3 cells
    let mut grid = with_candidates(Grid::new());
    for y in 3..9 {
        grid.remove_candidate(&Vec2::new(0, y), 6);
    }
    let mut analysis = Analysis::new(grid, false);
    assert!(analysis.square_claim_columns());
    for x in 1..3 {
        for y in 0..3 {
            assert!(!analysis.grid.get_candidates(&Vec2::new(x, y)).contains(&6));
        }
    }
    for y in 0..3 {
        assert!(analysis.grid.get_candidates(&Vec2::new(0, y)).contains(&6));
    }
    assert!(analysis.grid.get_candidates(&Vec2::new(5, 0)).contains(&6));
}

#[test]
fn contradiction_is_detected() {
    // two cells of one row hold the same value
    let mut grid = Grid::new();
    grid.insert_number(&Vec2::new(0, 3), 5);
    grid.insert_number(&Vec2::new(7, 3), 5);
    let mut analysis = Analysis::new(with_candidates(grid), false);
    assert!(!analysis.verify());
    let reported = &analysis.grid.invalid_cells;
    assert!(reported.contains(&Vec2::new(7, 3)) || reported.contains(&Vec2::new(0, 3)));
}

#[test]
fn solved_grid_round_is_zero() {
    let mut analysis = Analysis::new(solved_grid(), false);
    assert_eq!(analysis.round(), 0);
    assert!(analysis.verify());
}

#[test]
fn solved_grid_round_is_zero_with_search() {
    let mut analysis = Analysis::new(solved_grid(), true);
    assert_eq!(analysis.round(), 0);
    assert!(analysis.verify());
}

#[test]
fn rounds_solve_a_puzzle() {
    // drop one full row and one full column of clues from a solved grid
    let mut grid = Grid::new();
    for x in 0..9 {
        for y in 0..9 {
            if x != 4 && y != 2 {
                grid.insert_number(&Vec2::new(x, y), solved_value(x, y));
            }
        }
    }
    let mut analysis = Analysis::new(grid, false);
    analysis.calculate_all_candidates();
    while analysis.round() != 0 {}
    for x in 0..9 {
        for y in 0..9 {
            assert_eq!(analysis.grid.get_number(&Vec2::new(x, y)), solved_value(x, y));
        }
    }
    assert!(analysis.verify());
}

#[test]
fn cheat_leaves_the_grid_alone() {
    // a solved grid with one row left open: every branch closes quickly
    let mut grid = Grid::new();
    for x in 0..9 {
        for y in 0..9 {
            if y != 2 {
                grid.insert_number(&Vec2::new(x, y), solved_value(x, y));
            }
        }
    }
    let mut analysis = Analysis::new(with_candidates(grid), true);
    let before: Vec<Vec<u8>> = (0..9)
        .map(|x| (0..9).map(|y| analysis.grid.get_number(&Vec2::new(x, y))).collect())
        .collect();
    assert!(analysis.cheat());
    for x in 0..9u8 {
        for y in 0..9u8 {
            assert_eq!(
                analysis.grid.get_number(&Vec2::new(x, y)),
                before[x as usize][y as usize]
            );
        }
    }
}

#[test]
fn calculate_all_candidates_skips_assigned_cells() {
    let mut grid = Grid::new();
    grid.insert_number(&Vec2::new(0, 0), 1);
    let mut analysis = Analysis::new(grid, false);
    analysis.calculate_all_candidates();
    assert_eq!(analysis.grid.get_candidates(&Vec2::new(0, 0)).len(), 0);
    let c = analysis.grid.get_candidates(&Vec2::new(1, 0));
    assert_eq!(c, vec![2, 3, 4, 5, 6, 7, 8, 9]);
    let far = analysis.grid.get_candidates(&Vec2::new(8, 8));
    assert_eq!(far, vec![1, 2, 3, 4, 5, 6, 7, 8, 9]);
}

#[test]
fn round_applies_eliminations_before_reporting() {
    // a grid with only an elimination available reports one unit of progress
    let mut grid = with_candidates(Grid::new());
    for x in 3..9 {
        grid.remove_candidate(&Vec2::new(x, 0), 8);
    }
    let mut analysis = Analysis::new(grid, false);
    let n = analysis.round();
    assert!(n >= 1);
    assert!(!analysis.grid.get_candidates(&Vec2::new(0, 1)).contains(&8));
}
