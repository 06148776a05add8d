use sudoku::grid::Grid;
use sudoku::line::{Line, LineDirection};
use sudoku::mini_line::MiniLine;
use sudoku::square::Square;
use sudoku::vec2::Vec2;

/// A complete valid assignment: val(x, y) = (3*(y%3) + y/3 + x) % 9 + 1.
fn solved_value(x: u8, y: u8) -> u8 {
    (3 * (y % 3) + y / 3 + x) % 9 + 1
}

fn solved_grid() -> Grid {
    let mut grid = Grid::new();
    for x in 0..9 {
        for y in 0..9 {
            grid.insert_number(&Vec2::new(x, y), solved_value(x, y));
        }
    }
    grid
}

#[test]
fn new_grid_is_empty() {
    let grid = Grid::new();
    for x in 0..9 {
        for y in 0..9 {
            let q = Vec2::new(x, y);
            assert_eq!(grid.get_number(&q), 0);
            assert!(!grid.has_number(&q));
            assert_eq!(grid.get_candidates(&q).len(), 0);
        }
    }
    assert!(grid.verify_data_structure());
}

#[test]
fn insert_number_sets_value_and_box() {
    let mut grid = Grid::new();
    let q = Vec2::new(4, 7);
    grid.insert_number(&q, 3);
    assert_eq!(grid.get_number(&q), 3);
    assert!(grid.has_number(&q));
    assert!(grid.verify_data_structure());
    // the owning box now reports the value, through calculate_candidates:
    // 3 is no longer a candidate anywhere in that box
    grid.calculate_candidates(&Vec2::new(3, 8));
    assert!(!grid.get_candidates(&Vec2::new(3, 8)).contains(&3));
}

#[test]
fn insert_number_clears_peer_candidates() {
    let mut grid = Grid::new();
    // give every cell the full candidate range first
    for x in 0..9 {
        for y in 0..9 {
            grid.calculate_candidates(&Vec2::new(x, y));
        }
    }
    let q = Vec2::new(4, 4);
    grid.insert_number(&q, 5);
    // the assigned cell's own set is empty
    assert_eq!(grid.get_candidates(&q).len(), 0);
    // 5 is gone from the whole row, column and box
    for i in 0..9 {
        assert!(!grid.get_candidates(&Vec2::new(i, 4)).contains(&5));
        assert!(!grid.get_candidates(&Vec2::new(4, i)).contains(&5));
    }
    for x in 3..6 {
        for y in 3..6 {
            assert!(!grid.get_candidates(&Vec2::new(x, y)).contains(&5));
        }
    }
    // an unrelated cell keeps 5
    assert!(grid.get_candidates(&Vec2::new(0, 0)).contains(&5));
    // and keeps the other digits in the shared row
    assert!(grid.get_candidates(&Vec2::new(0, 4)).contains(&4));
}

#[test]
fn calculate_candidates_excludes_row_col_box() {
    let mut grid = Grid::new();
    grid.insert_number(&Vec2::new(0, 0), 1); // same row as (6, 0)
    grid.insert_number(&Vec2::new(6, 5), 2); // same column
    grid.insert_number(&Vec2::new(7, 1), 3); // same box
    grid.calculate_candidates(&Vec2::new(6, 0));
    let c = grid.get_candidates(&Vec2::new(6, 0));
    assert_eq!(c, vec![4, 5, 6, 7, 8, 9]);
}

#[test]
fn calculate_candidates_twice_gives_same_set() {
    let mut grid = Grid::new();
    grid.insert_number(&Vec2::new(0, 0), 1);
    grid.insert_number(&Vec2::new(4, 2), 7);
    let q = Vec2::new(2, 2);
    grid.calculate_candidates(&q);
    let first = grid.get_candidates(&q);
    grid.calculate_candidates(&q);
    let second = grid.get_candidates(&q);
    assert_eq!(first, second);
}

#[test]
fn set_and_remove_candidates() {
    let mut grid = Grid::new();
    let q = Vec2::new(1, 2);
    grid.set_candidates(&q, vec![9, 2, 5, 2]);
    // stored as a set, read back in increasing order
    assert_eq!(grid.get_candidates(&q), vec![2, 5, 9]);
    assert!(grid.remove_candidate(&q, 5));
    assert!(!grid.remove_candidate(&q, 5));
    assert!(!grid.remove_candidate(&q, 7));
    assert_eq!(grid.get_candidates(&q), vec![2, 9]);
}

#[test]
fn verify_accepts_clean_grid() {
    let mut grid = solved_grid();
    assert!(grid.verify());
    assert_eq!(grid.invalid_cells.len(), 0);
}

#[test]
fn verify_rejects_row_duplicate() {
    let mut grid = Grid::new();
    grid.insert_number(&Vec2::new(0, 0), 5);
    grid.insert_number(&Vec2::new(5, 0), 5);
    for x in 0..9 {
        for y in 0..9 {
            let q = Vec2::new(x, y);
            if !grid.has_number(&q) {
                grid.calculate_candidates(&q);
            }
        }
    }
    assert!(!grid.verify());
    // the later of the two occurrences is reported
    assert!(grid.invalid_cells.contains(&Vec2::new(5, 0)));
}

#[test]
fn verify_rejects_column_duplicate() {
    let mut grid = Grid::new();
    grid.insert_number(&Vec2::new(2, 1), 8);
    grid.insert_number(&Vec2::new(2, 7), 8);
    for x in 0..9 {
        for y in 0..9 {
            let q = Vec2::new(x, y);
            if !grid.has_number(&q) {
                grid.calculate_candidates(&q);
            }
        }
    }
    assert!(!grid.verify());
    assert!(grid.invalid_cells.contains(&Vec2::new(2, 7)));
}

#[test]
fn verify_rejects_dead_end() {
    let mut grid = Grid::new();
    // an empty cell whose candidate set is empty is a dead end
    assert!(!grid.verify());
    assert_eq!(grid.invalid_cells.len(), 0);
}

#[test]
fn clone_is_a_deep_copy() {
    let mut grid = Grid::new();
    grid.insert_number(&Vec2::new(0, 0), 9);
    let mut copy = grid.clone();
    copy.insert_number(&Vec2::new(8, 8), 1);
    assert_eq!(copy.get_number(&Vec2::new(0, 0)), 9);
    assert_eq!(copy.get_number(&Vec2::new(8, 8)), 1);
    assert_eq!(grid.get_number(&Vec2::new(8, 8)), 0);
}

#[test]
fn square_index_formulas() {
    assert_eq!(Square::square_coord_to_index(0, 0), 0);
    assert_eq!(Square::square_coord_to_index(2, 0), 2);
    assert_eq!(Square::square_coord_to_index(0, 1), 3);
    assert_eq!(Square::square_coord_to_index(2, 2), 8);
    assert_eq!(Square::point_to_index(&Vec2::new(4, 7)), 7);
    assert_eq!(Square::point_to_index(&Vec2::new(8, 0)), 2);
}

#[test]
fn square_records_values() {
    let mut sq = Square::new(1, 2);
    assert!(!sq.has_number(4));
    sq.record(4);
    assert!(sq.has_number(4));
    assert!(!sq.has_number(5));
    assert_eq!(sq.count_values(), 1);
    let coords = sq.coords();
    assert_eq!(coords.len(), 9);
    assert_eq!(coords[0], Vec2::new(3, 6));
    assert_eq!(coords[8], Vec2::new(5, 8));
}

#[test]
fn line_direction_coords_and_index() {
    let row = LineDirection::Row;
    let cs = row.coords(&Vec2::new(0, 4), 9);
    assert_eq!(cs.len(), 9);
    assert_eq!(cs[0], Vec2::new(0, 4));
    assert_eq!(cs[8], Vec2::new(8, 4));
    assert_eq!(row.mini_line_index(&Vec2::new(7, 4)), (2, 1));
    let col = LineDirection::Column;
    let cs = col.coords(&Vec2::new(3, 0), 3);
    assert_eq!(cs, vec![Vec2::new(3, 0), Vec2::new(3, 1), Vec2::new(3, 2)]);
    assert_eq!(col.mini_line_index(&Vec2::new(3, 5)), (1, 2));
}

#[test]
fn line_values_and_rank() {
    let mut line = Line::new(Vec2::new(0, 6), LineDirection::Row);
    assert_eq!(line.rank(), 6);
    assert!(!line.has_number(4));
    line.set_number(&Vec2::new(2, 6), 4);
    assert!(line.has_number(4));
    assert_eq!(line.get_number(&Vec2::new(2, 6)), 4);
    assert_eq!(line.get_number(&Vec2::new(3, 6)), 0);
    let coords = line.coords();
    assert_eq!(coords.len(), 9);
    assert_eq!(coords[5], Vec2::new(5, 6));
}

#[test]
fn line_verify_finds_duplicate() {
    let mut line = Line::new(Vec2::new(3, 0), LineDirection::Column);
    line.set_number(&Vec2::new(3, 1), 6);
    assert_eq!(line.verify(), None);
    line.set_number(&Vec2::new(3, 8), 6);
    assert_eq!(line.verify(), Some(Vec2::new(3, 8)));
}

#[test]
fn line_candidates_round_trip() {
    let mut line = Line::new(Vec2::new(0, 0), LineDirection::Row);
    line.set_candidates(&Vec2::new(4, 0), vec![3, 1, 8]);
    assert_eq!(line.get_candidates(&Vec2::new(4, 0)), vec![1, 3, 8]);
    assert!(line.remove_candidate(&Vec2::new(4, 0), 3));
    assert!(!line.remove_candidate(&Vec2::new(4, 0), 3));
    assert_eq!(line.get_candidates(&Vec2::new(4, 0)), vec![1, 8]);
    line.clear_candidates(&Vec2::new(4, 0));
    assert_eq!(line.get_candidates(&Vec2::new(4, 0)).len(), 0);
}

#[test]
fn mini_line_candidates() {
    let mut ml = MiniLine::new(Vec2::new(3, 2), LineDirection::Row);
    assert_eq!(ml.square_rank(), 1);
    assert!(!ml.has_candidate_anywhere(7));
    ml.set_candidates(1, vec![7, 2]);
    assert!(ml.has_candidate_anywhere(7));
    assert_eq!(ml.get_candidates(1), vec![2, 7]);
    assert!(ml.remove_candidate(1, 7));
    assert!(!ml.has_candidate_anywhere(7));
    ml.clear_candidates(1);
    assert_eq!(ml.get_candidates(1).len(), 0);
}

#[test]
fn has_candidate_query() {
    let mut grid = Grid::new();
    grid.set_candidates(&Vec2::new(0, 0), vec![4]);
    assert!(grid.has_candidate(&Vec2::new(0, 0), 4));
    assert!(!grid.has_candidate(&Vec2::new(0, 0), 5));
}
