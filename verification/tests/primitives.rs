use sudoku_solver::candidates::{contains, is_single, lowest, without, MAYBE_ALL};
use sudoku_solver::grid::cell_of_group;
use sudoku_solver::{Grid, SolveError};

#[test]
fn default_grid_is_blank() {
    let grid = Grid::default();
    for x in 0..9 {
        for y in 0..9 {
            assert_eq!(grid.cell(x, y), 0);
            assert_eq!(grid.candidates(x, y), 0x1ff);
        }
    }
    for g in 0..27 {
        for d in 1..=9 {
            assert_eq!(grid.counter(g, d), 9);
        }
    }
    assert_eq!(grid.pending_removals(), 0);
    assert_eq!(grid.pending_assignments(), 0);
    assert!(!grid.is_exhausted());
    assert!(!grid.verify_solution());
}

#[test]
fn bitmap_marks() {
    assert_eq!(MAYBE_ALL, 0x1ff);
    for d in 1..=9 {
        assert!(contains(MAYBE_ALL, d));
        assert!(!contains(0, d));
    }
    assert!(contains(0b100, 3));
    assert!(!contains(0b100, 2));
    assert!(!contains(0b100, 4));
    assert_eq!(without(0x1ff, 1), 0x1fe);
    assert_eq!(without(0x1ff, 9), 0x0ff);
    assert_eq!(without(0b1010, 2), 0b1000);
    assert_eq!(without(0b1010, 3), 0b1010);
}

#[test]
fn single_marks() {
    assert!(!is_single(0));
    assert!(is_single(1));
    assert!(is_single(0b1000));
    assert!(is_single(0x100));
    assert!(!is_single(0b1010));
    assert!(!is_single(0x1ff));
    assert_eq!(lowest(1), 1);
    assert_eq!(lowest(0b1000), 4);
    assert_eq!(lowest(0b1010), 2);
    assert_eq!(lowest(0x100), 9);
    assert_eq!(lowest(0x1ff), 1);
}

#[test]
fn cells_of_groups() {
    assert_eq!(cell_of_group(0, 3), (3, 0));
    assert_eq!(cell_of_group(8, 0), (0, 8));
    assert_eq!(cell_of_group(9 + 4, 7), (4, 7));
    assert_eq!(cell_of_group(18, 0), (0, 0));
    assert_eq!(cell_of_group(18, 8), (2, 2));
    assert_eq!(cell_of_group(18 + 5, 0), (6, 3));
    assert_eq!(cell_of_group(18 + 5, 4), (7, 4));
    assert_eq!(cell_of_group(18 + 6, 1), (1, 6));
    assert_eq!(cell_of_group(26, 8), (8, 8));
}

#[test]
fn removal_strikes_one_candidate() {
    let mut grid = Grid::default();
    assert_eq!(grid.del_maybe(3, (4, 7)), Ok(()));
    assert_eq!(grid.candidates(4, 7), 0x1fb);
    assert_eq!(grid.counter(7, 3), 8);
    assert_eq!(grid.counter(9 + 4, 3), 8);
    assert_eq!(grid.counter(18 + 7, 3), 8);
    assert_eq!(grid.counter(7, 4), 9);
    assert_eq!(grid.counter(6, 3), 9);
    assert_eq!(grid.counter(9 + 3, 3), 9);
    assert_eq!(grid.counter(18 + 6, 3), 9);
    assert_eq!(grid.cell(4, 7), 0);
    assert_eq!(grid.pending_assignments(), 0);
    assert_eq!(grid.pending_removals(), 0);
}

#[test]
fn removal_twice_is_removal_once() {
    let mut grid = Grid::default();
    assert_eq!(grid.del_maybe(3, (0, 0)), Ok(()));
    let once = grid.clone();
    for _ in 0..2 {
        assert_eq!(grid.del_maybe(3, (0, 0)), Ok(()));
        for x in 0..9 {
            for y in 0..9 {
                assert_eq!(grid.cell(x, y), once.cell(x, y));
                assert_eq!(grid.candidates(x, y), once.candidates(x, y));
            }
        }
        for g in 0..27 {
            for d in 1..=9 {
                assert_eq!(grid.counter(g, d), once.counter(g, d));
            }
        }
        assert_eq!(grid.pending_removals(), 0);
        assert_eq!(grid.pending_assignments(), 0);
    }
    assert_eq!(grid.candidates(0, 0), 0x1fb);
    assert_eq!(grid.counter(0, 3), 8);
}

#[test]
fn last_candidate_but_one_queues_a_naked_single() {
    let mut grid = Grid::default();
    for d in [1, 2, 3, 4, 6, 7, 8] {
        assert_eq!(grid.del_maybe(d, (2, 5)), Ok(()));
        assert_eq!(grid.pending_assignments(), 0);
    }
    assert_eq!(grid.del_maybe(9, (2, 5)), Ok(()));
    assert_eq!(grid.candidates(2, 5), 0b10000);
    assert_eq!(grid.pending_assignments(), 1);
    assert_eq!(grid.pop_assignment(), Some((5, (2, 5))));
}

#[test]
fn assignment_fills_the_cell_and_queues_removals() {
    let mut grid = Grid::default();
    assert_eq!(grid.set_cell(5, (4, 7)), Ok(()));
    assert_eq!(grid.cell(4, 7), 5);
    assert_eq!(grid.candidates(4, 7), 0);
    assert_eq!(grid.pending_removals(), 27);
    assert_eq!(grid.pending_assignments(), 0);
    for d in 1..=9 {
        assert_eq!(grid.counter(7, d), 8);
        assert_eq!(grid.counter(9 + 4, d), 8);
        assert_eq!(grid.counter(18 + 7, d), 8);
        assert_eq!(grid.counter(6, d), 9);
    }
    assert_eq!(grid.pop_removal(), Some((5, (5, 8))));
    assert_eq!(grid.pop_removal(), Some((5, (4, 8))));
    assert_eq!(grid.pop_removal(), Some((5, (3, 8))));
    assert_eq!(grid.pop_removal(), Some((5, (5, 7))));
}

#[test]
fn assignment_of_the_held_digit_changes_nothing() {
    let mut grid = Grid::default();
    assert_eq!(grid.set_cell(5, (4, 7)), Ok(()));
    assert_eq!(grid.set_cell(5, (4, 7)), Ok(()));
    assert_eq!(grid.cell(4, 7), 5);
    assert_eq!(grid.pending_removals(), 27);
    assert_eq!(grid.counter(7, 5), 8);
}

#[test]
fn assignment_of_another_digit_is_a_contradiction() {
    let mut grid = Grid::default();
    assert_eq!(grid.set_cell(5, (4, 7)), Ok(()));
    assert_eq!(grid.set_cell(6, (4, 7)), Err(SolveError::Contradiction));
    assert_eq!(grid.cell(4, 7), 5);
    assert_eq!(grid.pending_removals(), 27);
}

#[test]
fn assignment_of_a_struck_digit_is_a_contradiction() {
    let mut grid = Grid::default();
    assert_eq!(grid.del_maybe(5, (0, 0)), Ok(()));
    assert_eq!(grid.set_cell(5, (0, 0)), Err(SolveError::Contradiction));
    assert_eq!(grid.cell(0, 0), 0);
    assert_eq!(grid.candidates(0, 0), 0x1ef);
    assert_eq!(grid.pending_removals(), 0);
}

#[test]
fn hidden_single_is_found_in_a_row() {
    let mut grid = Grid::default();
    for x in [0, 1, 2, 4, 5, 6, 7, 8] {
        assert_eq!(grid.del_maybe(5, (x, 0)), Ok(()));
    }
    assert_eq!(grid.counter(0, 5), 1);
    assert_eq!(grid.candidates(3, 0), 0x1ff);
    grid.find_hidden_singles();
    assert_eq!(grid.pending_assignments(), 1);
    assert_eq!(grid.pop_assignment(), Some((5, (3, 0))));
}

#[test]
fn no_hidden_single_in_a_blank_grid() {
    let mut grid = Grid::default();
    grid.find_hidden_singles();
    assert_eq!(grid.pending_assignments(), 0);
    assert_eq!(grid.find_maybe_pair(), None);
}

#[test]
fn pair_is_found_in_a_row() {
    let mut grid = Grid::default();
    for x in [0, 2, 3, 4, 5, 7, 8] {
        assert_eq!(grid.del_maybe(7, (x, 2)), Ok(()));
    }
    assert_eq!(grid.counter(2, 7), 2);
    assert_eq!(grid.find_maybe_pair(), Some((7, [(1, 2), (6, 2)])));
}

#[test]
fn pair_is_found_in_a_block_after_rows_and_columns() {
    let mut grid = Grid::default();
    for (x, y) in [(3, 3), (4, 3), (5, 3), (3, 4), (5, 4), (3, 5), (4, 5)] {
        assert_eq!(grid.del_maybe(2, (x, y)), Ok(()));
    }
    assert_eq!(grid.counter(18 + 4, 2), 2);
    assert_eq!(grid.find_maybe_pair(), Some((2, [(4, 4), (5, 5)])));
}

#[test]
fn queued_assignment_is_taken_last_in_first_out() {
    let mut grid = Grid::default();
    grid.push_assignment(1, (0, 0));
    grid.push_assignment(2, (1, 0));
    assert_eq!(grid.pending_assignments(), 2);
    assert_eq!(grid.pop_assignment(), Some((2, (1, 0))));
    assert_eq!(grid.pop_assignment(), Some((1, (0, 0))));
    assert_eq!(grid.pop_assignment(), None);
    assert_eq!(grid.pop_removal(), None);
}
