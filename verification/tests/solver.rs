use sudoku_solver::{Grid, SolveError};

const FIRST: &str = "600008940900006100070040000200610000000000200089002000000060005000000030800001600";
const FIRST_SOLVED: &str = "625178943948326157371945862257619384463587291189432576792863415516294738834751629";
const SECOND: &str = "100007090030020008009600500005300900010080002600004000300000010040000007007000300";
const SECOND_SOLVED: &str = "162857493534129678789643521475312986913586742628794135356478219241935867897261354";
const BROKEN: &str = "234500200000023040000030400000600000300000000000230040040000654300000010203000004";
const EASY: &str = "530070000600195000098000060800060003400803001700020006060000280000419005000080079";
const EASY_SOLVED: &str = "534678912672195348198342567859761423426853791713924856961537284287419635345286179";
const BLANK: &str = "000000000000000000000000000000000000000000000000000000000000000000000000000000000";

#[test]
fn test_solver() {
    let mut grid = Grid::from_str("600008940900006100070040000200610000000000200089002000000060005000000030800001600".to_string());
    assert!(grid.solve().is_ok());
    assert_eq!(grid.to_str(), "625178943948326157371945862257619384463587291189432576792863415516294738834751629");

    let mut grid2 = Grid::from_str("100007090030020008009600500005300900010080002600004000300000010040000007007000300".to_string());
    assert!(grid2.solve().is_ok());
    assert_eq!(grid2.to_str(), "162857493534129678789643521475312986913586742628794135356478219241935867897261354");

    let mut grid3 = Grid::from_str("234500200000023040000030400000600000300000000000230040040000654300000010203000004".to_string());
    assert!(grid3.solve().is_err());
}

#[test]
fn first_puzzle_is_solved_exactly() {
    let mut grid = Grid::from_str(FIRST.to_string());
    assert_eq!(grid.solve(), Ok(()));
    assert_eq!(grid.to_str(), FIRST_SOLVED);
}

#[test]
fn second_puzzle_is_solved_exactly() {
    let mut grid = Grid::from_str(SECOND.to_string());
    assert_eq!(grid.solve(), Ok(()));
    assert_eq!(grid.to_str(), SECOND_SOLVED);
}

#[test]
fn broken_puzzle_is_a_contradiction() {
    let mut grid = Grid::from_str(BROKEN.to_string());
    assert_eq!(grid.solve(), Err(SolveError::Contradiction));
    assert!(!grid.verify_solution());
}

#[test]
fn two_equal_clues_in_a_row_are_a_contradiction() {
    let mut text = String::from("11");
    text.push_str(&BLANK[2..]);
    let mut grid = Grid::from_str(text);
    assert_eq!(grid.solve(), Err(SolveError::Contradiction));
}

#[test]
fn blank_grid_offers_nothing_to_guess_on() {
    let mut grid = Grid::from_str(BLANK.to_string());
    assert_eq!(grid.solve(), Err(SolveError::InternalInvariantViolation));
    assert_eq!(grid.to_str(), BLANK);
    assert!(!grid.verify_solution());
}

#[test]
fn default_grid_offers_nothing_to_guess_on() {
    let mut grid = Grid::default();
    assert_eq!(grid.solve(), Err(SolveError::InternalInvariantViolation));
}

#[test]
fn every_solved_grid_verifies() {
    for text in [FIRST, SECOND, EASY] {
        let mut grid = Grid::from_str(text.to_string());
        assert!(!grid.verify_solution());
        assert_eq!(grid.solve(), Ok(()));
        assert!(grid.verify_solution());
        assert!(grid.is_exhausted());
        assert_eq!(grid.pending_removals(), 0);
        assert_eq!(grid.pending_assignments(), 0);
    }
}

#[test]
fn solved_grid_keeps_the_clues() {
    for text in [FIRST, SECOND, EASY] {
        let mut grid = Grid::from_str(text.to_string());
        assert_eq!(grid.solve(), Ok(()));
        let solved = grid.to_str();
        for (clue, digit) in text.chars().zip(solved.chars()) {
            assert!(clue == '0' || clue == digit);
        }
    }
}

#[test]
fn propagation_alone_solves_an_easy_puzzle() {
    let mut grid = Grid::from_str(EASY.to_string());
    assert_eq!(grid.propagate(), Ok(()));
    assert!(grid.is_exhausted());
    assert_eq!(grid.to_str(), EASY_SOLVED);
    assert!(grid.verify_solution());
}

#[test]
fn propagation_stalls_on_a_hard_puzzle() {
    let mut grid = Grid::from_str(SECOND.to_string());
    assert_eq!(grid.propagate(), Ok(()));
    assert!(!grid.is_exhausted());
    assert_eq!(grid.pending_removals(), 0);
    assert_eq!(grid.pending_assignments(), 0);
    assert_eq!(
        grid.to_str(),
        "100007090030020008009600500005300900010080002600004000300000010041000007007000300"
    );
    assert_eq!(grid.find_maybe_pair(), Some((3, [(4, 0), (8, 0)])));
}

#[test]
fn counters_count_open_places_at_rest() {
    for text in [FIRST, SECOND, EASY, BLANK] {
        let mut grid = Grid::from_str(text.to_string());
        assert_eq!(grid.propagate(), Ok(()));
        for g in 0..27 {
            for digit in 1..=9 {
                let mut open = 0;
                let mut held = false;
                for i in 0..9 {
                    let (x, y) = sudoku_solver::grid::cell_of_group(g, i);
                    if grid.cell(x, y) == 0 && grid.candidates(x, y) & (1 << (digit - 1)) != 0 {
                        open += 1;
                    }
                    if grid.cell(x, y) as usize == digit {
                        held = true;
                    }
                }
                assert_eq!(grid.counter(g, digit), open);
                assert!(!held || open == 0);
            }
        }
    }
}

#[test]
fn failed_branch_leaves_the_grid_alone() {
    let mut grid = Grid::from_str(SECOND.to_string());
    assert_eq!(grid.propagate(), Ok(()));
    let before = grid.clone();
    let (digit, pair) = grid.find_maybe_pair().unwrap();
    assert_eq!(grid.try_branch(digit, pair), Ok(false));
    for x in 0..9 {
        for y in 0..9 {
            assert_eq!(grid.cell(x, y), before.cell(x, y));
            assert_eq!(grid.candidates(x, y), before.candidates(x, y));
        }
    }
    for g in 0..27 {
        for d in 1..=9 {
            assert_eq!(grid.counter(g, d), before.counter(g, d));
        }
    }
    assert_eq!(grid.pending_removals(), 0);
    assert_eq!(grid.pending_assignments(), 1);
    assert_eq!(grid.pop_assignment(), Some((3, (8, 0))));
    assert_eq!(grid.pop_assignment(), None);
}

#[test]
fn failed_branch_puts_the_digit_at_the_other_place() {
    let mut grid = Grid::from_str(SECOND.to_string());
    assert_eq!(grid.propagate(), Ok(()));
    let (digit, pair) = grid.find_maybe_pair().unwrap();
    assert_eq!(grid.try_branch(digit, pair), Ok(false));
    assert_eq!(grid.propagate(), Ok(()));
    assert_eq!(grid.cell(8, 0), 3);
    assert_eq!(grid.cell(4, 0), 0);
    assert_eq!(grid.candidates(4, 0) & (1 << 2), 0);
}

#[test]
fn good_branch_solves_the_grid() {
    let mut grid = Grid::from_str(FIRST.to_string());
    assert_eq!(grid.propagate(), Ok(()));
    assert_eq!(grid.find_maybe_pair(), Some((4, [(1, 1), (2, 1)])));
    assert_eq!(grid.try_branch(4, [(1, 1), (2, 1)]), Ok(true));
    assert_eq!(grid.to_str(), FIRST_SOLVED);
    assert!(grid.verify_solution());
}

#[test]
fn clone_is_independent() {
    let mut grid = Grid::from_str(FIRST.to_string());
    let copy = grid.clone();
    assert_eq!(grid.solve(), Ok(()));
    assert_eq!(copy.to_str(), BLANK);
    assert_eq!(copy.pending_assignments(), 22);
    let mut copy = copy;
    assert_eq!(copy.solve(), Ok(()));
    assert_eq!(copy.to_str(), FIRST_SOLVED);
}
