use sudoku_solver::Grid;

const FIRST: &str = "600008940900006100070040000200610000000000200089002000000060005000000030800001600";
const FIRST_SOLVED: &str = "625178943948326157371945862257619384463587291189432576792863415516294738834751629";
const BLANK: &str = "000000000000000000000000000000000000000000000000000000000000000000000000000000000";

#[test]
fn clues_are_queued_not_placed() {
    let grid = Grid::from_str(FIRST.to_string());
    assert_eq!(grid.to_str(), BLANK);
    assert_eq!(grid.pending_assignments(), FIRST.chars().filter(|c| *c != '0').count());
    assert_eq!(grid.pending_removals(), 0);
}

#[test]
fn clues_name_column_then_row() {
    let mut text = String::from(BLANK);
    text.replace_range(0..1, "7");
    text.replace_range(12..13, "4");
    text.replace_range(80..81, "9");
    let mut grid = Grid::from_str(text);
    assert_eq!(grid.pop_assignment(), Some((9, (8, 8))));
    assert_eq!(grid.pop_assignment(), Some((4, (3, 1))));
    assert_eq!(grid.pop_assignment(), Some((7, (0, 0))));
    assert_eq!(grid.pop_assignment(), None);
}

#[test]
fn cells_are_written_row_by_row() {
    let mut grid = Grid::default();
    assert_eq!(grid.set_cell(4, (3, 1)), Ok(()));
    assert_eq!(grid.set_cell(9, (8, 8)), Ok(()));
    let text = grid.to_str();
    assert_eq!(text.len(), 81);
    assert_eq!(&text[12..13], "4");
    assert_eq!(&text[80..81], "9");
    assert_eq!(text.chars().filter(|c| *c == '0').count(), 79);
}

#[test]
fn white_space_around_the_digits_is_dropped() {
    let mut grid = Grid::from_str(format!("  {}\n", FIRST));
    assert_eq!(grid.solve(), Ok(()));
    assert_eq!(grid.to_str(), FIRST_SOLVED);
    assert!(Grid::try_from_str(format!("\t{} \r\n", FIRST)).is_some());
}

#[test]
fn good_text_is_parsed() {
    let mut grid = Grid::try_from_str(FIRST.to_string()).unwrap();
    assert_eq!(grid.solve(), Ok(()));
    assert_eq!(grid.to_str(), FIRST_SOLVED);
}

#[test]
fn short_and_long_text_is_refused() {
    assert!(Grid::try_from_str(String::new()).is_none());
    assert!(Grid::try_from_str(FIRST[1..].to_string()).is_none());
    assert!(Grid::try_from_str(format!("{}0", FIRST)).is_none());
    assert!(Grid::try_from_str(format!("{}{}", FIRST, FIRST)).is_none());
}

#[test]
fn text_with_other_characters_is_refused() {
    assert!(Grid::try_from_str(format!("{}a", &FIRST[1..])).is_none());
    assert!(Grid::try_from_str(format!("{}.", &FIRST[1..])).is_none());
    assert!(Grid::try_from_str(format!("-{}", &FIRST[1..])).is_none());
    assert!(Grid::try_from_str(format!("{} {}", &FIRST[..40], &FIRST[41..])).is_none());
    assert!(Grid::try_from_str(format!("{}\u{663}", &FIRST[1..])).is_none());
}

#[test]
fn solved_grid_reads_back() {
    let mut grid = Grid::from_str(FIRST_SOLVED.to_string());
    assert_eq!(grid.pending_assignments(), 81);
    assert_eq!(grid.solve(), Ok(()));
    assert_eq!(grid.to_str(), FIRST_SOLVED);
    assert!(grid.verify_solution());
}
