use takuzu::cell::Cell;
use takuzu::error::GridError;
use takuzu::grid::Grid;

fn lane(text: &str) -> Vec<Option<Cell>> {
    Grid::parse_line(text).unwrap()
}

#[test]
fn find_count_counts_each_value() {
    let counts = Grid::find_count(&lane("0 1 - 0 0 - 1 -"));
    assert_eq!((counts.zeros, counts.ones, counts.size), (3, 2, 8));
    assert_eq!(counts.count(Cell::Zero), 3);
    assert_eq!(counts.count(Cell::One), 2);
    let counts = Grid::find_count(&lane(""));
    assert_eq!((counts.zeros, counts.ones, counts.size), (0, 0, 0));
}

#[test]
fn check_lane_accepts_what_may_still_be_completed() {
    assert_eq!(Grid::check_lane(&lane("- - - -")), Ok(()));
    assert_eq!(Grid::check_lane(&lane("0 0 1 1")), Ok(()));
    assert_eq!(Grid::check_lane(&lane("0 0 - 0 1 1")), Ok(()));
    assert_eq!(Grid::check_lane(&lane("- - -")), Ok(()));
    assert_eq!(Grid::check_lane(&lane("")), Ok(()));
}

#[test]
fn check_lane_rejects_three_in_a_row() {
    assert_eq!(Grid::check_lane(&lane("0 0 0 - - - - -")), Err(GridError::InvalidGrid));
    assert_eq!(Grid::check_lane(&lane("- - - - - 1 1 1")), Err(GridError::InvalidGrid));
    assert_eq!(Grid::check_lane(&lane("- 0 1 1 1 0 - -")), Err(GridError::InvalidGrid));
}

#[test]
fn check_lane_rejects_more_than_half() {
    assert_eq!(Grid::check_lane(&lane("0 0 1 0")), Err(GridError::InvalidGrid));
    assert_eq!(Grid::check_lane(&lane("1 - 1 1 - 1 - -")), Ok(()));
    assert_eq!(Grid::check_lane(&lane("1 - 1 1 - 1 - 1")), Err(GridError::InvalidGrid));
    assert_eq!(Grid::check_lane(&lane("1")), Err(GridError::InvalidGrid));
}

#[test]
fn check_pair_rejects_lanes_that_are_determined_and_equal() {
    assert_eq!(Grid::check_pair(&lane("0 1 1 0"), &lane("0 1 1 0")), Err(GridError::InvalidGrid));
    assert_eq!(Grid::check_pair(&lane(""), &lane("")), Err(GridError::InvalidGrid));
}

#[test]
fn check_pair_accepts_lanes_that_differ_or_are_open() {
    assert_eq!(Grid::check_pair(&lane("0 1 1 0"), &lane("0 1 0 1")), Ok(()));
    assert_eq!(Grid::check_pair(&lane("0 1 1 -"), &lane("0 1 1 -")), Ok(()));
    assert_eq!(Grid::check_pair(&lane("0 1 1 0"), &lane("0 1 1 -")), Ok(()));
    assert_eq!(Grid::check_pair(&lane("- 1 1 0"), &lane("0 1 1 0")), Ok(()));
}

#[test]
fn is_valid_holds_of_every_parsed_grid() {
    let grid = Grid::parse(&["1 - - -", "- - 0 -", "- 1 - -", "- - - 0"]).unwrap();
    assert_eq!(grid.is_valid(), Ok(()));
}

#[test]
fn is_valid_fails_once_a_rule_is_broken() {
    let mut grid = Grid::parse(&["0 0 - -", "- - - -", "- - - -", "- - - -"]).unwrap();
    grid.set(takuzu::index::Index(0, 2), Some(Cell::Zero));
    assert_eq!(grid.is_valid(), Err(GridError::InvalidGrid));
    let mut grid = Grid::parse(&["0 1 1 0", "- - - -", "0 1 1 -", "- - - -"]).unwrap();
    grid.set(takuzu::index::Index(2, 3), Some(Cell::Zero));
    assert_eq!(grid.is_valid(), Err(GridError::InvalidGrid));
    let mut grid = Grid::parse(&["0 - - 0", "1 - - 1", "1 - - 1", "0 - - -"]).unwrap();
    grid.set(takuzu::index::Index(3, 3), Some(Cell::Zero));
    assert_eq!(grid.is_valid(), Err(GridError::InvalidGrid));
}
