use takuzu::cell::Cell;
use takuzu::grid::Grid;

fn lane(text: &str) -> Vec<Option<Cell>> {
    Grid::parse_line(text).unwrap()
}

fn grid(lines: &[&str]) -> Grid {
    Grid::parse(lines).unwrap()
}

#[test]
fn fill_cell_gives_the_opposite_of_an_equal_pair() {
    assert_eq!(Grid::fill_cell(Some(Cell::Zero), Some(Cell::Zero)), Some(Cell::One));
    assert_eq!(Grid::fill_cell(Some(Cell::One), Some(Cell::One)), Some(Cell::Zero));
    assert_eq!(Grid::fill_cell(Some(Cell::Zero), Some(Cell::One)), None);
    assert_eq!(Grid::fill_cell(Some(Cell::One), None), None);
    assert_eq!(Grid::fill_cell(None, Some(Cell::One)), None);
    assert_eq!(Grid::fill_cell(None, None), None);
}

#[test]
fn fill_saturated_names_the_value_that_is_left() {
    assert_eq!(Grid::fill_saturated(&lane("0 - 0 -")), Some(Cell::One));
    assert_eq!(Grid::fill_saturated(&lane("1 - - 1")), Some(Cell::Zero));
    assert_eq!(Grid::fill_saturated(&lane("1 - - 0")), None);
    assert_eq!(Grid::fill_saturated(&lane("1 0 1 - - -")), None);
    assert_eq!(Grid::fill_saturated(&lane("1 0 1 0")), Some(Cell::One));
}

#[test]
fn fill_rows_applies_each_rule() {
    let mut between = grid(&["0 - 0 - 1 -", "- - - - - -"]);
    assert!(between.fill_rows());
    assert_eq!(between, grid(&["0 1 0 - 1 -", "- - - - - -"]));

    let mut after_pair = grid(&["1 1 - - - -", "- - - - - -"]);
    assert!(after_pair.fill_rows());
    assert_eq!(after_pair, grid(&["1 1 0 - - -", "- - - - - -"]));

    let mut around_pair = grid(&["- - 0 0 - -", "- - - - - -"]);
    assert!(around_pair.fill_rows());
    assert_eq!(around_pair, grid(&["- 1 0 0 1 -", "- - - - - -"]));

    let mut saturated = grid(&["1 - 1 - - 1", "- - - - - -"]);
    assert!(saturated.fill_rows());
    assert_eq!(saturated, grid(&["1 0 1 0 0 1", "- - - - - -"]));
}

#[test]
fn fill_columns_applies_each_rule() {
    let mut puzzle = grid(&["0 1 - -", "- 1 - -", "0 - - -", "- - - -", "1 - - -", "- - - -"]);
    assert!(puzzle.fill_columns());
    assert_eq!(
        puzzle,
        grid(&["0 1 - -", "1 1 - -", "0 0 - -", "- - - -", "1 - - -", "- - - -"])
    );
}

#[test]
fn fill_constraints_fills_rows_then_columns() {
    let mut puzzle = grid(&["0 0 - -", "- - - -", "1 - - 1", "- - - -"]);
    assert!(puzzle.fill_constraints());
    assert_eq!(puzzle, grid(&["0 0 1 1", "- 1 - 0", "1 0 0 1", "- 1 - 0"]));
}

#[test]
fn fill_constraints_changes_nothing_at_a_fixed_point() {
    let mut puzzle = grid(&["0 0 - -", "- - - -", "1 - - 1", "- - - -"]);
    assert!(puzzle.fill_constraints());
    let settled = puzzle.clone();
    assert!(!puzzle.fill_constraints());
    assert_eq!(puzzle, settled);
    assert!(!puzzle.fill_constraints());
    assert_eq!(puzzle, settled);
}

#[test]
fn fill_constraints_leaves_an_open_grid_alone() {
    let mut puzzle = grid(&["1 - - -", "- - 0 -", "- 1 - -", "- - - 0"]);
    let before = puzzle.clone();
    assert!(!puzzle.fill_constraints());
    assert_eq!(puzzle, before);
}

#[test]
fn propagate_runs_until_nothing_changes() {
    let mut puzzle = grid(&["- 0 0 - - -", "- - - - - -", "- - - - - -", "- - - - - -"]);
    puzzle.propagate();
    let settled = puzzle.clone();
    assert!(!puzzle.fill_constraints());
    assert_eq!(puzzle, settled);
    assert_eq!(puzzle.line(0), lane("1 0 0 1 - -"));
}
