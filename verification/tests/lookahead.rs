use takuzu::cell::Cell;
use takuzu::grid::Grid;

fn lane(text: &str) -> Vec<Option<Cell>> {
    Grid::parse_line(text).unwrap()
}

fn grid(lines: &[&str]) -> Grid {
    Grid::parse(lines).unwrap()
}

#[test]
fn find_almost_names_the_value_close_to_its_share() {
    assert_eq!(Grid::find_almost(&lane("1 - - - 1 -"), 1), Some(Cell::One));
    assert_eq!(Grid::find_almost(&lane("1 - - - 1 -"), 2), None);
    assert_eq!(Grid::find_almost(&lane("0 0 - - - - - -"), 2), Some(Cell::Zero));
    assert_eq!(Grid::find_almost(&lane("0 0 - - - - - -"), 1), None);
    assert_eq!(Grid::find_almost(&lane("0 1 - - - -"), 2), None);
    assert_eq!(Grid::find_almost(&lane("0 0 1 1 - - - -"), 2), None);
    assert_eq!(Grid::find_almost(&lane("- -"), 1), None);
    assert_eq!(Grid::find_almost(&lane("- -"), 2), None);
}

#[test]
fn try_missings_with_one_missing() {
    assert_eq!(Grid::try_missings(&lane("1 - - - 1 -")), vec![(5, Some(Cell::Zero))]);
    assert_eq!(Grid::try_missings(&lane("- 0 - - - 0")), vec![(0, Some(Cell::One))]);
    assert_eq!(Grid::try_missings(&lane("1 - - 1 - -")), vec![]);
}

#[test]
fn try_missings_with_two_missing() {
    assert_eq!(Grid::try_missings(&lane("1 1 - - - - - -")), vec![(2, Some(Cell::Zero))]);
    assert_eq!(
        Grid::try_missings(&lane("- 0 - - 0 - - -")),
        Vec::<(usize, Option<Cell>)>::new()
    );
}

#[test]
fn try_missings_finds_nothing_in_a_lane_far_from_its_share() {
    assert_eq!(Grid::try_missings(&lane("- - - - - -")), vec![]);
    assert_eq!(Grid::try_missings(&lane("1 0 - - - -")), vec![]);
    assert_eq!(Grid::try_missings(&lane("1 - - - - - - - - -")), vec![]);
    assert_eq!(Grid::try_missings(&lane("1 0 1 0")), vec![]);
}

#[test]
fn fill_heuristics_fills_what_is_ruled_out() {
    let mut puzzle = grid(&["1 - - - 1 -", "- - - - - -"]);
    assert!(puzzle.fill_heuristics());
    assert_eq!(puzzle, grid(&["1 - - - 1 0", "- - - - - -"]));
    let settled = puzzle.clone();
    assert!(!puzzle.fill_heuristics());
    assert_eq!(puzzle, settled);
}

#[test]
fn fill_heuristics_looks_at_columns_too() {
    let mut puzzle = grid(&["1 - - -", "- - - -", "- - - -", "- - - -", "1 - - -", "- - - -"]);
    assert!(puzzle.fill_heuristics());
    assert_eq!(
        puzzle,
        grid(&["1 - - -", "- - - -", "- - - -", "- - - -", "1 - - -", "0 - - -"])
    );
}

#[test]
fn deduce_reaches_a_fixed_point_of_both_steps() {
    let mut puzzle = grid(&["1 - - - 1 -", "- - - - - -"]);
    let start = puzzle.clone();
    puzzle.deduce();
    let reached = puzzle.clone();
    assert!(!puzzle.fill_constraints());
    assert!(!puzzle.fill_heuristics());
    assert_eq!(puzzle, reached);
    for i in start.lines() {
        for (before, after) in start.line(i).into_iter().zip(reached.line(i)) {
            if before.is_some() {
                assert_eq!(before, after);
            }
        }
    }
}
