use takuzu::cell::Cell;
use takuzu::error::GridError;
use takuzu::grid::Grid;
use takuzu::index::Index;

fn cells_of(grid: &Grid) -> Vec<Vec<Option<Cell>>> {
    grid.lines().map(|i| grid.line(i)).collect()
}

#[test]
fn parse_reads_cells_in_place() {
    let grid = Grid::parse(&["0 1", "- 0"]).unwrap();
    assert_eq!(grid.height(), 2);
    assert_eq!(grid.width(), 2);
    assert_eq!(grid.get(Index(0, 0)), Some(Cell::Zero));
    assert_eq!(grid.get(Index(0, 1)), Some(Cell::One));
    assert_eq!(grid.get(Index(1, 0)), None);
    assert_eq!(grid.get(Index(1, 1)), Some(Cell::Zero));
}

#[test]
fn parse_line_reads_tokens_up_to_the_comment() {
    assert_eq!(
        Grid::parse_line("0 - 1 # 1 1 x"),
        Ok(vec![Some(Cell::Zero), None, Some(Cell::One)])
    );
    assert_eq!(Grid::parse_line("# 0 1"), Ok(vec![]));
    assert_eq!(Grid::parse_line(""), Ok(vec![]));
    assert_eq!(Grid::parse_line("01-"), Ok(vec![Some(Cell::Zero), Some(Cell::One), None]));
}

#[test]
fn parse_line_passes_over_any_white_space() {
    let expected = Ok(vec![Some(Cell::One), None, Some(Cell::Zero), Some(Cell::One)]);
    assert_eq!(Grid::parse_line("1\t-\u{a0}0\u{2003}1\r\n"), expected);
    assert_eq!(Grid::parse_line("  1   -  0 1  "), expected);
    assert_eq!(Grid::parse_line("1\u{b}-\u{c}0\u{3000}1"), expected);
}

#[test]
fn parse_line_reports_the_first_bad_token() {
    assert_eq!(Grid::parse_line("0 a 1 b"), Err(GridError::InvalidChar('a')));
    assert_eq!(Grid::parse_line("0 \u{200b} 1"), Err(GridError::InvalidChar('\u{200b}')));
    assert_eq!(Grid::parse_line("0 2 # fine"), Err(GridError::InvalidChar('2')));
}

#[test]
fn parse_passes_over_lines_without_tokens() {
    let grid = Grid::parse(&["# a puzzle", "", "0 1 # first row", "   ", "1 0", "\n"]).unwrap();
    assert_eq!(cells_of(&grid), vec![
        vec![Some(Cell::Zero), Some(Cell::One)],
        vec![Some(Cell::One), Some(Cell::Zero)],
    ]);
}

#[test]
fn parse_rejects_empty_input() {
    let none: Vec<&str> = Vec::new();
    assert_eq!(Grid::parse(&none).unwrap_err(), GridError::EmptyGrid);
    assert_eq!(Grid::parse(&["", "# nothing", "  "]).unwrap_err(), GridError::EmptyGrid);
}

#[test]
fn parse_rejects_unknown_token() {
    assert_eq!(Grid::parse(&["0 1", "x 0"]).unwrap_err(), GridError::InvalidChar('x'));
    assert_eq!(Grid::parse(&["0 2"]).unwrap_err(), GridError::InvalidChar('2'));
}

#[test]
fn parse_rejects_rows_of_different_length() {
    assert_eq!(Grid::parse(&["0 1", "1 0 1 0"]).unwrap_err(), GridError::WidthMismatch);
    assert_eq!(Grid::parse(&["0 1 0 1", "1 0"]).unwrap_err(), GridError::WidthMismatch);
}

#[test]
fn parse_rejects_odd_width() {
    assert_eq!(Grid::parse(&["0 1 0", "1 0 1"]).unwrap_err(), GridError::OddDimension);
    assert_eq!(Grid::parse(&["0"]).unwrap_err(), GridError::OddDimension);
}

#[test]
fn parse_rejects_odd_height() {
    assert_eq!(Grid::parse(&["0 1"]).unwrap_err(), GridError::OddDimension);
    assert_eq!(Grid::parse(&["0 1", "1 0", "- -"]).unwrap_err(), GridError::OddDimension);
}

#[test]
fn parse_rejects_three_equal_neighbours() {
    assert_eq!(
        Grid::parse(&["0 0 0 -", "- - - -", "- - - -", "- - - -"]).unwrap_err(),
        GridError::InvalidGrid
    );
    assert_eq!(
        Grid::parse(&["- - 1 -", "- - 1 -", "- - 1 -", "- - - -"]).unwrap_err(),
        GridError::InvalidGrid
    );
}

#[test]
fn parse_rejects_more_than_half_of_one_value() {
    assert_eq!(
        Grid::parse(&["1 1 - 1", "- - - -", "- - - -", "- - - -"]).unwrap_err(),
        GridError::InvalidGrid
    );
    assert_eq!(Grid::parse(&["0 -", "0 -"]).unwrap_err(), GridError::InvalidGrid);
}

#[test]
fn parse_rejects_equal_rows_and_equal_columns() {
    assert_eq!(
        Grid::parse(&["0 1 1 0", "- - - -", "0 1 1 0", "- - - -"]).unwrap_err(),
        GridError::InvalidGrid
    );
    assert_eq!(
        Grid::parse(&["0 - 0 -", "1 - 1 -", "1 - 1 -", "0 - 0 -"]).unwrap_err(),
        GridError::InvalidGrid
    );
}

#[test]
fn parse_accepts_rows_that_may_still_differ() {
    assert!(Grid::parse(&["0 1 1 -", "- - - -", "0 1 1 -", "- - - -"]).is_ok());
    assert!(Grid::parse(&["0 0 - -", "0 0 - -", "- - - -", "- - - -"]).is_ok());
}

#[test]
fn parse_reports_the_first_line_that_fails() {
    assert_eq!(Grid::parse(&["0 1", "1 0 1", "x"]).unwrap_err(), GridError::WidthMismatch);
    assert_eq!(Grid::parse(&["0 x 1", "1 0"]).unwrap_err(), GridError::InvalidChar('x'));
    assert_eq!(Grid::parse(&["0 1 0", "x"]).unwrap_err(), GridError::OddDimension);
    assert_eq!(Grid::parse(&["0 0", "0 0", "y"]).unwrap_err(), GridError::InvalidChar('y'));
}

#[test]
fn grid_accessors_agree() {
    let grid = Grid::parse(&["0 1 - -", "- - 1 0"]).unwrap();
    assert_eq!(grid.lines(), 0..2);
    assert_eq!(grid.columns(), 0..4);
    assert_eq!(grid.line(1), vec![None, None, Some(Cell::One), Some(Cell::Zero)]);
    assert_eq!(grid.column(0), vec![Some(Cell::Zero), None]);
    assert_eq!(grid.column(3), vec![None, Some(Cell::Zero)]);
}

#[test]
fn set_replaces_one_cell_and_reports_change() {
    let mut grid = Grid::parse(&["0 1 - -", "- - 1 0"]).unwrap();
    let before = grid.clone();
    assert!(grid.set(Index(0, 2), Some(Cell::One)));
    assert!(!grid.set(Index(0, 2), Some(Cell::One)));
    assert!(!grid.set(Index(1, 0), None));
    assert_eq!(cells_of(&grid), vec![
        vec![Some(Cell::Zero), Some(Cell::One), Some(Cell::One), None],
        vec![None, None, Some(Cell::One), Some(Cell::Zero)],
    ]);
    assert!(grid.set(Index(0, 2), None));
    assert_eq!(grid, before);
}

#[test]
fn clone_is_independent() {
    let grid = Grid::parse(&["0 1 - -", "- - 1 0"]).unwrap();
    let mut copy = grid.clone();
    assert_eq!(copy, grid);
    copy.set(Index(1, 1), Some(Cell::Zero));
    assert_ne!(copy, grid);
    assert_eq!(grid.get(Index(1, 1)), None);
}

#[test]
fn get_empty_finds_the_first_open_cell() {
    let grid = Grid::parse(&["0 1 1 0", "1 0 - -", "- - - -", "- - - -"]).unwrap();
    let found = grid.get_empty().unwrap();
    assert_eq!((found.0, found.1), (1, 2));
    let grid = Grid::parse(&["- 1", "1 0"]).unwrap();
    let found = grid.get_empty().unwrap();
    assert_eq!((found.0, found.1), (0, 0));
    let grid = Grid::parse(&["0 1", "1 0"]).unwrap();
    assert!(grid.get_empty().is_none());
}

#[test]
fn parse_token_reads_the_three_tokens() {
    assert_eq!(Grid::parse_token('-'), Ok(None));
    assert_eq!(Grid::parse_token('0'), Ok(Some(Cell::Zero)));
    assert_eq!(Grid::parse_token('1'), Ok(Some(Cell::One)));
    assert_eq!(Grid::parse_token('#'), Err(GridError::InvalidChar('#')));
    assert_eq!(Grid::parse_token('_'), Err(GridError::InvalidChar('_')));
}
