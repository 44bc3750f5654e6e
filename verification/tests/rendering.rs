use takuzu::grid::Grid;

#[test]
fn render_writes_rows_with_single_spaces() {
    let grid = Grid::parse(&["0  1\t-   -  # c", "-\u{a0}-10"]).unwrap();
    assert_eq!(grid.render(), "0 1 - -\n- - 1 0");
    assert_eq!(grid.to_lines(), vec!["0 1 - -".to_string(), "- - 1 0".to_string()]);
    assert_eq!(grid.line_text(1), "- - 1 0");
}

#[test]
fn render_of_a_solved_grid_reads_back() {
    let mut grid = Grid::parse(&["1 - - -", "- - 0 -", "- 1 - -", "- - - 0"]).unwrap();
    grid.solve().unwrap();
    let text = grid.render();
    assert_eq!(text, "1 0 0 1\n0 1 0 1\n0 1 1 0\n1 0 1 0");
    let lines: Vec<&str> = text.lines().collect();
    let again = Grid::parse(&lines).unwrap();
    assert_eq!(again, grid);
    let mut solved_again = again.clone();
    assert_eq!(solved_again.solve(), Ok(()));
    assert_eq!(solved_again, grid);
}

#[test]
fn lines_of_a_partial_grid_read_back() {
    let grid = Grid::parse(&[
        "- 1 1 - 1 - - - - - - - 1 -",
        "- - - - - - 1 - - - - 0 - -",
    ])
    .unwrap();
    let lines = grid.to_lines();
    let lines: Vec<&str> = lines.iter().map(|line| line.as_str()).collect();
    assert_eq!(Grid::parse(&lines).unwrap(), grid);
}
