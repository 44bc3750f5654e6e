use takuzu::grid::Grid;

#[test]
fn easy_grid() {
    let input = vec![
        "- 1 1 - 1 - - - - - - - 1 -\n",
        "- - - - - - 1 - - - - 0 - -\n",
        "1 - - - 0 0 - 0 0 - 1 - - -\n",
        "- 0 0 - - - - - - - - - - 1\n",
        "- 0 - - - 0 - - 0 - - - - -\n",
        "- - - - - 0 - - - - 1 1 - -\n",
        "0 - - - - - - - - - 1 - - -\n",
        "- 0 - - 1 - 0 - 0 - - 0 - -\n",
        "1 - - - - - - - 0 - - - 1 -\n",
        "- - 1 1 - - - - - 1 - - - -\n",
        "- 0 - - - - - - - - - - - 1\n",
        "1 - - 0 - 1 - - 0 - - - - 1\n",
        "- - - - - - 0 - 0 0 - - - -\n",
        "- - - - - 1 - - - - - 1 - -\n",
    ];

    let solution = vec![
        "0 1 1 0 1 1 0 0 1 0 0 1 1 0\n",
        "0 0 1 0 1 0 1 1 0 1 1 0 0 1\n",
        "1 1 0 1 0 0 1 0 0 1 1 0 1 0\n",
        "1 0 0 1 0 1 0 1 1 0 0 1 0 1\n",
        "0 0 1 0 1 0 1 1 0 1 0 0 1 1\n",
        "1 1 0 1 0 0 1 0 1 0 1 1 0 0\n",
        "0 1 0 1 0 1 0 0 1 0 1 1 0 1\n",
        "0 0 1 0 1 1 0 1 0 1 0 0 1 1\n",
        "1 1 0 0 1 0 1 1 0 0 1 0 1 0\n",
        "1 0 1 1 0 1 0 0 1 1 0 1 0 0\n",
        "0 0 1 1 0 0 1 0 1 1 0 0 1 1\n",
        "1 1 0 0 1 1 0 1 0 0 1 0 0 1\n",
        "1 1 0 1 1 0 0 1 0 0 1 1 0 0\n",
        "0 0 1 0 0 1 1 0 1 1 0 1 1 0\n",
    ];

    let mut grid = Grid::parse(&input).unwrap();
    grid.solve().unwrap();

    let solution = Grid::parse(&solution).unwrap();
    assert_eq!(grid, solution);
}

#[test]
fn hard_grid() {
    let input = vec![
        "- - 1 - - - 1 - 1 1 - - - -\n",
        "0 0 - - 0 0 - 1 - - - - - -\n",
        "- - - - - - - - - - - 1 - -\n",
        "- - - - - - - - - 0 - - - -\n",
        "- 1 - - 0 - - - - - - - - -\n",
        "- - - - - - - - - 1 - - - 1\n",
        "- 0 - - - 0 - 1 - - 0 - - -\n",
        "- - 1 - - - - - - - 0 - - -\n",
        "- - - - - - - 0 - - - - 0 0\n",
        "- - 1 - - - - - - - - - 0 0\n",
        "- - - - - - 1 - - - 1 - - -\n",
        "- - - - - - 1 - 0 - - - - 0\n",
        "0 - - 1 1 - - - - - - - 1 -\n",
        "0 - - 1 - - - - - - 0 - - -\n",
    ];

    let solution = vec![
        "0 1 1 0 0 1 1 0 1 1 0 0 1 0\n",
        "0 0 1 1 0 0 1 1 0 1 1 0 0 1\n",
        "1 0 0 1 1 0 0 1 0 0 1 1 0 1\n",
        "1 1 0 0 1 1 0 0 1 0 0 1 1 0\n",
        "0 1 1 0 0 1 1 0 0 1 1 0 0 1\n",
        "1 0 0 1 1 0 0 1 0 1 1 0 0 1\n",
        "1 0 0 1 1 0 0 1 1 0 0 1 1 0\n",
        "0 1 1 0 0 1 1 0 0 1 0 0 1 1\n",
        "1 1 0 0 1 0 1 0 1 0 1 1 0 0\n",
        "1 0 1 1 0 1 0 1 1 0 0 1 0 0\n",
        "0 0 1 0 0 1 1 0 0 1 1 0 1 1\n",
        "1 1 0 0 1 0 1 1 0 0 1 1 0 0\n",
        "0 1 0 1 1 0 0 1 1 0 0 1 1 0\n",
        "0 0 1 1 0 1 0 0 1 1 0 0 1 1\n",
    ];

    let mut grid = Grid::parse(&input).unwrap();
    grid.solve().unwrap();

    let solution = Grid::parse(&solution).unwrap();
    assert_eq!(grid, solution);
}
