use takuzu::cell::Cell;
use takuzu::error::GridError;
use takuzu::grid::Grid;
use takuzu::index::Index;

type Rows = Vec<Vec<Option<Cell>>>;

fn rows_of(grid: &Grid) -> Rows {
    grid.lines().map(|i| grid.line(i)).collect()
}

fn columns_of(rows: &Rows) -> Rows {
    (0..rows[0].len()).map(|j| rows.iter().map(|row| row[j]).collect()).collect()
}

/// The rules in their strict form, written apart from the library: every
/// cell determined, no three equal neighbours, as many zeros as ones, no
/// two lanes the same.
fn lanes_strictly_valid(lanes: &Rows) -> bool {
    for lane in lanes {
        if lane.iter().any(|cell| cell.is_none()) {
            return false;
        }
        if lane.windows(3).any(|w| w[0] == w[1] && w[1] == w[2]) {
            return false;
        }
        let zeros = lane.iter().filter(|cell| **cell == Some(Cell::Zero)).count();
        if 2 * zeros != lane.len() {
            return false;
        }
    }
    for a in 0..lanes.len() {
        for b in a + 1..lanes.len() {
            if lanes[a] == lanes[b] {
                return false;
            }
        }
    }
    true
}

fn strictly_valid(rows: &Rows) -> bool {
    lanes_strictly_valid(rows) && lanes_strictly_valid(&columns_of(rows))
}

/// Every completion of `rows` that meets the rules, found by trying each
/// value in each open cell.
fn completions(rows: &Rows) -> Vec<Rows> {
    let open: Vec<(usize, usize)> = (0..rows.len())
        .flat_map(|i| (0..rows[i].len()).map(move |j| (i, j)))
        .filter(|(i, j)| rows[*i][*j].is_none())
        .collect();
    let mut found = Vec::new();
    for bits in 0u64..(1u64 << open.len()) {
        let mut full = rows.clone();
        for (n, (i, j)) in open.iter().enumerate() {
            full[*i][*j] = Some(if (bits >> n) & 1 == 0 { Cell::Zero } else { Cell::One });
        }
        if strictly_valid(&full) {
            found.push(full);
        }
    }
    found
}

fn extends(full: &Rows, rows: &Rows) -> bool {
    full.len() == rows.len()
        && full.iter().zip(rows).all(|(a, b)| {
            a.len() == b.len() && a.iter().zip(b).all(|(x, y)| y.is_none() || x == y)
        })
}

#[test]
fn solve_finds_a_completion_of_a_small_grid() {
    let mut grid = Grid::parse(&["1 - - -", " - - 0 -", "- 1 - -", " - - - 0"]).unwrap();
    let start = rows_of(&grid);
    let all = completions(&start);
    assert_eq!(all.len(), 2);
    assert_eq!(grid.solve(), Ok(()));
    assert!(all.contains(&rows_of(&grid)));
    assert_eq!(grid, Grid::parse(&["1 0 0 1", "0 1 0 1", "0 1 1 0", "1 0 1 0"]).unwrap());
}

#[test]
fn solve_finds_the_only_completion() {
    let open = Grid::parse(&["1 - - -", " - - 0 -", "- 1 - -", " - - - 0"]).unwrap();
    let all = completions(&rows_of(&open));
    for wanted in &all {
        let other = all.iter().find(|full| *full != wanted).unwrap();
        let mut grid = open.clone();
        for i in 0..4 {
            for j in 0..4 {
                if wanted[i][j] != other[i][j] {
                    grid.set(Index(i, j), wanted[i][j]);
                }
            }
        }
        assert_eq!(completions(&rows_of(&grid)), vec![wanted.clone()]);
        assert_eq!(grid.solve(), Ok(()));
        assert_eq!(&rows_of(&grid), wanted);
    }
}

#[test]
fn solve_returns_one_of_several_completions() {
    let mut grid = Grid::parse(&["0 0 - -", "- - - -", "1 - - 1", "- - - -"]).unwrap();
    let start = rows_of(&grid);
    let all = completions(&start);
    assert!(all.len() > 1);
    assert_eq!(grid.solve(), Ok(()));
    assert!(all.contains(&rows_of(&grid)));
    assert_eq!(grid, Grid::parse(&["0 0 1 1", "0 1 1 0", "1 0 0 1", "1 1 0 0"]).unwrap());
}

#[test]
fn solve_result_is_sound() {
    let puzzles: Vec<Vec<&str>> = vec![
        vec!["- - - -", "- - - -", "- - - -", "- - - -"],
        vec!["- -", "- -"],
        vec!["1 - - - - -", "- - 0 - - 1", "- - - - - -", "0 - - 1 - -"],
        vec!["- - - - - -", "- 0 0 - - -", "- - - - 1 -", "- - - - - -", "1 - - 0 - -", "- - - - - 0"],
    ];
    for lines in puzzles {
        let mut grid = Grid::parse(&lines).unwrap();
        let start = rows_of(&grid);
        assert_eq!(grid.solve(), Ok(()));
        let solved = rows_of(&grid);
        assert!(strictly_valid(&solved));
        assert!(extends(&solved, &start));
        assert_eq!(grid.is_valid(), Ok(()));
        assert!(grid.get_empty().is_none());
    }
}

#[test]
fn solve_succeeds_exactly_where_a_completion_exists() {
    let mut seed: u64 = 2024;
    let mut solved = 0;
    let mut failed = 0;
    for _ in 0..400 {
        let mut lines = Vec::new();
        for _ in 0..4 {
            let mut tokens = Vec::new();
            for _ in 0..4 {
                seed = seed.wrapping_mul(6364136223846793005).wrapping_add(1442695040888963407);
                tokens.push(match (seed >> 33) % 8 {
                    0 => "0",
                    1 => "1",
                    _ => "-",
                });
            }
            lines.push(tokens.join(" "));
        }
        let lines: Vec<&str> = lines.iter().map(|line| line.as_str()).collect();
        if let Ok(mut grid) = Grid::parse(&lines) {
            let start = rows_of(&grid);
            let all = completions(&start);
            match grid.solve() {
                Ok(()) => {
                    solved += 1;
                    assert!(all.contains(&rows_of(&grid)));
                },
                Err(_) => {
                    failed += 1;
                    assert!(all.is_empty());
                    assert!(extends(&rows_of(&grid), &start));
                },
            }
        }
    }
    assert!(solved > 0);
    assert!(failed > 0);
}

#[test]
fn solve_reports_no_solution() {
    let mut grid =
        Grid::parse(&["- 0 0 -", "- 1 - -", "1 - - -", "- - 0 1", "- 0 - -", "- - 1 -"]).unwrap();
    assert!(completions(&rows_of(&grid)).is_empty());
    assert_eq!(grid.solve(), Err(GridError::NoSolution));
    assert_eq!(grid.is_valid(), Ok(()));
    assert_eq!(
        grid,
        Grid::parse(&["1 0 0 1", "0 1 - -", "1 - - -", "- - 0 1", "- 0 - -", "0 1 1 0"]).unwrap()
    );
}

#[test]
fn solve_reports_no_solution_in_a_wide_grid() {
    let mut grid =
        Grid::parse(&["0 - - 1 1 0", "- - - - - -", "- 0 - 0 0 -", "- - - - 0 0"]).unwrap();
    assert_eq!(grid.solve(), Err(GridError::NoSolution));
    assert_eq!(
        grid,
        Grid::parse(&["0 1 0 1 1 0", "0 - - 0 1 1", "1 0 1 0 0 1", "1 - - 1 0 0"]).unwrap()
    );
}

#[test]
fn solve_reports_a_grid_that_deduction_shows_invalid() {
    let mut grid = Grid::parse(&["0 0 - -", "0 0 - -", "- - - -", "- - - -"]).unwrap();
    assert_eq!(grid.solve(), Err(GridError::InvalidGrid));
    assert_eq!(grid.is_valid(), Err(GridError::InvalidGrid));
    assert_eq!(grid.line(0), vec![Some(Cell::Zero), Some(Cell::Zero), Some(Cell::One), Some(Cell::One)]);
    assert_eq!(grid.line(0), grid.line(1));
}

#[test]
fn solve_leaves_a_solved_grid_alone() {
    let lines = ["1 0 0 1", "0 1 0 1", "0 1 1 0", "1 0 1 0"];
    let mut grid = Grid::parse(&lines).unwrap();
    assert_eq!(grid.solve(), Ok(()));
    assert_eq!(grid, Grid::parse(&lines).unwrap());
    assert!(!grid.fill_constraints());
    assert!(!grid.fill_heuristics());
}

#[test]
fn solve_of_the_smallest_grid() {
    let mut grid = Grid::parse(&["- -", "- -"]).unwrap();
    assert_eq!(grid.solve(), Ok(()));
    assert_eq!(grid, Grid::parse(&["0 1", "1 0"]).unwrap());
    let mut grid = Grid::parse(&["- 0", "- -"]).unwrap();
    assert_eq!(grid.solve(), Ok(()));
    assert_eq!(grid, Grid::parse(&["1 0", "0 1"]).unwrap());
}

#[test]
fn fill_bruteforce_tries_zero_first() {
    let mut grid = Grid::parse(&["- -", "- -"]).unwrap();
    assert_eq!(grid.fill_bruteforce(Index(1, 1)), Ok(()));
    assert_eq!(grid, Grid::parse(&["0 1", "1 0"]).unwrap());
    let mut grid = Grid::parse(&["- -", "- -"]).unwrap();
    assert_eq!(grid.fill_bruteforce(Index(0, 0)), Ok(()));
    assert_eq!(grid, Grid::parse(&["0 1", "1 0"]).unwrap());
}

#[test]
fn fill_bruteforce_leaves_the_grid_where_both_values_fail() {
    let lines = ["1 0 0 1", "0 1 - -", "1 - - -", "- - 0 1", "- 0 - -", "0 1 1 0"];
    let mut grid = Grid::parse(&lines).unwrap();
    assert_eq!(grid.fill_bruteforce(Index(1, 2)), Err(GridError::NoSolution));
    assert_eq!(grid, Grid::parse(&lines).unwrap());
}

#[test]
fn steps_never_undo_a_cell() {
    let mut grid = Grid::parse(&[
        "- - 1 - - - 1 - 1 1 - - - -",
        "0 0 - - 0 0 - 1 - - - - - -",
        "- - - - - - - - - - - 1 - -",
        "- - - - - - - - - 0 - - - -",
        "- 1 - - 0 - - - - - - - - -",
        "- - - - - - - - - 1 - - - 1",
        "- 0 - - - 0 - 1 - - 0 - - -",
        "- - 1 - - - - - - - 0 - - -",
        "- - - - - - - 0 - - - - 0 0",
        "- - 1 - - - - - - - - - 0 0",
        "- - - - - - 1 - - - 1 - - -",
        "- - - - - - 1 - 0 - - - - 0",
        "0 - - 1 1 - - - - - - - 1 -",
        "0 - - 1 - - - - - - 0 - - -",
    ])
    .unwrap();
    let mut determined = rows_of(&grid).concat().iter().filter(|cell| cell.is_some()).count();
    for _ in 0..6 {
        let before = rows_of(&grid);
        let by_rules = grid.fill_constraints();
        let between = rows_of(&grid);
        assert!(extends(&between, &before));
        assert_eq!(by_rules, between != before);
        let by_lookahead = grid.fill_heuristics();
        let after = rows_of(&grid);
        assert!(extends(&after, &between));
        assert_eq!(by_lookahead, after != between);
        let now = after.concat().iter().filter(|cell| cell.is_some()).count();
        assert!(now >= determined);
        determined = now;
        assert_eq!(grid.is_valid(), Ok(()));
    }
}
