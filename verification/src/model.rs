use vstd::prelude::*;
use crate::cell::Cell;
use crate::lane::{
    Lane, count_empty, differ_at, lane_complete, lane_extends, lane_ok, lanes_distinct,
    lemma_count_monotone, lemma_extends_fewer_empty, triple_at,
};

verus! {

/// The cells of a grid, row by row.
pub type Cells = Seq<Lane>;

/// The length of the rows: that of the first row, which all rows of a
/// rectangular grid share.
pub open spec fn width_of(cells: Cells) -> nat {
    if cells.len() == 0 {
        0
    } else {
        cells[0].len()
    }
}

/// All rows have the same length.
pub open spec fn rectangular(cells: Cells) -> bool {
    forall|i: int| 0 <= i < cells.len() ==> (#[trigger] cells[i]).len() == width_of(cells)
}

/// A grid of the puzzle: rectangular, with a positive even number of rows
/// and of columns.
pub open spec fn well_formed(cells: Cells) -> bool {
    &&& rectangular(cells)
    &&& cells.len() > 0
    &&& cells.len() % 2 == 0
    &&& width_of(cells) > 0
    &&& width_of(cells) % 2 == 0
}

/// The column `j`, from top to bottom.
pub open spec fn column_of(cells: Cells, j: int) -> Lane {
    Seq::new(cells.len(), |i: int| cells[i][j])
}

/// The grid with the cell in row `i`, column `j` replaced by `v`.
pub open spec fn set_cell(cells: Cells, i: int, j: int, v: Option<Cell>) -> Cells {
    cells.update(i, cells[i].update(j, v))
}

/// Every row meets the rules of one lane, and no two rows are determined
/// and the same.
pub open spec fn rows_valid(cells: Cells) -> bool {
    &&& forall|i: int| 0 <= i < cells.len() ==> lane_ok(#[trigger] cells[i])
    &&& forall|i: int, k: int|
        0 <= i < k < cells.len() ==> lanes_distinct(#[trigger] cells[i], #[trigger] cells[k])
}

/// Every column meets the rules of one lane, and no two columns are
/// determined and the same.
pub open spec fn columns_valid(cells: Cells) -> bool {
    &&& forall|j: int| 0 <= j < width_of(cells) ==> lane_ok(#[trigger] column_of(cells, j))
    &&& forall|j: int, k: int|
        0 <= j < k < width_of(cells) ==> lanes_distinct(
            #[trigger] column_of(cells, j),
            #[trigger] column_of(cells, k),
        )
}

/// The determined cells break no rule of the puzzle.
pub open spec fn grid_valid(cells: Cells) -> bool {
    rows_valid(cells) && columns_valid(cells)
}

/// Every cell is determined.
pub open spec fn grid_complete(cells: Cells) -> bool {
    forall|i: int| 0 <= i < cells.len() ==> lane_complete(#[trigger] cells[i])
}

/// `fuller` has the shape of `cells` and keeps each of its determined cells.
pub open spec fn grid_extends(fuller: Cells, cells: Cells) -> bool {
    &&& fuller.len() == cells.len()
    &&& forall|i: int| 0 <= i < cells.len() ==> lane_extends(#[trigger] fuller[i], #[trigger] cells[i])
}

/// A solved puzzle: a well-formed grid with every cell determined that
/// meets all rules.
pub open spec fn is_solution(cells: Cells) -> bool {
    well_formed(cells) && grid_complete(cells) && grid_valid(cells)
}

/// `full` is a solved puzzle that keeps the determined cells of `cells`.
pub open spec fn solves(full: Cells, cells: Cells) -> bool {
    is_solution(full) && grid_extends(full, cells)
}

/// Some solved puzzle keeps the determined cells of `cells`.
pub open spec fn solvable(cells: Cells) -> bool {
    exists|full: Cells| solves(full, cells)
}

/// The cell in row `i`, column `j` is undetermined, and it is the first such
/// cell where the rows are read from the top, each from the left.
pub open spec fn first_empty_at(cells: Cells, i: int, j: int) -> bool {
    &&& 0 <= i < cells.len()
    &&& 0 <= j < cells[i].len()
    &&& cells[i][j] is None
    &&& forall|b: int| 0 <= b < j ==> (#[trigger] cells[i][b]) is Some
    &&& forall|a: int| 0 <= a < i ==> lane_complete(#[trigger] cells[a])
}

/// Replacing one cell changes its column at that one place and leaves the
/// other columns as they are.
pub proof fn lemma_set_cell_columns(cells: Cells, i: int, j: int, v: Option<Cell>, b: int)
    requires
        rectangular(cells),
        0 <= i < cells.len(),
        0 <= j < width_of(cells),
        0 <= b < width_of(cells),
    ensures
        rectangular(set_cell(cells, i, j, v)),
        width_of(set_cell(cells, i, j, v)) == width_of(cells),
        b == j ==> column_of(set_cell(cells, i, j, v), b) == column_of(cells, b).update(i, v),
        b != j ==> column_of(set_cell(cells, i, j, v), b) == column_of(cells, b),
{
    let next = set_cell(cells, i, j, v);
    assert(cells[0].len() == width_of(cells));
    assert(cells[i].len() == width_of(cells));
    assert forall|a: int| 0 <= a < next.len() implies (#[trigger] next[a]).len() == width_of(
        cells,
    ) by {
        assert(cells[a].len() == width_of(cells));
    }
    if b == j {
        assert(column_of(next, b) =~= column_of(cells, b).update(i, v));
    } else {
        assert(column_of(next, b) =~= column_of(cells, b));
    }
}

/// Two grids of one shape with the same cells are the same grid.
pub proof fn lemma_cells_equal(a: Cells, b: Cells)
    requires
        a.len() == b.len(),
        forall|i: int| 0 <= i < a.len() ==> (#[trigger] a[i]).len() == b[i].len(),
        forall|i: int, j: int| 0 <= i < a.len() && 0 <= j < a[i].len() ==> a[i][j] == b[i][j],
    ensures
        a == b,
{
    assert forall|i: int| 0 <= i < a.len() implies #[trigger] a[i] == b[i] by {
        assert(a[i].len() == b[i].len());
        assert(a[i] =~= b[i]);
    }
    assert(a =~= b);
}

/// A grid extends itself.
pub proof fn lemma_extends_reflexive(cells: Cells)
    ensures
        grid_extends(cells, cells),
{
}

/// Extending an extension extends the grid that one started from.
pub proof fn lemma_extends_transitive(a: Cells, b: Cells, c: Cells)
    requires
        grid_extends(b, a),
        grid_extends(c, b),
    ensures
        grid_extends(c, a),
{
    assert forall|i: int| 0 <= i < a.len() implies lane_extends(#[trigger] c[i], #[trigger] a[i]) by {
        assert(lane_extends(b[i], a[i]));
        assert(lane_extends(c[i], b[i]));
        assert forall|k: int| 0 <= k < a[i].len() && (#[trigger] a[i][k]) is Some implies c[i][k]
            == a[i][k] by {
            assert(b[i][k] is Some);
        }
    }
}

/// Where a grid is reached again after two extensions, the grid between
/// them is that grid too.
pub proof fn lemma_extends_squeeze(a: Cells, b: Cells, c: Cells)
    requires
        grid_extends(b, a),
        grid_extends(c, b),
        c == a,
    ensures
        b == a,
{
    assert forall|i: int, j: int| 0 <= i < b.len() && 0 <= j < b[i].len() implies b[i][j]
        == a[i][j] by {
        assert(lane_extends(b[i], a[i]));
        assert(lane_extends(c[i], b[i]));
        if a[i][j] is None {
            if b[i][j] is Some {
                assert(c[i][j] == b[i][j]);
            }
        }
    }
    assert forall|i: int| 0 <= i < b.len() implies (#[trigger] b[i]).len() == a[i].len() by {
        assert(lane_extends(b[i], a[i]));
    }
    lemma_cells_equal(b, a);
}

/// How many cells of the first `n` rows are undetermined.
pub open spec fn empties_in(cells: Cells, n: int) -> nat
    decreases n,
{
    if n <= 0 {
        0
    } else {
        empties_in(cells, n - 1) + count_empty(cells[n - 1])
    }
}

/// How many cells of the grid are undetermined.
pub open spec fn empties(cells: Cells) -> nat {
    empties_in(cells, cells.len() as int)
}

/// Among the first `n` rows, a grid that extends another has no more
/// undetermined cells, and fewer where one of these rows differs.
pub proof fn lemma_extends_fewer_empties_in(fuller: Cells, cells: Cells, n: int)
    requires
        grid_extends(fuller, cells),
        n <= cells.len(),
    ensures
        empties_in(fuller, n) <= empties_in(cells, n),
        (exists|i: int| 0 <= i < n && #[trigger] fuller[i] != cells[i]) ==> empties_in(fuller, n)
            < empties_in(cells, n),
    decreases n,
{
    if n > 0 {
        lemma_extends_fewer_empties_in(fuller, cells, n - 1);
        assert(lane_extends(fuller[n - 1], cells[n - 1]));
        lemma_extends_fewer_empty(fuller[n - 1], cells[n - 1]);
    }
}

/// A grid that extends another has no more undetermined cells, and fewer
/// where the two differ.
pub proof fn lemma_extends_fewer_empties(fuller: Cells, cells: Cells)
    requires
        grid_extends(fuller, cells),
    ensures
        empties(fuller) <= empties(cells),
        fuller != cells ==> empties(fuller) < empties(cells),
{
    lemma_extends_fewer_empties_in(fuller, cells, cells.len() as int);
    if fuller != cells {
        if forall|i: int| 0 <= i < cells.len() ==> #[trigger] fuller[i] == cells[i] {
            assert(fuller =~= cells);
        }
    }
}

/// The first undetermined cell of a grid is one cell.
pub proof fn lemma_first_empty_unique(cells: Cells, i: int, j: int, a: int, b: int)
    requires
        first_empty_at(cells, i, j),
        first_empty_at(cells, a, b),
    ensures
        i == a,
        j == b,
{
    if i < a {
        assert(lane_complete(cells[i]));
        assert(cells[i][j] is Some);
    } else if a < i {
        assert(lane_complete(cells[a]));
        assert(cells[a][b] is Some);
    } else if j < b {
        assert(cells[i][j] is Some);
    } else if b < j {
        assert(cells[a][b] is Some);
    }
}

/// A lane that a complete lane within the rules extends is within the
/// rules itself.
pub proof fn lemma_part_of_solved_lane(full: Lane, lane: Lane)
    requires
        lane_complete(full),
        lane_ok(full),
        lane_extends(full, lane),
    ensures
        lane_ok(lane),
{
    assert forall|k: int| 0 <= k && k + 2 < lane.len() implies !#[trigger] triple_at(lane, k) by {
        if triple_at(lane, k) {
            assert(lane[k + 1] is Some && lane[k + 2] is Some);
            assert(triple_at(full, k));
        }
    }
    lemma_count_monotone(lane, full, Cell::Zero);
    lemma_count_monotone(lane, full, Cell::One);
}

/// Two lanes that two distinct complete lanes extend are not determined
/// and the same.
pub proof fn lemma_parts_of_distinct_lanes(full: Lane, other_full: Lane, lane: Lane, other: Lane)
    requires
        lane_complete(full),
        lanes_distinct(full, other_full),
        lane_extends(full, lane),
        lane_extends(other_full, other),
    ensures
        lanes_distinct(lane, other),
{
    let k = choose|k: int| 0 <= k < full.len() && k < other_full.len() && #[trigger] differ_at(full, other_full, k);
    assert(full[k] is Some);
    assert(differ_at(lane, other, k));
}

/// A grid that has a solution breaks no rule.
pub proof fn lemma_solvable_is_valid(full: Cells, cells: Cells)
    requires
        solves(full, cells),
    ensures
        grid_valid(cells),
        well_formed(cells),
{
    assert(lane_extends(full[0], cells[0]));
    assert forall|i: int| 0 <= i < cells.len() implies (#[trigger] cells[i]).len() == width_of(
        cells,
    ) by {
        assert(lane_extends(full[i], cells[i]));
    }
    assert forall|i: int| 0 <= i < cells.len() implies lane_ok(#[trigger] cells[i]) by {
        assert(lane_extends(full[i], cells[i]));
        assert(lane_complete(full[i]) && lane_ok(full[i]));
        lemma_part_of_solved_lane(full[i], cells[i]);
    }
    assert forall|i: int, k: int| 0 <= i < k < cells.len() implies lanes_distinct(
        #[trigger] cells[i],
        #[trigger] cells[k],
    ) by {
        assert(lane_extends(full[i], cells[i]));
        assert(lane_extends(full[k], cells[k]));
        assert(lane_complete(full[i]));
        assert(lanes_distinct(full[i], full[k]));
        lemma_parts_of_distinct_lanes(full[i], full[k], cells[i], cells[k]);
    }
    assert forall|j: int| 0 <= j < width_of(cells) implies lane_extends(
        #[trigger] column_of(full, j),
        column_of(cells, j),
    ) && lane_complete(column_of(full, j)) by {
        let whole = column_of(full, j);
        let part = column_of(cells, j);
        assert forall|a: int| 0 <= a < whole.len() implies (#[trigger] whole[a]) is Some by {
            assert(lane_complete(full[a]));
            assert(full[a][j] is Some);
        }
        assert forall|a: int| 0 <= a < part.len() && (#[trigger] part[a]) is Some implies whole[a]
            == part[a] by {
            assert(lane_extends(full[a], cells[a]));
            assert(cells[a][j] is Some);
        }
    }
    assert forall|j: int| 0 <= j < width_of(cells) implies lane_ok(
        #[trigger] column_of(cells, j),
    ) by {
        assert(lane_ok(column_of(full, j)));
        assert(lane_extends(column_of(full, j), column_of(cells, j)));
        lemma_part_of_solved_lane(column_of(full, j), column_of(cells, j));
    }
    assert forall|j: int, k: int| 0 <= j < k < width_of(cells) implies lanes_distinct(
        #[trigger] column_of(cells, j),
        #[trigger] column_of(cells, k),
    ) by {
        assert(lanes_distinct(column_of(full, j), column_of(full, k)));
        assert(lane_extends(column_of(full, j), column_of(cells, j)));
        assert(lane_extends(column_of(full, k), column_of(cells, k)));
        lemma_parts_of_distinct_lanes(
            column_of(full, j),
            column_of(full, k),
            column_of(cells, j),
            column_of(cells, k),
        );
    }
}

/// The first undetermined cell of a lane that has one at `n`.
pub proof fn lemma_first_open_cell(lane: Lane, n: int) -> (k: int)
    requires
        0 <= n < lane.len(),
        lane[n] is None,
    ensures
        0 <= k <= n,
        lane[k] is None,
        forall|b: int| 0 <= b < k ==> (#[trigger] lane[b]) is Some,
    decreases n,
{
    if exists|b: int| 0 <= b < n && (#[trigger] lane[b]) is None {
        let b = choose|b: int| 0 <= b < n && (#[trigger] lane[b]) is None;
        lemma_first_open_cell(lane, b)
    } else {
        n
    }
}

/// The first row with an undetermined cell, in a grid that has one in
/// row `n`.
pub proof fn lemma_first_open_row(cells: Cells, n: int) -> (i: int)
    requires
        0 <= n < cells.len(),
        !lane_complete(cells[n]),
    ensures
        0 <= i <= n,
        !lane_complete(cells[i]),
        forall|a: int| 0 <= a < i ==> lane_complete(#[trigger] cells[a]),
    decreases n,
{
    if exists|a: int| 0 <= a < n && !lane_complete(#[trigger] cells[a]) {
        let a = choose|a: int| 0 <= a < n && !lane_complete(#[trigger] cells[a]);
        lemma_first_open_row(cells, a)
    } else {
        n
    }
}

/// A grid that is not complete has a first undetermined cell.
pub proof fn lemma_first_empty_exists(cells: Cells) -> (place: (int, int))
    requires
        !grid_complete(cells),
    ensures
        first_empty_at(cells, place.0, place.1),
{
    let n = choose|n: int| 0 <= n < cells.len() && !lane_complete(#[trigger] cells[n]);
    let i = lemma_first_open_row(cells, n);
    let m = choose|m: int| 0 <= m < cells[i].len() && !((#[trigger] cells[i][m]) is Some);
    let j = lemma_first_open_cell(cells[i], m);
    (i, j)
}

/// Determining an undetermined cell keeps the shape of the grid and all
/// other cells, and leaves one undetermined cell less.
pub proof fn lemma_set_open_cell(cells: Cells, i: int, j: int, c: Cell)
    requires
        0 <= i < cells.len(),
        0 <= j < cells[i].len(),
        cells[i][j] is None,
    ensures
        grid_extends(set_cell(cells, i, j, Some(c)), cells),
        width_of(set_cell(cells, i, j, Some(c))) == width_of(cells),
        rectangular(cells) ==> rectangular(set_cell(cells, i, j, Some(c))),
        well_formed(cells) ==> well_formed(set_cell(cells, i, j, Some(c))),
        empties(set_cell(cells, i, j, Some(c))) < empties(cells),
{
    let next = set_cell(cells, i, j, Some(c));
    assert forall|a: int| 0 <= a < cells.len() implies lane_extends(
        #[trigger] next[a],
        #[trigger] cells[a],
    ) by {}
    assert(next[i][j] != cells[i][j]);
    lemma_extends_fewer_empties(next, cells);
    if rectangular(cells) {
        assert forall|a: int| 0 <= a < next.len() implies (#[trigger] next[a]).len() == width_of(
            next,
        ) by {
            assert(cells[a].len() == width_of(cells));
            assert(cells[0].len() == width_of(cells));
        }
    }
}

} // verus!
