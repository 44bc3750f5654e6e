use vstd::prelude::*;
use std::ops::Not;
use crate::cell::{Cell, opposite};
use crate::grid::Grid;
use crate::index::Index;
use crate::lane::{
    Lane, count_of, lane_complete, lane_extends, lane_ok, lane_solved, lemma_count_monotone,
    lemma_count_update, lemma_solved_counts,
};
use crate::model::{
    Cells, column_of, grid_extends, lemma_cells_equal, lemma_extends_squeeze,
    lemma_extends_transitive, lemma_set_cell_columns, rectangular, solves, well_formed, width_of,
};

verus! {

/// The value that the lane holds more often than the other and that is
/// `missing` cells short of half the lane. Zeros are looked at first.
pub open spec fn almost(lane: Lane, missing: int) -> Option<Cell> {
    let zeros = count_of(lane, Cell::Zero);
    let ones = count_of(lane, Cell::One);
    if zeros > ones && zeros + missing == lane.len() / 2 {
        Some(Cell::Zero)
    } else if ones > zeros && ones + missing == lane.len() / 2 {
        Some(Cell::One)
    } else {
        None
    }
}

/// The value of which the lane is close to its share: one cell short of
/// it, or else two.
pub open spec fn surplus(lane: Lane) -> Option<Cell> {
    if almost(lane, 1) is Some {
        almost(lane, 1)
    } else {
        almost(lane, 2)
    }
}

/// How many cells the lane is short of its share of that value.
pub open spec fn missing_of(lane: Lane) -> int {
    if almost(lane, 1) is Some {
        1
    } else {
        2
    }
}

/// The lane with `v` in every undetermined cell.
pub open spec fn fill_open(lane: Lane, v: Cell) -> Lane {
    Seq::new(lane.len(), |k: int| if lane[k] is None {
        Some(v)
    } else {
        lane[k]
    })
}

/// The lane with `c` in the cell `i` and the other value in all other
/// undetermined cells.
pub open spec fn trial_one(lane: Lane, c: Cell, i: int) -> Lane {
    fill_open(lane, opposite(c)).update(i, Some(c))
}

/// The lane with `c` in the cells `i` and `j` and the other value in all
/// other undetermined cells.
pub open spec fn trial_two(lane: Lane, c: Cell, i: int, j: int) -> Lane {
    fill_open(lane, opposite(c)).update(i, Some(c)).update(j, Some(c))
}

/// The undetermined cell `i` can hold `c`, of which `missing` cells are
/// missing: with `c` there, in one more undetermined cell where two are
/// missing, and the other value in the rest, the lane meets its rules.
pub open spec fn can_hold(lane: Lane, c: Cell, missing: int, i: int) -> bool {
    if missing == 1 {
        lane_ok(trial_one(lane, c, i))
    } else {
        exists|j: int|
            0 <= j < lane.len() && j != i && lane[j] is None && lane_ok(
                #[trigger] trial_two(lane, c, i, j),
            )
    }
}

/// The cell `k` is undetermined and cannot hold the value of which the
/// lane is close to its share.
pub open spec fn ruled_out(lane: Lane, k: int) -> bool {
    &&& lane[k] is None
    &&& surplus(lane) is Some
    &&& !can_hold(lane, surplus(lane)->0, missing_of(lane), k)
}

/// The lane after looking ahead: each undetermined cell that cannot hold
/// the value of which the lane is close to its share gets the other value.
pub open spec fn lookahead_lane(lane: Lane) -> Lane {
    Seq::new(lane.len(), |k: int| if ruled_out(lane, k) {
        Some(opposite(surplus(lane)->0))
    } else {
        lane[k]
    })
}

/// `list` holds, in rising order, the places of the undetermined cells of
/// `lane`.
pub open spec fn lists_open(list: Seq<usize>, lane: Lane) -> bool {
    &&& forall|n: int| 0 <= n < list.len() ==> (#[trigger] list[n]) < lane.len() && lane[list[n] as int] is None
    &&& forall|n: int, m: int| 0 <= n < m < list.len() ==> (#[trigger] list[n]) < (#[trigger] list[m])
    &&& forall|k: int|
        0 <= k < lane.len() && (#[trigger] lane[k]) is None ==> exists|n: int|
            0 <= n < list.len() && #[trigger] list[n] == k
}

/// `list` holds, in rising order, the cells of `lane` below `bound` that
/// looking ahead fills in, each with its new value.
pub open spec fn lists_ruled_out(list: Seq<(usize, Option<Cell>)>, lane: Lane, bound: int) -> bool {
    &&& forall|n: int|
        0 <= n < list.len() ==> {
            &&& (#[trigger] list[n]).0 < bound
            &&& ruled_out(lane, list[n].0 as int)
            &&& list[n].1 == lookahead_lane(lane)[list[n].0 as int]
        }
    &&& forall|n: int, m: int| 0 <= n < m < list.len() ==> (#[trigger] list[n]).0 < (#[trigger] list[m]).0
    &&& forall|k: int|
        0 <= k < bound && k < lane.len() && #[trigger] ruled_out(lane, k) ==> exists|n: int|
            0 <= n < list.len() && (#[trigger] list[n]).0 == k
}

/// The entry `n` of `list` is a cell other than `i` with which `i` can
/// hold `c`.
pub open spec fn pairs_at(lane: Lane, c: Cell, i: int, list: Seq<usize>, n: int) -> bool {
    list[n] != i && lane_ok(trial_two(lane, c, i, list[n] as int))
}

/// Looking ahead in every row.
pub open spec fn lookahead_rows(cells: Cells) -> Cells {
    Seq::new(cells.len(), |i: int| lookahead_lane(cells[i]))
}

/// Looking ahead in every column.
pub open spec fn lookahead_columns(cells: Cells) -> Cells {
    Seq::new(
        cells.len(),
        |i: int| Seq::new(width_of(cells), |j: int| lookahead_lane(column_of(cells, j))[i]),
    )
}

/// One round of looking ahead: in the rows, then in the columns.
pub open spec fn lookahead_step(cells: Cells) -> Cells {
    lookahead_columns(lookahead_rows(cells))
}

/// Looking ahead keeps the length of a lane and its determined cells.
pub proof fn lemma_lookahead_lane_extends(lane: Lane)
    ensures
        lane_extends(lookahead_lane(lane), lane),
{
}

/// In a complete lane that extends `lane` and holds `c` in the cells `i`
/// and `j`, which `lane` leaves open, and nowhere else more often than
/// `lane`, every other cell that `lane` leaves open holds the other value.
/// With `i == j` this speaks of one cell.
proof fn lemma_rest_is_opposite(full: Lane, lane: Lane, c: Cell, i: int, j: int, k: int)
    requires
        lane_complete(full),
        lane_extends(full, lane),
        0 <= i < lane.len(),
        0 <= j < lane.len(),
        0 <= k < lane.len(),
        lane[i] is None,
        lane[j] is None,
        lane[k] is None,
        full[i] == Some(c),
        full[j] == Some(c),
        k != i,
        k != j,
        count_of(full, c) == count_of(lane, c) + (if i == j {
            1int
        } else {
            2int
        }),
    ensures
        full[k] == Some(opposite(c)),
{
    assert(full[k] is Some);
    if full[k] == Some(c) {
        let one = lane.update(i, Some(c));
        let two = one.update(j, Some(c));
        let three = two.update(k, Some(c));
        lemma_count_update(lane, i, Some(c), c);
        lemma_count_update(one, j, Some(c), c);
        lemma_count_update(two, k, Some(c), c);
        assert forall|m: int| 0 <= m < three.len() && #[trigger] three[m] == Some(c) implies full[m]
            == Some(c) by {
            if m != i && m != j && m != k {
                assert(lane[m] is Some);
            }
        }
        lemma_count_monotone(three, full, c);
    }
}

/// In a solved lane that extends `lane` and holds `c` once more, the one
/// cell `i` that `lane` leaves open and that holds `c` makes the lane the
/// trial with `c` at `i`.
proof fn lemma_full_is_trial_one(full: Lane, lane: Lane, c: Cell, i: int)
    requires
        lane_complete(full),
        lane_extends(full, lane),
        0 <= i < lane.len(),
        lane[i] is None,
        full[i] == Some(c),
        count_of(full, c) == count_of(lane, c) + 1,
    ensures
        full == trial_one(lane, c, i),
{
    let trial = trial_one(lane, c, i);
    assert forall|k: int| 0 <= k < full.len() implies full[k] == trial[k] by {
        if lane[k] is None && k != i {
            lemma_rest_is_opposite(full, lane, c, i, i, k);
        } else if lane[k] is Some {
            assert(full[k] == lane[k]);
        }
    }
    assert(full =~= trial);
}

/// In a solved lane that extends `lane` and holds `c` twice more, with `c`
/// in the cell `i` that `lane` leaves open, another such cell holds `c`,
/// and the lane is the trial with `c` at both.
proof fn lemma_full_is_trial_two(full: Lane, lane: Lane, c: Cell, i: int) -> (j: int)
    requires
        lane_complete(full),
        lane_extends(full, lane),
        0 <= i < lane.len(),
        lane[i] is None,
        full[i] == Some(c),
        count_of(full, c) == count_of(lane, c) + 2,
    ensures
        0 <= j < lane.len(),
        j != i,
        lane[j] is None,
        full == trial_two(lane, c, i, j),
{
    let one = lane.update(i, Some(c));
    lemma_count_update(lane, i, Some(c), c);
    if forall|m: int| 0 <= m < full.len() && #[trigger] full[m] == Some(c) ==> one[m] == Some(c) {
        lemma_count_monotone(full, one, c);
        assert(false);
    }
    let j = choose|m: int| 0 <= m < full.len() && #[trigger] full[m] == Some(c) && one[m] != Some(c);
    assert(j != i);
    assert(lane[j] is Some ==> full[j] == lane[j]);
    let trial = trial_two(lane, c, i, j);
    assert forall|k: int| 0 <= k < full.len() implies full[k] == trial[k] by {
        if lane[k] is None && k != i && k != j {
            lemma_rest_is_opposite(full, lane, c, i, j, k);
        } else if lane[k] is Some {
            assert(full[k] == lane[k]);
        }
    }
    assert(full =~= trial);
    j
}

/// Every solved lane of even length that extends `lane` also extends the
/// lane after looking ahead: a cell that is ruled out for a value holds
/// that value in no solution.
pub proof fn lemma_lookahead_lane_keeps_solutions(full: Lane, lane: Lane)
    requires
        lane_solved(full),
        full.len() % 2 == 0,
        lane_extends(full, lane),
    ensures
        lane_extends(full, lookahead_lane(lane)),
{
    let next = lookahead_lane(lane);
    assert forall|k: int| 0 <= k < next.len() && (#[trigger] next[k]) is Some implies full[k]
        == next[k] by {
        if ruled_out(lane, k) {
            let c = surplus(lane)->0;
            let missing = missing_of(lane);
            lemma_solved_counts(full, c);
            assert(full[k] is Some);
            if full[k] == Some(c) {
                if missing == 1 {
                    lemma_full_is_trial_one(full, lane, c, k);
                } else {
                    let j = lemma_full_is_trial_two(full, lane, c, k);
                    assert(lane_ok(trial_two(lane, c, k, j)));
                }
                assert(false);
            }
        } else {
            assert(lane[k] is Some);
        }
    }
}

/// Looking ahead in the rows keeps the shape of the grid and its
/// determined cells.
pub proof fn lemma_lookahead_rows_extends(cells: Cells)
    ensures
        grid_extends(lookahead_rows(cells), cells),
        rectangular(cells) ==> rectangular(lookahead_rows(cells)),
        width_of(lookahead_rows(cells)) == width_of(cells),
        well_formed(cells) ==> well_formed(lookahead_rows(cells)),
{
    let next = lookahead_rows(cells);
    assert forall|i: int| 0 <= i < cells.len() implies lane_extends(
        #[trigger] next[i],
        #[trigger] cells[i],
    ) by {
        lemma_lookahead_lane_extends(cells[i]);
    }
    if cells.len() > 0 {
        assert(lane_extends(next[0], cells[0]));
    }
    if rectangular(cells) {
        assert forall|i: int| 0 <= i < next.len() implies (#[trigger] next[i]).len() == width_of(
            next,
        ) by {
            assert(lane_extends(next[i], cells[i]));
        }
    }
}

/// Looking ahead in the columns keeps the shape of the grid and its
/// determined cells.
pub proof fn lemma_lookahead_columns_extends(cells: Cells)
    requires
        rectangular(cells),
    ensures
        grid_extends(lookahead_columns(cells), cells),
        rectangular(lookahead_columns(cells)),
        width_of(lookahead_columns(cells)) == width_of(cells),
        well_formed(cells) ==> well_formed(lookahead_columns(cells)),
{
    let next = lookahead_columns(cells);
    assert forall|i: int| 0 <= i < cells.len() implies lane_extends(
        #[trigger] next[i],
        #[trigger] cells[i],
    ) by {
        assert forall|j: int| 0 <= j < cells[i].len() && (#[trigger] cells[i][j]) is Some implies next[i][j]
            == cells[i][j] by {
            lemma_lookahead_lane_extends(column_of(cells, j));
            assert(column_of(cells, j)[i] is Some);
        }
    }
}

/// One round of looking ahead keeps the shape of the grid and its
/// determined cells: no cell goes back to undetermined or changes its
/// value.
pub proof fn lemma_lookahead_step_extends(cells: Cells)
    requires
        rectangular(cells),
    ensures
        grid_extends(lookahead_step(cells), cells),
        rectangular(lookahead_step(cells)),
        width_of(lookahead_step(cells)) == width_of(cells),
        well_formed(cells) ==> well_formed(lookahead_step(cells)),
{
    lemma_lookahead_rows_extends(cells);
    lemma_lookahead_columns_extends(lookahead_rows(cells));
    lemma_extends_transitive(cells, lookahead_rows(cells), lookahead_step(cells));
}

/// Every solution of a grid is a solution of the grid after looking ahead
/// in the rows.
pub proof fn lemma_lookahead_rows_keeps_solutions(full: Cells, cells: Cells)
    requires
        solves(full, cells),
    ensures
        solves(full, lookahead_rows(cells)),
{
    let next = lookahead_rows(cells);
    assert forall|i: int| 0 <= i < next.len() implies lane_extends(
        #[trigger] full[i],
        #[trigger] next[i],
    ) by {
        assert(lane_extends(full[i], cells[i]));
        assert(lane_ok(full[i]));
        assert(lane_complete(full[i]));
        lemma_lookahead_lane_keeps_solutions(full[i], cells[i]);
    }
}

/// Every solution of a grid is a solution of the grid after looking ahead
/// in the columns.
pub proof fn lemma_lookahead_columns_keeps_solutions(full: Cells, cells: Cells)
    requires
        solves(full, cells),
    ensures
        solves(full, lookahead_columns(cells)),
{
    let next = lookahead_columns(cells);
    assert(lane_extends(full[0], cells[0]));
    assert forall|i: int| 0 <= i < next.len() implies lane_extends(
        #[trigger] full[i],
        #[trigger] next[i],
    ) by {
        assert(lane_extends(full[i], cells[i]));
        assert forall|j: int| 0 <= j < next[i].len() && (#[trigger] next[i][j]) is Some implies full[i][j]
            == next[i][j] by {
            let whole = column_of(full, j);
            let part = column_of(cells, j);
            assert(lane_ok(whole));
            assert forall|a: int| 0 <= a < whole.len() implies (#[trigger] whole[a]) is Some by {
                assert(lane_complete(full[a]));
                assert(full[a][j] is Some);
            }
            assert forall|a: int| 0 <= a < part.len() && (#[trigger] part[a]) is Some implies whole[a]
                == part[a] by {
                assert(lane_extends(full[a], cells[a]));
                assert(cells[a][j] is Some);
            }
            lemma_lookahead_lane_keeps_solutions(whole, part);
            assert(lookahead_lane(part)[i] is Some);
            assert(whole[i] == full[i][j]);
        }
    }
}

/// Every solution of a grid is a solution of the grid after one round of
/// looking ahead: it fills in only what every solution holds.
pub proof fn lemma_lookahead_step_keeps_solutions(full: Cells, cells: Cells)
    requires
        solves(full, cells),
    ensures
        solves(full, lookahead_step(cells)),
{
    lemma_lookahead_rows_keeps_solutions(full, cells);
    lemma_lookahead_columns_keeps_solutions(full, lookahead_rows(cells));
}

/// Up to which cell of the lane the first `n` entries of `list` have been
/// dealt with: up to the next entry, or to the end of the lane.
pub open spec fn dealt_with(list: Seq<(usize, Option<Cell>)>, n: int, len: int) -> int {
    if n < list.len() {
        list[n].0 as int
    } else {
        len
    }
}

/// Between the cells that looking ahead fills in, the lane stays as it is.
proof fn lemma_between_entries(list: Seq<(usize, Option<Cell>)>, lane: Lane, n: int, k: int)
    requires
        lists_ruled_out(list, lane, lane.len() as int),
        0 <= n <= list.len(),
        0 <= k < lane.len(),
        n > 0 ==> list[n - 1].0 < k,
        k < dealt_with(list, n, lane.len() as int),
    ensures
        lookahead_lane(lane)[k] == lane[k],
{
    if ruled_out(lane, k) {
        let m = choose|m: int| 0 <= m < list.len() && (#[trigger] list[m]).0 == k;
        if m < n - 1 {
            assert(list[m].0 < list[n - 1].0);
        } else if m > n {
            assert(list[n].0 < list[m].0);
        }
        assert(false);
    }
}

impl Grid {
    /// The value that the lane holds more often than the other and that is
    /// `missing` cells short of half the lane.
    pub fn find_almost(lane: &Vec<Option<Cell>>, missing: usize) -> (found: Option<Cell>)
        ensures
            found == almost(lane@, missing as int),
    {
        let counts = Self::find_count(lane);
        let half = counts.size / 2;
        let all = Cell::iter();
        for n in 0..all.len()
            invariant
                all@ == seq![Cell::Zero, Cell::One],
                counts.zeros == count_of(lane@, Cell::Zero),
                counts.ones == count_of(lane@, Cell::One),
                half == lane@.len() / 2,
                n >= 1 ==> !(counts.zeros > counts.ones && counts.zeros + missing == half),
                n >= 2 ==> !(counts.ones > counts.zeros && counts.ones + missing == half),
        {
            let cell = all[n];
            let here = counts.count(cell);
            let there = counts.count(cell.not());
            if here > there && half >= missing && here == half - missing {
                return Some(cell);
            }
        }
        None
    }

    /// The places of the undetermined cells of a lane, and the lane with
    /// `v` in each of them.
    fn fill_open(lane: &Vec<Option<Cell>>, v: Cell) -> (filled: (Vec<usize>, Vec<Option<Cell>>))
        ensures
            lists_open(filled.0@, lane@),
            filled.1@ == fill_open(lane@, v),
    {
        let mut none_idx: Vec<usize> = Vec::new();
        let mut trial: Vec<Option<Cell>> = Vec::new();
        for k in 0..lane.len()
            invariant
                trial@ == fill_open(lane@, v).take(k as int),
                forall|n: int|
                    0 <= n < none_idx@.len() ==> (#[trigger] none_idx@[n]) < k
                        && lane@[none_idx@[n] as int] is None,
                forall|n: int, m: int|
                    0 <= n < m < none_idx@.len() ==> (#[trigger] none_idx@[n])
                        < (#[trigger] none_idx@[m]),
                forall|a: int|
                    0 <= a < k && (#[trigger] lane@[a]) is None ==> exists|n: int|
                        0 <= n < none_idx@.len() && #[trigger] none_idx@[n] == a,
        {
            let ghost before = none_idx@;
            match lane[k] {
                Some(c) => {
                    trial.push(Some(c));
                },
                None => {
                    none_idx.push(k);
                    trial.push(Some(v));
                },
            }
            proof {
                assert(trial@ =~= fill_open(lane@, v).take(k + 1));
                assert forall|a: int| 0 <= a < k + 1 && (#[trigger] lane@[a]) is None implies exists|
                    n: int,
                |
                    0 <= n < none_idx@.len() && #[trigger] none_idx@[n] == a by {
                    if a < k {
                        let n = choose|n: int| 0 <= n < before.len() && #[trigger] before[n] == a;
                        assert(none_idx@[n] == a);
                    } else {
                        assert(none_idx@[none_idx@.len() - 1] == a);
                    }
                }
            }
        }
        proof {
            assert(trial@ =~= fill_open(lane@, v));
        }
        (none_idx, trial)
    }

    /// Tries `cell` in the undetermined cell `i` of `lane`. `trial` is the
    /// lane with the other value in every undetermined cell, and is handed
    /// back as it came.
    fn try_place(
        lane: &Vec<Option<Cell>>,
        trial: &mut Vec<Option<Cell>>,
        none_idx: &Vec<usize>,
        cell: Cell,
        num_guess: usize,
        i: usize,
    ) -> (possible: bool)
        requires
            old(trial)@ == fill_open(lane@, opposite(cell)),
            lists_open(none_idx@, lane@),
            i < lane@.len(),
            lane@[i as int] is None,
            num_guess == 1 || num_guess == 2,
        ensures
            final(trial)@ == old(trial)@,
            possible == can_hold(lane@, cell, num_guess as int, i as int),
    {
        trial[i] = Some(cell);
        let possible = if num_guess == 1 {
            Self::check_lane(trial).is_ok()
        } else {
            let mut found = false;
            let mut m: usize = 0;
            while m < none_idx.len() && !found
                invariant
                    m <= none_idx@.len(),
                    lists_open(none_idx@, lane@),
                    i < lane@.len(),
                    trial@ == trial_one(lane@, cell, i as int),
                    found ==> can_hold(lane@, cell, 2, i as int),
                    !found ==> forall|n: int|
                        0 <= n < m ==> !#[trigger] pairs_at(lane@, cell, i as int, none_idx@, n),
                decreases none_idx@.len() - m + (if found { 0int } else { 1int }),
            {
                let j = none_idx[m];
                if j != i {
                    trial[j] = Some(cell);
                    assert(trial@ == trial_two(lane@, cell, i as int, j as int));
                    found = Self::check_lane(trial).is_ok();
                    trial[j] = Some(cell.not());
                    proof {
                        assert(trial@ =~= trial_one(lane@, cell, i as int));
                    }
                }
                m = m + 1;
            }
            proof {
                if !found {
                    assert forall|j: int|
                        0 <= j < lane@.len() && j != i && lane@[j] is None implies !lane_ok(
                        #[trigger] trial_two(lane@, cell, i as int, j),
                    ) by {
                        let n = choose|n: int| 0 <= n < none_idx@.len() && #[trigger] none_idx@[n] == j;
                        assert(!pairs_at(lane@, cell, i as int, none_idx@, n));
                    }
                }
            }
            found
        };
        trial[i] = Some(cell.not());
        proof {
            assert(trial@ =~= old(trial)@);
        }
        possible
    }

    /// Looks ahead in a lane that is one or two cells short of its share of
    /// one value: the undetermined cells that cannot hold that value, in
    /// rising order, each with the other value.
    pub fn try_missings(lane: &Vec<Option<Cell>>) -> (forced: Vec<(usize, Option<Cell>)>)
        ensures
            lists_ruled_out(forced@, lane@, lane@.len() as int),
    {
        let mut result: Vec<(usize, Option<Cell>)> = Vec::new();
        for num_guess in 1..3usize
            invariant
                num_guess == 1 ==> result@.len() == 0,
                num_guess == 2 && almost(lane@, 1) is None ==> result@.len() == 0,
                num_guess == 2 && almost(lane@, 1) is Some ==> lists_ruled_out(
                    result@,
                    lane@,
                    lane@.len() as int,
                ),
                num_guess == 3 ==> lists_ruled_out(result@, lane@, lane@.len() as int),
        {
            let almost = Self::find_almost(lane, num_guess);
            if let Some(cell) = almost {
                assert(surplus(lane@) == Some(cell) && missing_of(lane@) == num_guess);
                let (none_idx, mut trial) = Self::fill_open(lane, cell.not());
                for n in 0..none_idx.len()
                    invariant
                        num_guess == 1 || num_guess == 2,
                        surplus(lane@) == Some(cell),
                        missing_of(lane@) == num_guess,
                        lists_open(none_idx@, lane@),
                        trial@ == fill_open(lane@, opposite(cell)),
                        lists_ruled_out(
                            result@,
                            lane@,
                            if n < none_idx@.len() {
                                none_idx@[n as int] as int
                            } else {
                                lane@.len() as int
                            },
                        ),
                {
                    let i = none_idx[n];
                    let ghost before = result@;
                    let is_possible = Self::try_place(lane, &mut trial, &none_idx, cell, num_guess, i);
                    if !is_possible {
                        result.push((i, Some(cell.not())));
                    }
                    proof {
                        let bound = if n + 1 < none_idx@.len() {
                            none_idx@[n + 1] as int
                        } else {
                            lane@.len() as int
                        };
                        assert forall|k: int|
                            0 <= k < bound && k < lane@.len() && #[trigger] ruled_out(
                                lane@,
                                k,
                            ) implies exists|m: int|
                            0 <= m < result@.len() && (#[trigger] result@[m]).0 == k by {
                            if k < i {
                                let m = choose|m: int|
                                    0 <= m < before.len() && (#[trigger] before[m]).0 == k;
                                assert(result@[m].0 == k);
                            } else if k == i {
                                assert(result@[result@.len() - 1].0 == k);
                            } else {
                                let m = choose|m: int|
                                    0 <= m < none_idx@.len() && #[trigger] none_idx@[m] == k;
                                if m <= n {
                                    assert(none_idx@[m] <= none_idx@[n as int]);
                                } else if n + 1 < none_idx@.len() && m > n + 1 {
                                    assert(none_idx@[n + 1] < none_idx@[m]);
                                }
                                assert(false);
                            }
                        }
                        assert forall|a: int, b: int| 0 <= a < b < result@.len() implies (
                        #[trigger] result@[a]).0 < (#[trigger] result@[b]).0 by {
                            if b < before.len() {
                                assert(before[a].0 < before[b].0);
                            } else {
                                assert(before[a].0 < i);
                            }
                        }
                        assert forall|m: int| 0 <= m < result@.len() implies {
                            &&& (#[trigger] result@[m]).0 < bound
                            &&& ruled_out(lane@, result@[m].0 as int)
                            &&& result@[m].1 == lookahead_lane(lane@)[result@[m].0 as int]
                        } by {
                            if n + 1 < none_idx@.len() {
                                assert(none_idx@[n as int] < none_idx@[n + 1]);
                            }
                            if m < before.len() {
                                assert(before[m].0 < i);
                            }
                        }
                    }
                }
            }
        }
        result
    }

    /// Looks ahead in every row and fills in what that rules out.
    pub fn fill_heuristic_rows(&mut self) -> (changed: bool)
        requires
            old(self).wf(),
        ensures
            final(self).wf(),
            final(self)@ == lookahead_rows(old(self)@),
            changed == (final(self)@ != old(self)@),
    {
        let mut changed = false;
        let ghost start = self@;
        let height = self.height;
        for i in 0..height
            invariant
                self.wf(),
                well_formed(start),
                height == start.len(),
                self@.len() == start.len(),
                width_of(self@) == width_of(start),
                forall|a: int| 0 <= a < i ==> #[trigger] self@[a] == lookahead_lane(start[a]),
                forall|a: int| i <= a < start.len() ==> #[trigger] self@[a] == start[a],
                changed == (self@ != start),
        {
            let lane = self.line(i);
            let forced = Self::try_missings(&lane);
            let ghost above = self@;
            let ghost row = start[i as int];
            proof {
                self.lemma_row(i as int);
                assert forall|k: int| 0 <= k < dealt_with(forced@, 0, row.len() as int) implies lookahead_lane(
                    row,
                )[k] == #[trigger] row[k] by {
                    lemma_between_entries(forced@, row, 0, k);
                }
            }
            for n in 0..forced.len()
                invariant
                    self.wf(),
                    well_formed(start),
                    i < start.len(),
                    row == start[i as int],
                    row.len() == width_of(start),
                    self@.len() == start.len(),
                    width_of(self@) == width_of(start),
                    lists_ruled_out(forced@, row, row.len() as int),
                    self@[i as int].len() == row.len(),
                    forall|k: int|
                        0 <= k < dealt_with(forced@, n as int, row.len() as int) ==> (
                        #[trigger] self@[i as int][k]) == lookahead_lane(row)[k],
                    forall|k: int|
                        dealt_with(forced@, n as int, row.len() as int) <= k < row.len() ==> (
                        #[trigger] self@[i as int][k]) == row[k],
                    above.len() == start.len(),
                    forall|a: int| 0 <= a < start.len() && a != i ==> #[trigger] self@[a] == above[a],
                    changed == (self@ != start),
            {
                let (j, cell) = forced[n];
                let ghost before = self@;
                let did = self.set(Index::from((i, j)), cell);
                changed = changed || did;
                proof {
                    assert(ruled_out(row, j as int));
                    assert(self@[i as int][j as int] != start[i as int][j as int]);
                    assert forall|k: int|
                        0 <= k < dealt_with(forced@, n + 1, row.len() as int) implies (
                    #[trigger] self@[i as int][k]) == lookahead_lane(row)[k] by {
                        if k > j {
                            lemma_between_entries(forced@, row, n + 1, k);
                            assert(before[i as int][k] == row[k]);
                        } else if k < j {
                            assert(before[i as int][k] == lookahead_lane(row)[k]);
                        }
                    }
                    assert forall|k: int|
                        dealt_with(forced@, n + 1, row.len() as int) <= k < row.len() implies (
                    #[trigger] self@[i as int][k]) == row[k] by {
                        if n + 1 < forced@.len() {
                            assert(forced@[n as int].0 < forced@[n + 1].0);
                        }
                        assert(before[i as int][k] == row[k]);
                    }
                }
            }
            proof {
                assert(self@[i as int] =~= lookahead_lane(row));
            }
        }
        proof {
            assert(self@ =~= lookahead_rows(start));
        }
        changed
    }

    /// Looks ahead in every column and fills in what that rules out.
    pub fn fill_heuristic_columns(&mut self) -> (changed: bool)
        requires
            old(self).wf(),
        ensures
            final(self).wf(),
            final(self)@ == lookahead_columns(old(self)@),
            changed == (final(self)@ != old(self)@),
    {
        let mut changed = false;
        let ghost start = self@;
        let width = self.width;
        for j in 0..width
            invariant
                self.wf(),
                well_formed(start),
                width == width_of(start),
                self@.len() == start.len(),
                width_of(self@) == width_of(start),
                forall|b: int|
                    0 <= b < j ==> #[trigger] column_of(self@, b) == lookahead_lane(
                        column_of(start, b),
                    ),
                forall|b: int|
                    j <= b < width_of(start) ==> #[trigger] column_of(self@, b) == column_of(start, b),
                changed == (self@ != start),
        {
            let lane = self.column(j);
            let forced = Self::try_missings(&lane);
            let ghost above = self@;
            let ghost column = column_of(start, j as int);
            proof {
                assert forall|k: int|
                    0 <= k < dealt_with(forced@, 0, column.len() as int) implies lookahead_lane(
                    column,
                )[k] == #[trigger] column[k] by {
                    lemma_between_entries(forced@, column, 0, k);
                }
            }
            for n in 0..forced.len()
                invariant
                    self.wf(),
                    well_formed(start),
                    j < width_of(start),
                    column == column_of(start, j as int),
                    self@.len() == start.len(),
                    width_of(self@) == width_of(start),
                    lists_ruled_out(forced@, column, column.len() as int),
                    forall|k: int|
                        0 <= k < dealt_with(forced@, n as int, column.len() as int) ==> (
                        #[trigger] column_of(self@, j as int)[k]) == lookahead_lane(column)[k],
                    forall|k: int|
                        dealt_with(forced@, n as int, column.len() as int) <= k < column.len() ==> (
                        #[trigger] column_of(self@, j as int)[k]) == column[k],
                    width_of(above) == width_of(start),
                    forall|b: int|
                        0 <= b < width_of(start) && b != j ==> #[trigger] column_of(self@, b)
                            == column_of(above, b),
                    changed == (self@ != start),
            {
                let (i, cell) = forced[n];
                let ghost before = self@;
                let did = self.set(Index::from((i, j)), cell);
                changed = changed || did;
                proof {
                    assert(ruled_out(column, i as int));
                    assert forall|b: int| 0 <= b < width_of(start) implies (b == j
                        ==> #[trigger] column_of(self@, b) == column_of(before, b).update(
                        i as int,
                        cell,
                    )) && (b != j ==> column_of(self@, b) == column_of(before, b)) by {
                        lemma_set_cell_columns(before, i as int, j as int, cell, b);
                    }
                    assert(column[i as int] == start[i as int][j as int]);
                    assert(self@[i as int][j as int] != start[i as int][j as int]);
                    assert forall|k: int|
                        0 <= k < dealt_with(forced@, n + 1, column.len() as int) implies (
                    #[trigger] column_of(self@, j as int)[k]) == lookahead_lane(column)[k] by {
                        if k > i {
                            lemma_between_entries(forced@, column, n + 1, k);
                            assert(column_of(before, j as int)[k] == column[k]);
                        } else if k < i {
                            assert(column_of(before, j as int)[k] == lookahead_lane(column)[k]);
                        }
                    }
                    assert forall|k: int|
                        dealt_with(forced@, n + 1, column.len() as int) <= k < column.len() implies (
                    #[trigger] column_of(self@, j as int)[k]) == column[k] by {
                        if n + 1 < forced@.len() {
                            assert(forced@[n as int].0 < forced@[n + 1].0);
                        }
                        assert(column_of(before, j as int)[k] == column[k]);
                    }
                }
            }
            proof {
                assert(column_of(self@, j as int) =~= lookahead_lane(column));
            }
        }
        proof {
            assert forall|a: int, b: int|
                0 <= a < self@.len() && 0 <= b < self@[a].len() implies self@[a][b]
                == lookahead_columns(start)[a][b] by {
                self.lemma_row(a);
                assert(column_of(self@, b)[a] == self@[a][b]);
            }
            assert forall|a: int| 0 <= a < self@.len() implies (#[trigger] self@[a]).len()
                == lookahead_columns(start)[a].len() by {
                self.lemma_row(a);
            }
            lemma_cells_equal(self@, lookahead_columns(start));
        }
        changed
    }

    /// One round of looking ahead: fills in every cell that looking ahead
    /// rules out for one value, first in the rows, then in the columns, and
    /// says whether any cell was filled in.
    pub fn fill_heuristics(&mut self) -> (changed: bool)
        requires
            old(self).wf(),
        ensures
            final(self).wf(),
            final(self)@ == lookahead_step(old(self)@),
            grid_extends(final(self)@, old(self)@),
            changed == (final(self)@ != old(self)@),
    {
        let by_rows = self.fill_heuristic_rows();
        let by_columns = self.fill_heuristic_columns();
        proof {
            let start = old(self)@;
            let middle = lookahead_rows(start);
            lemma_lookahead_rows_extends(start);
            lemma_lookahead_columns_extends(middle);
            lemma_extends_transitive(start, middle, self@);
            if self@ == start {
                lemma_extends_squeeze(start, middle, self@);
            }
        }
        by_rows || by_columns
    }
}

} // verus!
