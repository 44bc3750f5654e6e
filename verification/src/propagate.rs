use vstd::prelude::*;
use std::ops::Not;
use crate::cell::{Cell, opposite};
use crate::grid::Grid;
use crate::index::Index;
use crate::lane::{
    Lane, count_of, lane_complete, lane_extends, lane_ok, lane_solved,
    lemma_count_monotone, lemma_count_update, lemma_solved_counts, triple_at,
};
use crate::model::{
    Cells, column_of, grid_extends, lemma_extends_squeeze, lemma_extends_transitive,
    lemma_set_cell_columns, rectangular, solves, well_formed, width_of,
};

verus! {

/// What two determined, equal cells force on a third cell that would
/// otherwise complete a run of three: the other value.
pub open spec fn pair_forces(a: Option<Cell>, b: Option<Cell>) -> Option<Cell> {
    if a is Some && a == b {
        Some(opposite(a->0))
    } else {
        None
    }
}

/// What a lane that already holds one value in half of its cells forces on
/// all its undetermined cells: the other value. Zeros are looked at first.
pub open spec fn saturated_by(lane: Lane) -> Option<Cell> {
    if count_of(lane, Cell::Zero) >= lane.len() / 2 {
        Some(Cell::One)
    } else if count_of(lane, Cell::One) >= lane.len() / 2 {
        Some(Cell::Zero)
    } else {
        None
    }
}

/// What the rules force on the cell `k` of `lane`, which they find
/// undetermined. In this order: the value that `saturated` names; the
/// opposite of the two cells before `k`; of the two cells after it; of its
/// two neighbours.
pub open spec fn forced_at(lane: Lane, saturated: Option<Cell>, k: int) -> Option<Cell> {
    if saturated is Some {
        saturated
    } else if k >= 2 && pair_forces(lane[k - 2], lane[k - 1]) is Some {
        pair_forces(lane[k - 2], lane[k - 1])
    } else if k + 2 < lane.len() && pair_forces(lane[k + 1], lane[k + 2]) is Some {
        pair_forces(lane[k + 1], lane[k + 2])
    } else if k >= 1 && k + 1 < lane.len() {
        pair_forces(lane[k - 1], lane[k + 1])
    } else {
        None
    }
}

/// The lane after the rules were applied to its first `n` cells, from the
/// first on, each cell seeing what was filled in before it. `saturated` is
/// fixed for the whole sweep.
pub open spec fn sweep(lane: Lane, saturated: Option<Cell>, n: int) -> Lane
    decreases n,
{
    if n <= 0 {
        lane
    } else {
        let before = sweep(lane, saturated, n - 1);
        if before[n - 1] is None {
            before.update(n - 1, forced_at(before, saturated, n - 1))
        } else {
            before
        }
    }
}

/// One pass of the rules over a lane. Saturation is judged once, on the
/// lane as it is before the pass.
pub open spec fn propagate_lane(lane: Lane) -> Lane {
    sweep(lane, saturated_by(lane), lane.len() as int)
}

/// One pass over every row.
pub open spec fn propagate_rows(cells: Cells) -> Cells {
    Seq::new(cells.len(), |i: int| propagate_lane(cells[i]))
}

/// One pass over every column.
pub open spec fn propagate_columns(cells: Cells) -> Cells {
    Seq::new(
        cells.len(),
        |i: int| Seq::new(width_of(cells), |j: int| propagate_lane(column_of(cells, j))[i]),
    )
}

/// One round of propagation: a pass over the rows, then one over the
/// columns.
pub open spec fn propagate_step(cells: Cells) -> Cells {
    propagate_columns(propagate_rows(cells))
}

/// A sweep keeps the length of the lane, every determined cell, and every
/// cell that it has not reached yet.
pub proof fn lemma_sweep_keeps(lane: Lane, saturated: Option<Cell>, n: int)
    requires
        n <= lane.len(),
    ensures
        lane_extends(sweep(lane, saturated, n), lane),
        forall|k: int| n <= k < lane.len() ==> (#[trigger] sweep(lane, saturated, n)[k]) == lane[k],
    decreases n,
{
    if n > 0 {
        lemma_sweep_keeps(lane, saturated, n - 1);
    }
}

/// A pass over a lane keeps its length and its determined cells.
pub proof fn lemma_propagate_lane_extends(lane: Lane)
    ensures
        lane_extends(propagate_lane(lane), lane),
{
    lemma_sweep_keeps(lane, saturated_by(lane), lane.len() as int);
}

/// In a solved lane, no cell repeats two equal cells that stand together
/// with it in a row of three.
proof fn lemma_pair_forces_sound(full: Lane, before: Lane, saturated: Option<Cell>, k: int)
    requires
        lane_solved(full),
        lane_extends(full, before),
        0 <= k < before.len(),
        saturated is None,
        forced_at(before, saturated, k) is Some,
    ensures
        full[k] == forced_at(before, saturated, k),
{
    assert(full[k] is Some);
    if k >= 2 && pair_forces(before[k - 2], before[k - 1]) is Some {
        assert(full[k - 2] == before[k - 2] && full[k - 1] == before[k - 1]);
        assert(!triple_at(full, k - 2));
    } else if k + 2 < before.len() && pair_forces(before[k + 1], before[k + 2]) is Some {
        assert(full[k + 1] == before[k + 1] && full[k + 2] == before[k + 2]);
        assert(!triple_at(full, k));
    } else {
        assert(full[k - 1] == before[k - 1] && full[k + 1] == before[k + 1]);
        assert(!triple_at(full, k - 1));
    }
}

/// In a solved lane of even length that extends `lane`, a cell that `lane`
/// leaves open holds the value that saturation of `lane` names.
proof fn lemma_saturation_sound(full: Lane, lane: Lane, k: int)
    requires
        lane_solved(full),
        full.len() % 2 == 0,
        lane_extends(full, lane),
        0 <= k < lane.len(),
        lane[k] is None,
        saturated_by(lane) is Some,
    ensures
        full[k] == saturated_by(lane),
{
    let v = saturated_by(lane)->0;
    let c = opposite(v);
    assert(count_of(lane, c) >= lane.len() / 2);
    assert(full[k] is Some);
    if full[k] == Some(c) {
        let more = lane.update(k, Some(c));
        lemma_count_update(lane, k, Some(c), c);
        assert forall|m: int| 0 <= m < more.len() && #[trigger] more[m] == Some(c) implies full[m]
            == Some(c) by {
            if m != k {
                assert(lane[m] is Some);
            }
        }
        lemma_count_monotone(more, full, c);
        lemma_solved_counts(full, c);
    }
}

/// Every solved lane of even length that extends `lane` also extends the
/// lane after a sweep: the rules fill in nothing that a solution could
/// have otherwise.
pub proof fn lemma_sweep_keeps_solutions(full: Lane, lane: Lane, n: int)
    requires
        lane_solved(full),
        full.len() % 2 == 0,
        lane_extends(full, lane),
        n <= lane.len(),
    ensures
        lane_extends(full, sweep(lane, saturated_by(lane), n)),
    decreases n,
{
    if n > 0 {
        let saturated = saturated_by(lane);
        lemma_sweep_keeps_solutions(full, lane, n - 1);
        lemma_sweep_keeps(lane, saturated, n - 1);
        let before = sweep(lane, saturated, n - 1);
        let after = sweep(lane, saturated, n);
        if before[n - 1] is None && forced_at(before, saturated, n - 1) is Some {
            if saturated is Some {
                lemma_saturation_sound(full, lane, n - 1);
            } else {
                lemma_pair_forces_sound(full, before, saturated, n - 1);
            }
            assert forall|k: int| 0 <= k < after.len() && (#[trigger] after[k]) is Some implies full[k]
                == after[k] by {
                if k != n - 1 {
                    assert(before[k] is Some);
                }
            }
        } else {
            assert(after =~= before);
        }
    }
}

/// Every solved lane of even length that extends `lane` also extends the
/// lane after a pass.
pub proof fn lemma_propagate_lane_keeps_solutions(full: Lane, lane: Lane)
    requires
        lane_solved(full),
        full.len() % 2 == 0,
        lane_extends(full, lane),
    ensures
        lane_extends(full, propagate_lane(lane)),
{
    lemma_sweep_keeps_solutions(full, lane, lane.len() as int);
}

/// No rule forces a value on any undetermined cell of the lane.
pub open spec fn lane_settled(lane: Lane) -> bool {
    forall|k: int|
        0 <= k < lane.len() && (#[trigger] lane[k]) is None ==> forced_at(
            lane,
            saturated_by(lane),
            k,
        ) is None
}

/// No rule forces a value on any undetermined cell of the grid, neither
/// in its row nor in its column.
pub open spec fn grid_settled(cells: Cells) -> bool {
    &&& forall|i: int| 0 <= i < cells.len() ==> lane_settled(#[trigger] cells[i])
    &&& forall|j: int| 0 <= j < width_of(cells) ==> lane_settled(#[trigger] column_of(cells, j))
}

/// A sweep over a lane in which no rule forces a value leaves it as it is.
proof fn lemma_sweep_of_settled(lane: Lane, n: int)
    requires
        lane_settled(lane),
        n <= lane.len(),
    ensures
        sweep(lane, saturated_by(lane), n) == lane,
    decreases n,
{
    if n > 0 {
        lemma_sweep_of_settled(lane, n - 1);
        if lane[n - 1] is None {
            assert(lane.update(n - 1, None) =~= lane);
        }
    }
}

/// A sweep that goes further keeps what a shorter one has filled in.
proof fn lemma_sweep_grows(lane: Lane, saturated: Option<Cell>, n: int, m: int)
    requires
        0 <= n <= m <= lane.len(),
    ensures
        lane_extends(sweep(lane, saturated, m), sweep(lane, saturated, n)),
    decreases m - n,
{
    if n < m {
        lemma_sweep_grows(lane, saturated, n, m - 1);
        lemma_sweep_keeps(lane, saturated, m - 1);
        let short = sweep(lane, saturated, n);
        let before = sweep(lane, saturated, m - 1);
        let after = sweep(lane, saturated, m);
        assert forall|k: int| 0 <= k < short.len() && (#[trigger] short[k]) is Some implies after[k]
            == short[k] by {
            assert(before[k] == short[k]);
        }
    }
}

/// A pass leaves a lane as it is exactly where no rule forces a value on
/// any of its undetermined cells.
pub proof fn lemma_lane_fixed_iff_settled(lane: Lane)
    ensures
        propagate_lane(lane) == lane <==> lane_settled(lane),
{
    let saturated = saturated_by(lane);
    if lane_settled(lane) {
        lemma_sweep_of_settled(lane, lane.len() as int);
    }
    if propagate_lane(lane) == lane {
        assert forall|k: int| 0 <= k < lane.len() && (#[trigger] lane[k]) is None implies forced_at(
            lane,
            saturated,
            k,
        ) is None by {
            let before = sweep(lane, saturated, k);
            let after = sweep(lane, saturated, k + 1);
            lemma_sweep_keeps(lane, saturated, k);
            lemma_sweep_grows(lane, saturated, k, lane.len() as int);
            lemma_sweep_grows(lane, saturated, k + 1, lane.len() as int);
            assert forall|m: int| 0 <= m < lane.len() implies before[m] == lane[m] by {
                if before[m] is Some {
                    assert(lane[m] == before[m]);
                }
            }
            assert(before =~= lane);
            assert(after[k] is Some ==> lane[k] == after[k]);
        }
    }
}

/// A pass over the rows keeps the shape of the grid and its determined
/// cells.
pub proof fn lemma_propagate_rows_extends(cells: Cells)
    ensures
        grid_extends(propagate_rows(cells), cells),
        rectangular(cells) ==> rectangular(propagate_rows(cells)),
        width_of(propagate_rows(cells)) == width_of(cells),
        well_formed(cells) ==> well_formed(propagate_rows(cells)),
{
    let next = propagate_rows(cells);
    assert forall|i: int| 0 <= i < cells.len() implies lane_extends(
        #[trigger] next[i],
        #[trigger] cells[i],
    ) by {
        lemma_propagate_lane_extends(cells[i]);
    }
    if cells.len() > 0 {
        assert(lane_extends(next[0], cells[0]));
    }
    if rectangular(cells) {
        assert forall|i: int| 0 <= i < next.len() implies (#[trigger] next[i]).len() == width_of(
            next,
        ) by {
            assert(lane_extends(next[i], cells[i]));
        }
    }
}

/// A pass over the columns keeps the shape of the grid and its determined
/// cells.
pub proof fn lemma_propagate_columns_extends(cells: Cells)
    requires
        rectangular(cells),
    ensures
        grid_extends(propagate_columns(cells), cells),
        rectangular(propagate_columns(cells)),
        width_of(propagate_columns(cells)) == width_of(cells),
        well_formed(cells) ==> well_formed(propagate_columns(cells)),
{
    let next = propagate_columns(cells);
    assert forall|i: int| 0 <= i < cells.len() implies lane_extends(
        #[trigger] next[i],
        #[trigger] cells[i],
    ) by {
        assert forall|j: int| 0 <= j < cells[i].len() && (#[trigger] cells[i][j]) is Some implies next[i][j]
            == cells[i][j] by {
            lemma_propagate_lane_extends(column_of(cells, j));
            assert(column_of(cells, j)[i] is Some);
        }
    }
}

/// One round of propagation keeps the shape of the grid and its determined
/// cells: no cell goes back to undetermined or changes its value.
pub proof fn lemma_propagate_step_extends(cells: Cells)
    requires
        rectangular(cells),
    ensures
        grid_extends(propagate_step(cells), cells),
        rectangular(propagate_step(cells)),
        width_of(propagate_step(cells)) == width_of(cells),
        well_formed(cells) ==> well_formed(propagate_step(cells)),
{
    lemma_propagate_rows_extends(cells);
    lemma_propagate_columns_extends(propagate_rows(cells));
    lemma_extends_transitive(cells, propagate_rows(cells), propagate_step(cells));
}

/// Every solution of a grid is a solution of the grid after a pass over
/// the rows.
pub proof fn lemma_propagate_rows_keeps_solutions(full: Cells, cells: Cells)
    requires
        solves(full, cells),
    ensures
        solves(full, propagate_rows(cells)),
{
    let next = propagate_rows(cells);
    assert forall|i: int| 0 <= i < next.len() implies lane_extends(
        #[trigger] full[i],
        #[trigger] next[i],
    ) by {
        assert(lane_extends(full[i], cells[i]));
        assert(lane_ok(full[i]));
        assert(lane_complete(full[i]));
        lemma_propagate_lane_keeps_solutions(full[i], cells[i]);
    }
}

/// Every solution of a grid is a solution of the grid after a pass over
/// the columns.
pub proof fn lemma_propagate_columns_keeps_solutions(full: Cells, cells: Cells)
    requires
        solves(full, cells),
    ensures
        solves(full, propagate_columns(cells)),
{
    let next = propagate_columns(cells);
    assert(lane_extends(full[0], cells[0]));
    assert forall|i: int| 0 <= i < next.len() implies lane_extends(
        #[trigger] full[i],
        #[trigger] next[i],
    ) by {
        assert(lane_extends(full[i], cells[i]));
        assert forall|j: int| 0 <= j < next[i].len() && (#[trigger] next[i][j]) is Some implies full[i][j]
            == next[i][j] by {
            let whole = column_of(full, j);
            let part = column_of(cells, j);
            assert(lane_ok(whole));
            assert forall|a: int| 0 <= a < whole.len() implies (#[trigger] whole[a]) is Some by {
                assert(lane_complete(full[a]));
                assert(full[a][j] is Some);
            }
            assert forall|a: int| 0 <= a < part.len() && (#[trigger] part[a]) is Some implies whole[a]
                == part[a] by {
                assert(lane_extends(full[a], cells[a]));
                assert(cells[a][j] is Some);
            }
            lemma_propagate_lane_keeps_solutions(whole, part);
            assert(propagate_lane(part)[i] is Some);
            assert(whole[i] == full[i][j]);
        }
    }
}

/// Every solution of a grid is a solution of the grid after one round of
/// propagation: the rules fill in only what every solution holds.
pub proof fn lemma_propagate_step_keeps_solutions(full: Cells, cells: Cells)
    requires
        solves(full, cells),
    ensures
        solves(full, propagate_step(cells)),
{
    lemma_propagate_rows_keeps_solutions(full, cells);
    lemma_propagate_columns_keeps_solutions(full, propagate_rows(cells));
}

impl Grid {
    /// What two cells force on a third that stands with them in a row of
    /// three: the other value, where they are determined and equal.
    pub fn fill_cell(cell0: Option<Cell>, cell1: Option<Cell>) -> (forced: Option<Cell>)
        ensures
            forced == pair_forces(cell0, cell1),
    {
        match (cell0, cell1) {
            (Some(value0), Some(value1)) => {
                if value0 == value1 {
                    Some(value0.not())
                } else {
                    None
                }
            },
            _ => None,
        }
    }

    /// What a lane forces on all its undetermined cells because one value
    /// already fills half of it.
    pub fn fill_saturated(lane: &Vec<Option<Cell>>) -> (forced: Option<Cell>)
        ensures
            forced == saturated_by(lane@),
    {
        let counts = Self::find_count(lane);
        let all = Cell::iter();
        for n in 0..all.len()
            invariant
                all@ == seq![Cell::Zero, Cell::One],
                counts.zeros == count_of(lane@, Cell::Zero),
                counts.ones == count_of(lane@, Cell::One),
                counts.size == lane@.len(),
                forall|m: int| 0 <= m < n ==> count_of(lane@, #[trigger] all@[m]) < lane@.len() / 2,
        {
            if counts.count(all[n]) >= counts.size / 2 {
                proof {
                    if n == 1 {
                        assert(all@[0] == Cell::Zero);
                    }
                }
                return Some(all[n].not());
            }
        }
        proof {
            assert(all@[0] == Cell::Zero && all@[1] == Cell::One);
        }
        None
    }

    /// What the rules force on the undetermined cell at `idx`, seen as a
    /// cell of its row.
    fn forced_in_row(&self, idx: Index, saturated: Option<Cell>) -> (forced: Option<Cell>)
        requires
            self.wf(),
            idx.0 < self@.len(),
            idx.1 < width_of(self@),
        ensures
            forced == forced_at(self@[idx.0 as int], saturated, idx.1 as int),
    {
        proof {
            self.lemma_row(idx.0 as int);
        }
        let j = idx.1;
        let mut forced = saturated;
        if forced.is_none() && j >= 2 {
            forced = Self::fill_cell(self.get(idx.col(-2)), self.get(idx.col(-1)));
        }
        if forced.is_none() && self.width - j > 2 {
            forced = Self::fill_cell(self.get(idx.col(1)), self.get(idx.col(2)));
        }
        if forced.is_none() && j >= 1 && self.width - j > 1 {
            forced = Self::fill_cell(self.get(idx.col(-1)), self.get(idx.col(1)));
        }
        forced
    }

    /// One pass of the rules over every row.
    pub fn fill_rows(&mut self) -> (changed: bool)
        requires
            old(self).wf(),
        ensures
            final(self).wf(),
            final(self)@ == propagate_rows(old(self)@),
            changed == (final(self)@ != old(self)@),
    {
        let mut changed = false;
        let ghost start = self@;
        let height = self.height;
        let width = self.width;
        for i in 0..height
            invariant
                self.wf(),
                well_formed(start),
                height == start.len(),
                width == width_of(start),
                self@.len() == start.len(),
                width_of(self@) == width_of(start),
                forall|a: int| 0 <= a < i ==> #[trigger] self@[a] == propagate_lane(start[a]),
                forall|a: int| i <= a < start.len() ==> #[trigger] self@[a] == start[a],
                changed == (self@ != start),
        {
            let lane = self.line(i);
            let saturated = Self::fill_saturated(&lane);
            let ghost above = self@;
            for j in 0..width
                invariant
                    self.wf(),
                    well_formed(start),
                    i < start.len(),
                    width == width_of(start),
                    self@.len() == start.len(),
                    width_of(self@) == width_of(start),
                    start[i as int].len() == width_of(start),
                    saturated == saturated_by(start[i as int]),
                    self@[i as int] == sweep(start[i as int], saturated, j as int),
                    above.len() == start.len(),
                    forall|a: int| 0 <= a < start.len() && a != i ==> #[trigger] self@[a] == above[a],
                    changed == (self@ != start),
            {
                let idx = Index(i, j);
                proof {
                    lemma_sweep_keeps(start[i as int], saturated, j as int);
                    self.lemma_row(i as int);
                }
                if self.get(idx).is_none() {
                    let new = self.forced_in_row(idx, saturated);
                    let ghost before = self@;
                    let did = self.set(idx, new);
                    changed = changed || did;
                    proof {
                        if new is None {
                            assert(self@[i as int] =~= before[i as int]);
                            assert(self@ =~= before);
                        } else {
                            assert(self@[i as int][j as int] != start[i as int][j as int]);
                        }
                    }
                }
            }
            proof {
                assert(start[i as int].len() == width_of(start));
            }
        }
        proof {
            assert(self@ =~= propagate_rows(start));
        }
        changed
    }

    /// What the rules force on the undetermined cell at `idx`, seen as a
    /// cell of its column.
    fn forced_in_column(&self, idx: Index, saturated: Option<Cell>) -> (forced: Option<Cell>)
        requires
            self.wf(),
            idx.0 < self@.len(),
            idx.1 < width_of(self@),
        ensures
            forced == forced_at(column_of(self@, idx.1 as int), saturated, idx.0 as int),
    {
        let i = idx.0;
        let mut forced = saturated;
        if forced.is_none() && i >= 2 {
            forced = Self::fill_cell(self.get(idx.line(-2)), self.get(idx.line(-1)));
        }
        if forced.is_none() && self.height - i > 2 {
            forced = Self::fill_cell(self.get(idx.line(1)), self.get(idx.line(2)));
        }
        if forced.is_none() && i >= 1 && self.height - i > 1 {
            forced = Self::fill_cell(self.get(idx.line(-1)), self.get(idx.line(1)));
        }
        forced
    }

    /// One pass of the rules over every column.
    pub fn fill_columns(&mut self) -> (changed: bool)
        requires
            old(self).wf(),
        ensures
            final(self).wf(),
            final(self)@ == propagate_columns(old(self)@),
            changed == (final(self)@ != old(self)@),
    {
        let mut changed = false;
        let ghost start = self@;
        let height = self.height;
        let width = self.width;
        for j in 0..width
            invariant
                self.wf(),
                well_formed(start),
                height == start.len(),
                width == width_of(start),
                self@.len() == start.len(),
                width_of(self@) == width_of(start),
                forall|b: int|
                    0 <= b < j ==> #[trigger] column_of(self@, b) == propagate_lane(
                        column_of(start, b),
                    ),
                forall|b: int|
                    j <= b < width_of(start) ==> #[trigger] column_of(self@, b) == column_of(start, b),
                changed == (self@ != start),
        {
            let lane = self.column(j);
            let saturated = Self::fill_saturated(&lane);
            let ghost above = self@;
            for i in 0..height
                invariant
                    self.wf(),
                    well_formed(start),
                    j < width_of(start),
                    height == start.len(),
                    self@.len() == start.len(),
                    width_of(self@) == width_of(start),
                    saturated == saturated_by(column_of(start, j as int)),
                    column_of(self@, j as int) == sweep(column_of(start, j as int), saturated, i as int),
                    width_of(above) == width_of(start),
                    forall|b: int|
                        0 <= b < width_of(start) && b != j ==> #[trigger] column_of(self@, b)
                            == column_of(above, b),
                    changed == (self@ != start),
            {
                let idx = Index(i, j);
                proof {
                    lemma_sweep_keeps(column_of(start, j as int), saturated, i as int);
                    assert(column_of(self@, j as int)[i as int] == self@[i as int][j as int]);
                    assert(column_of(start, j as int)[i as int] == start[i as int][j as int]);
                }
                if self.get(idx).is_none() {
                    let new = self.forced_in_column(idx, saturated);
                    let ghost before = self@;
                    let did = self.set(idx, new);
                    changed = changed || did;
                    proof {
                        assert forall|b: int| 0 <= b < width_of(start) implies (b == j
                            ==> #[trigger] column_of(self@, b) == column_of(before, b).update(
                            i as int,
                            new,
                        )) && (b != j ==> column_of(self@, b) == column_of(before, b)) by {
                            lemma_set_cell_columns(before, i as int, j as int, new, b);
                        }
                        if new is None {
                            assert(self@[i as int] =~= before[i as int]);
                            assert(self@ =~= before);
                        } else {
                            assert(self@[i as int][j as int] != start[i as int][j as int]);
                        }
                    }
                }
            }
        }
        proof {
            assert forall|a: int, b: int|
                0 <= a < self@.len() && 0 <= b < self@[a].len() implies self@[a][b]
                == propagate_columns(start)[a][b] by {
                self.lemma_row(a);
                assert(column_of(self@, b)[a] == self@[a][b]);
            }
            assert forall|a: int| 0 <= a < self@.len() implies (#[trigger] self@[a]).len()
                == propagate_columns(start)[a].len() by {
                self.lemma_row(a);
            }
            crate::model::lemma_cells_equal(self@, propagate_columns(start));
        }
        changed
    }

    /// One round of propagation: fills in every cell that the rules force,
    /// first row by row, then column by column, and says whether any cell
    /// was filled in.
    pub fn fill_constraints(&mut self) -> (changed: bool)
        requires
            old(self).wf(),
        ensures
            final(self).wf(),
            final(self)@ == propagate_step(old(self)@),
            grid_extends(final(self)@, old(self)@),
            changed == (final(self)@ != old(self)@),
    {
        let by_rows = self.fill_rows();
        let by_columns = self.fill_columns();
        proof {
            let start = old(self)@;
            let middle = propagate_rows(start);
            lemma_propagate_rows_extends(start);
            lemma_propagate_columns_extends(middle);
            lemma_extends_transitive(start, middle, self@);
            if self@ == start {
                lemma_extends_squeeze(start, middle, self@);
            }
        }
        by_rows || by_columns
    }
}

} // verus!
