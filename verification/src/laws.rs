use vstd::prelude::*;
use crate::cell::Cell;
use crate::lane::{
    count_of, differ_at, lane_complete, lane_extends, lanes_distinct, lemma_solved_counts,
};
use crate::lookahead::{
    lemma_lookahead_step_extends, lemma_lookahead_step_keeps_solutions, lookahead_step,
};
use crate::model::{
    Cells, column_of, empties, grid_complete, grid_extends, grid_valid, is_solution,
    lemma_cells_equal, lemma_extends_fewer_empties, lemma_extends_squeeze,
    lemma_solvable_is_valid, rectangular, solves, well_formed, width_of,
};
use crate::propagate::{
    grid_settled, lemma_lane_fixed_iff_settled, lemma_propagate_columns_extends,
    lemma_propagate_rows_extends, lemma_propagate_step_extends,
    lemma_propagate_step_keeps_solutions, propagate_columns, propagate_lane, propagate_rows,
    propagate_step,
};
use crate::search::{
    deduce, lemma_deduce_extends, lemma_deduce_keeps_solutions, lemma_search_complete,
    lemma_search_sound, lemma_settle_extends, search, settle,
};

verus! {

/// Nothing but a complete grid itself extends it.
pub proof fn lemma_complete_is_maximal(fuller: Cells, cells: Cells)
    requires
        grid_complete(cells),
        grid_extends(fuller, cells),
    ensures
        fuller == cells,
{
    assert forall|i: int| 0 <= i < fuller.len() implies (#[trigger] fuller[i]).len()
        == cells[i].len() by {
        assert(lane_extends(fuller[i], cells[i]));
    }
    assert forall|i: int, j: int| 0 <= i < fuller.len() && 0 <= j < fuller[i].len() implies fuller[i][j]
        == cells[i][j] by {
        assert(lane_extends(fuller[i], cells[i]));
        assert(lane_complete(cells[i]));
        assert(cells[i][j] is Some);
    }
    lemma_cells_equal(fuller, cells);
}

/// Propagation is idempotent. A round of propagation leaves a grid as it
/// is exactly where no rule forces a value on any of its undetermined
/// cells; a further round then leaves it so again, and so does propagation
/// until it settles.
pub proof fn lemma_propagation_is_idempotent(cells: Cells)
    requires
        rectangular(cells),
    ensures
        propagate_step(cells) == cells <==> grid_settled(cells),
        propagate_step(cells) == cells ==> propagate_step(propagate_step(cells)) == cells,
        propagate_step(cells) == cells ==> settle(cells) == cells,
        propagate_step(settle(cells)) == settle(cells),
        settle(settle(cells)) == settle(cells),
{
    let by_rows = propagate_rows(cells);
    lemma_propagate_rows_extends(cells);
    lemma_propagate_columns_extends(by_rows);
    lemma_settle_extends(cells);
    if grid_settled(cells) {
        assert forall|i: int| 0 <= i < cells.len() implies #[trigger] by_rows[i] == cells[i] by {
            lemma_lane_fixed_iff_settled(cells[i]);
        }
        assert(by_rows =~= cells);
        assert forall|i: int, j: int|
            0 <= i < cells.len() && 0 <= j < cells[i].len() implies propagate_columns(cells)[i][j]
            == cells[i][j] by {
            lemma_lane_fixed_iff_settled(column_of(cells, j));
        }
        lemma_cells_equal(propagate_columns(cells), cells);
    }
    if propagate_step(cells) == cells {
        lemma_extends_squeeze(cells, by_rows, propagate_step(cells));
        assert forall|i: int| 0 <= i < cells.len() implies crate::propagate::lane_settled(
            #[trigger] cells[i],
        ) by {
            assert(by_rows[i] == propagate_lane(cells[i]));
            lemma_lane_fixed_iff_settled(cells[i]);
        }
        assert forall|j: int| 0 <= j < width_of(cells) implies crate::propagate::lane_settled(
            #[trigger] column_of(cells, j),
        ) by {
            let column = column_of(cells, j);
            crate::propagate::lemma_propagate_lane_extends(column);
            assert forall|a: int| 0 <= a < column.len() implies propagate_lane(column)[a]
                == column[a] by {
                assert(propagate_columns(cells)[a][j] == propagate_lane(column)[a]);
            }
            assert(propagate_lane(column) =~= column);
            lemma_lane_fixed_iff_settled(column);
        }
    }
}

/// Monotonicity. Neither a round of propagation, nor a round of looking
/// ahead, nor all of deduction changes a determined cell or makes it
/// undetermined again, and none of them leaves more cells undetermined
/// than it found.
pub proof fn lemma_steps_are_monotone(cells: Cells)
    requires
        rectangular(cells),
    ensures
        grid_extends(propagate_step(cells), cells),
        grid_extends(lookahead_step(cells), cells),
        grid_extends(settle(cells), cells),
        grid_extends(deduce(cells), cells),
        empties(propagate_step(cells)) <= empties(cells),
        empties(lookahead_step(cells)) <= empties(cells),
        empties(settle(cells)) <= empties(cells),
        empties(deduce(cells)) <= empties(cells),
{
    lemma_propagate_step_extends(cells);
    lemma_lookahead_step_extends(cells);
    lemma_settle_extends(cells);
    lemma_deduce_extends(cells);
    lemma_extends_fewer_empties(propagate_step(cells), cells);
    lemma_extends_fewer_empties(lookahead_step(cells), cells);
    lemma_extends_fewer_empties(settle(cells), cells);
    lemma_extends_fewer_empties(deduce(cells), cells);
}

/// Validity is kept. A grid that has a solution breaks no rule, and
/// neither does what propagation, looking ahead and deduction make of it.
pub proof fn lemma_steps_keep_valid(full: Cells, cells: Cells)
    requires
        solves(full, cells),
    ensures
        grid_valid(cells),
        grid_valid(propagate_step(cells)),
        grid_valid(lookahead_step(cells)),
        grid_valid(settle(cells)),
        grid_valid(deduce(cells)),
{
    lemma_solvable_is_valid(full, cells);
    lemma_propagate_step_keeps_solutions(full, cells);
    lemma_solvable_is_valid(full, propagate_step(cells));
    lemma_lookahead_step_keeps_solutions(full, cells);
    lemma_solvable_is_valid(full, lookahead_step(cells));
    crate::search::lemma_settle_keeps_solutions(full, cells);
    lemma_solvable_is_valid(full, settle(cells));
    lemma_deduce_keeps_solutions(full, cells);
    lemma_solvable_is_valid(full, deduce(cells));
}

/// A solved puzzle meets the rules in their strict form: every row and
/// every column holds each value in exactly half of its cells, and no two
/// rows and no two columns are the same.
pub proof fn lemma_solution_is_strict(cells: Cells)
    requires
        is_solution(cells),
    ensures
        forall|i: int, c: Cell|
            0 <= i < cells.len() ==> #[trigger] count_of(cells[i], c) == width_of(cells) / 2,
        forall|j: int, c: Cell|
            0 <= j < width_of(cells) ==> #[trigger] count_of(column_of(cells, j), c) == cells.len()
                / 2,
        forall|i: int, k: int| 0 <= i < k < cells.len() ==> #[trigger] cells[i] != #[trigger] cells[k],
        forall|j: int, k: int|
            0 <= j < k < width_of(cells) ==> #[trigger] column_of(cells, j) != #[trigger] column_of(
                cells,
                k,
            ),
{
    assert forall|i: int, c: Cell| 0 <= i < cells.len() implies #[trigger] count_of(cells[i], c)
        == width_of(cells) / 2 by {
        assert(lane_complete(cells[i]));
        assert(crate::lane::lane_ok(cells[i]));
        lemma_solved_counts(cells[i], c);
    }
    assert forall|j: int| 0 <= j < width_of(cells) implies lane_complete(
        #[trigger] column_of(cells, j),
    ) by {
        let column = column_of(cells, j);
        assert forall|a: int| 0 <= a < column.len() implies (#[trigger] column[a]) is Some by {
            assert(lane_complete(cells[a]));
            assert(cells[a][j] is Some);
        }
    }
    assert forall|j: int, c: Cell| 0 <= j < width_of(cells) implies #[trigger] count_of(
        column_of(cells, j),
        c,
    ) == cells.len() / 2 by {
        assert(lane_complete(column_of(cells, j)));
        assert(crate::lane::lane_ok(column_of(cells, j)));
        lemma_solved_counts(column_of(cells, j), c);
    }
    assert forall|i: int, k: int| 0 <= i < k < cells.len() implies #[trigger] cells[i]
        != #[trigger] cells[k] by {
        assert(lanes_distinct(cells[i], cells[k]));
        let p = choose|p: int|
            0 <= p < cells[i].len() && p < cells[k].len() && #[trigger] differ_at(
                cells[i],
                cells[k],
                p,
            );
        assert(lane_complete(cells[i]));
        assert(cells[i][p] is Some);
    }
    assert forall|j: int, k: int| 0 <= j < k < width_of(cells) implies #[trigger] column_of(cells, j)
        != #[trigger] column_of(cells, k) by {
        let a = column_of(cells, j);
        let b = column_of(cells, k);
        assert(lanes_distinct(a, b));
        let p = choose|p: int| 0 <= p < a.len() && p < b.len() && #[trigger] differ_at(a, b, p);
        assert(lane_complete(a));
        assert(a[p] is Some);
    }
}

/// Soundness and completeness of the search. What it finds is a solved
/// puzzle that keeps the determined cells of the grid; and where the grid
/// has a solution at all, it finds one.
pub proof fn lemma_search_is_sound_and_complete(cells: Cells)
    requires
        well_formed(cells),
    ensures
        search(cells) is Some ==> solves(search(cells)->0, cells),
        (exists|full: Cells| solves(full, cells)) ==> search(cells) is Some,
{
    if search(cells) is Some {
        lemma_search_sound(cells);
    }
    if exists|full: Cells| solves(full, cells) {
        let full = choose|full: Cells| solves(full, cells);
        lemma_search_complete(full, cells);
    }
}

/// Where a grid has one solution only, the search finds that one.
pub proof fn lemma_search_finds_the_unique_solution(full: Cells, cells: Cells)
    requires
        well_formed(cells),
        solves(full, cells),
        forall|other: Cells| solves(other, cells) ==> other == full,
    ensures
        search(cells) == Some(full),
{
    lemma_search_complete(full, cells);
    lemma_search_sound(cells);
}

/// A solved puzzle is left as it is: propagation, looking ahead and
/// deduction fill in nothing, and the search finds the grid itself.
pub proof fn lemma_solution_is_left_alone(cells: Cells)
    requires
        is_solution(cells),
    ensures
        propagate_step(cells) == cells,
        lookahead_step(cells) == cells,
        deduce(cells) == cells,
        search(cells) == Some(cells),
{
    lemma_steps_are_monotone(cells);
    lemma_complete_is_maximal(propagate_step(cells), cells);
    lemma_complete_is_maximal(lookahead_step(cells), cells);
    lemma_complete_is_maximal(settle(cells), cells);
    lemma_complete_is_maximal(deduce(cells), cells);
}

} // verus!
