use vstd::prelude::*;
use crate::cell::Cell;
use crate::lane::lane_extends;
use crate::lookahead::{
    lemma_lookahead_step_extends, lemma_lookahead_step_keeps_solutions, lookahead_step,
};
use crate::model::{
    Cells, empties, first_empty_at, grid_complete, grid_extends, grid_valid,
    lemma_extends_fewer_empties, lemma_extends_reflexive, lemma_extends_transitive,
    lemma_first_empty_exists, lemma_set_open_cell,
    lemma_solvable_is_valid, rectangular, set_cell, solvable, solves, well_formed, width_of,
};
use crate::propagate::{
    lemma_propagate_step_extends, lemma_propagate_step_keeps_solutions, propagate_step,
};

verus! {

/// Propagation, round after round, until a round fills in nothing.
pub open spec fn settle(cells: Cells) -> Cells
    decreases empties(cells),
    via settle_decreases
{
    if rectangular(cells) && propagate_step(cells) != cells {
        settle(propagate_step(cells))
    } else {
        cells
    }
}

#[via_fn]
proof fn settle_decreases(cells: Cells) {
    if rectangular(cells) && propagate_step(cells) != cells {
        lemma_propagate_step_extends(cells);
        lemma_extends_fewer_empties(propagate_step(cells), cells);
    }
}

/// Propagation until it settles keeps the shape of the grid and its
/// determined cells, and leaves a grid in which a further round fills in
/// nothing.
pub proof fn lemma_settle_extends(cells: Cells)
    requires
        rectangular(cells),
    ensures
        grid_extends(settle(cells), cells),
        rectangular(settle(cells)),
        width_of(settle(cells)) == width_of(cells),
        well_formed(cells) ==> well_formed(settle(cells)),
        propagate_step(settle(cells)) == settle(cells),
    decreases empties(cells),
{
    let next = propagate_step(cells);
    if next != cells {
        lemma_propagate_step_extends(cells);
        lemma_extends_fewer_empties(next, cells);
        lemma_settle_extends(next);
        lemma_extends_transitive(cells, next, settle(next));
    } else {
        lemma_extends_reflexive(cells);
    }
}

/// All that can be deduced without a guess: propagation until it settles,
/// then one round of looking ahead, and both again for as long as looking
/// ahead fills in a cell.
pub open spec fn deduce(cells: Cells) -> Cells
    decreases empties(cells),
    via deduce_decreases
{
    let settled = settle(cells);
    if rectangular(cells) && lookahead_step(settled) != settled {
        deduce(lookahead_step(settled))
    } else {
        settled
    }
}

#[via_fn]
proof fn deduce_decreases(cells: Cells) {
    let settled = settle(cells);
    if rectangular(cells) && lookahead_step(settled) != settled {
        lemma_settle_extends(cells);
        lemma_lookahead_step_extends(settled);
        lemma_extends_fewer_empties(settled, cells);
        lemma_extends_fewer_empties(lookahead_step(settled), settled);
    }
}

/// Deduction keeps the shape of the grid and its determined cells, and
/// leaves a grid in which neither propagation nor looking ahead fills in
/// anything.
pub proof fn lemma_deduce_extends(cells: Cells)
    requires
        rectangular(cells),
    ensures
        grid_extends(deduce(cells), cells),
        rectangular(deduce(cells)),
        width_of(deduce(cells)) == width_of(cells),
        well_formed(cells) ==> well_formed(deduce(cells)),
        propagate_step(deduce(cells)) == deduce(cells),
        lookahead_step(deduce(cells)) == deduce(cells),
    decreases empties(cells),
{
    let settled = settle(cells);
    let next = lookahead_step(settled);
    lemma_settle_extends(cells);
    lemma_lookahead_step_extends(settled);
    if next != settled {
        lemma_extends_fewer_empties(settled, cells);
        lemma_extends_fewer_empties(next, settled);
        lemma_deduce_extends(next);
        lemma_extends_transitive(cells, settled, next);
        lemma_extends_transitive(cells, next, deduce(next));
    }
}

/// Every solution of a grid is a solution of the grid after propagation
/// has settled.
pub proof fn lemma_settle_keeps_solutions(full: Cells, cells: Cells)
    requires
        solves(full, cells),
        rectangular(cells),
    ensures
        solves(full, settle(cells)),
    decreases empties(cells),
{
    let next = propagate_step(cells);
    if next != cells {
        lemma_propagate_step_extends(cells);
        lemma_extends_fewer_empties(next, cells);
        lemma_propagate_step_keeps_solutions(full, cells);
        lemma_settle_keeps_solutions(full, next);
    }
}

/// Every solution of a grid is a solution of the grid after deduction:
/// deduction fills in only what every solution holds.
pub proof fn lemma_deduce_keeps_solutions(full: Cells, cells: Cells)
    requires
        solves(full, cells),
        rectangular(cells),
    ensures
        solves(full, deduce(cells)),
    decreases empties(cells),
{
    let settled = settle(cells);
    let next = lookahead_step(settled);
    lemma_settle_extends(cells);
    lemma_settle_keeps_solutions(full, cells);
    if next != settled {
        lemma_lookahead_step_extends(settled);
        lemma_extends_fewer_empties(settled, cells);
        lemma_extends_fewer_empties(next, settled);
        lemma_lookahead_step_keeps_solutions(full, settled);
        lemma_deduce_keeps_solutions(full, next);
    }
}

/// The row and the column of the first undetermined cell, where the rows
/// are read from the top, each from the left.
pub open spec fn first_empty(cells: Cells) -> (int, int) {
    choose|place: (int, int)| first_empty_at(cells, place.0, place.1)
}

/// The result of trying `c` in the first undetermined cell of `cells`.
pub open spec fn guess(cells: Cells, c: Cell) -> Cells {
    set_cell(cells, first_empty(cells).0, first_empty(cells).1, Some(c))
}

/// The search for a solution: deduction first; where the grid then breaks
/// a rule, nothing; where it is complete, that grid; else the search with
/// a zero in the first undetermined cell, and with a one where that finds
/// nothing.
pub open spec fn search(cells: Cells) -> Option<Cells>
    decreases empties(cells),
    via search_decreases
{
    let reached = deduce(cells);
    if !well_formed(cells) || !grid_valid(reached) {
        None
    } else if grid_complete(reached) {
        Some(reached)
    } else if search(guess(reached, Cell::Zero)) is Some {
        search(guess(reached, Cell::Zero))
    } else {
        search(guess(reached, Cell::One))
    }
}

/// A guess in a grid that is not complete keeps its shape and its
/// determined cells, and leaves one undetermined cell less.
pub proof fn lemma_guess_extends(cells: Cells, c: Cell)
    requires
        !grid_complete(cells),
    ensures
        first_empty_at(cells, first_empty(cells).0, first_empty(cells).1),
        grid_extends(guess(cells, c), cells),
        well_formed(cells) ==> well_formed(guess(cells, c)),
        empties(guess(cells, c)) < empties(cells),
{
    let _ = lemma_first_empty_exists(cells);
    let found = first_empty(cells);
    assert(first_empty_at(cells, found.0, found.1));
    lemma_set_open_cell(cells, found.0, found.1, c);
}

#[via_fn]
proof fn search_decreases(cells: Cells) {
    let reached = deduce(cells);
    if well_formed(cells) && !grid_complete(reached) {
        lemma_deduce_extends(cells);
        lemma_extends_fewer_empties(reached, cells);
        lemma_guess_extends(reached, Cell::Zero);
        lemma_guess_extends(reached, Cell::One);
    }
}

/// What the search finds is a solved puzzle that keeps every determined
/// cell of the grid it started from.
pub proof fn lemma_search_sound(cells: Cells)
    requires
        search(cells) is Some,
    ensures
        solves(search(cells)->0, cells),
    decreases empties(cells),
{
    let reached = deduce(cells);
    lemma_deduce_extends(cells);
    lemma_extends_fewer_empties(reached, cells);
    if !grid_complete(reached) {
        let c = if search(guess(reached, Cell::Zero)) is Some {
            Cell::Zero
        } else {
            Cell::One
        };
        lemma_guess_extends(reached, c);
        lemma_search_sound(guess(reached, c));
        lemma_extends_transitive(reached, guess(reached, c), search(cells)->0);
        lemma_extends_transitive(cells, reached, search(cells)->0);
    }
}

/// Where a well-formed grid has a solution, the search finds one.
pub proof fn lemma_search_complete(full: Cells, cells: Cells)
    requires
        well_formed(cells),
        solves(full, cells),
    ensures
        search(cells) is Some,
    decreases empties(cells),
{
    let reached = deduce(cells);
    lemma_deduce_extends(cells);
    lemma_extends_fewer_empties(reached, cells);
    lemma_deduce_keeps_solutions(full, cells);
    lemma_solvable_is_valid(full, reached);
    if !grid_complete(reached) {
        let place = first_empty(reached);
        lemma_guess_extends(reached, Cell::Zero);
        lemma_guess_extends(reached, Cell::One);
        assert(lane_extends(full[place.0], reached[place.0]));
        assert(crate::lane::lane_complete(full[place.0]));
        assert(full[place.0][place.1] is Some);
        let c = full[place.0][place.1]->0;
        let next = guess(reached, c);
        assert forall|a: int| 0 <= a < next.len() implies lane_extends(
            #[trigger] full[a],
            #[trigger] next[a],
        ) by {
            assert(lane_extends(full[a], reached[a]));
        }
        lemma_search_complete(full, next);
    }
}

/// The search finds a solution exactly where the grid has one.
pub proof fn lemma_search_finds_iff_solvable(cells: Cells)
    requires
        well_formed(cells),
    ensures
        search(cells) is Some <==> solvable(cells),
{
    if search(cells) is Some {
        lemma_search_sound(cells);
        assert(solves(search(cells)->0, cells));
    }
    if solvable(cells) {
        let full = choose|full: Cells| solves(full, cells);
        lemma_search_complete(full, cells);
    }
}

} // verus!
