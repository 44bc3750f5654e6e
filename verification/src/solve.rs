use vstd::prelude::*;
use crate::cell::Cell;
use crate::error::GridError;
use crate::grid::Grid;
use crate::index::Index;
use crate::lookahead::lemma_lookahead_step_extends;
use crate::model::{
    empties, grid_extends, grid_valid, is_solution, lemma_extends_fewer_empties,
    lemma_first_empty_unique, lemma_set_open_cell, set_cell, solvable, width_of,
};
use crate::propagate::lemma_propagate_step_extends;
use crate::search::{
    deduce, first_empty, lemma_deduce_extends, lemma_guess_extends,
    lemma_search_finds_iff_solvable, lemma_search_sound, lemma_settle_extends, search, settle,
};

verus! {

impl Grid {
    /// Propagation, round after round, until a round fills in nothing.
    pub fn propagate(&mut self)
        requires
            old(self).wf(),
        ensures
            final(self).wf(),
            final(self)@ == settle(old(self)@),
            grid_extends(final(self)@, old(self)@),
    {
        let ghost start = self@;
        proof {
            lemma_settle_extends(start);
        }
        loop
            invariant
                self.wf(),
                settle(self@) == settle(start),
            ensures
                self.wf(),
                self@ == settle(start),
            decreases empties(self@),
        {
            let ghost before = self@;
            let changed = self.fill_constraints();
            if !changed {
                break ;
            }
            proof {
                lemma_propagate_step_extends(before);
                lemma_extends_fewer_empties(self@, before);
            }
        }
    }

    /// Fills in all that can be deduced without a guess: propagation until
    /// it settles, then one round of looking ahead, and both again for as
    /// long as looking ahead fills in a cell.
    pub fn deduce(&mut self)
        requires
            old(self).wf(),
        ensures
            final(self).wf(),
            final(self)@ == deduce(old(self)@),
            grid_extends(final(self)@, old(self)@),
    {
        let ghost start = self@;
        proof {
            lemma_deduce_extends(start);
        }
        loop
            invariant_except_break
                deduce(self@) == deduce(start),
            invariant
                self.wf(),
            ensures
                self@ == deduce(start),
            decreases empties(self@),
        {
            let ghost before = self@;
            self.propagate();
            let changed = self.fill_heuristics();
            if !changed {
                break ;
            }
            proof {
                lemma_settle_extends(before);
                lemma_lookahead_step_extends(settle(before));
                lemma_extends_fewer_empties(settle(before), before);
                lemma_extends_fewer_empties(self@, settle(before));
            }
        }
    }

    /// Solves the puzzle: fills in every cell so that the grid meets all
    /// rules, or says why it cannot.
    ///
    /// On success the grid is the solution that the search finds, and it
    /// keeps every cell that was determined before. On failure the grid
    /// holds what deduction could fill in: `InvalidGrid` where that breaks
    /// a rule, `NoSolution` where it breaks none and no guess for the
    /// first undetermined cell leads to a solution.
    ///
    /// The search calls itself once for each guess, so never deeper than
    /// the grid has undetermined cells.
    pub fn solve(&mut self) -> (solved: Result<(), GridError>)
        requires
            old(self).wf(),
        ensures
            final(self).wf(),
            grid_extends(final(self)@, old(self)@),
            solved is Ok <==> solvable(old(self)@),
            solved is Ok <==> search(old(self)@) is Some,
            solved is Ok ==> is_solution(final(self)@),
            solved is Ok ==> search(old(self)@) == Some(final(self)@),
            solved is Err ==> final(self)@ == deduce(old(self)@),
            solved is Err ==> solved == Err::<(), GridError>(
                if grid_valid(deduce(old(self)@)) {
                    GridError::NoSolution
                } else {
                    GridError::InvalidGrid
                },
            ),
        decreases empties(old(self)@), 1int,
    {
        proof {
            lemma_deduce_extends(old(self)@);
            lemma_extends_fewer_empties(deduce(old(self)@), old(self)@);
            lemma_search_finds_iff_solvable(old(self)@);
            if search(old(self)@) is Some {
                lemma_search_sound(old(self)@);
            }
        }
        self.deduce();
        if self.is_valid().is_err() {
            return Err(GridError::InvalidGrid);
        }
        match self.get_empty() {
            None => Ok(()),
            Some(idx) => {
                proof {
                    lemma_guess_extends(self@, Cell::Zero);
                    let place = first_empty(self@);
                    lemma_first_empty_unique(self@, idx.0 as int, idx.1 as int, place.0, place.1);
                    self.lemma_row(idx.0 as int);
                }
                self.fill_bruteforce(idx)
            },
        }
    }

    /// Tries each value in the undetermined cell at `idx` and keeps the
    /// first that leads to a solution.
    pub fn fill_bruteforce(&mut self, idx: Index) -> (solved: Result<(), GridError>)
        requires
            old(self).wf(),
            idx.0 < old(self)@.len(),
            idx.1 < width_of(old(self)@),
            old(self)@[idx.0 as int][idx.1 as int] is None,
        ensures
            final(self).wf(),
            match solved {
                Ok(_) => Some(final(self)@) == (if search(
                    set_cell(old(self)@, idx.0 as int, idx.1 as int, Some(Cell::Zero)),
                ) is Some {
                    search(set_cell(old(self)@, idx.0 as int, idx.1 as int, Some(Cell::Zero)))
                } else {
                    search(set_cell(old(self)@, idx.0 as int, idx.1 as int, Some(Cell::One)))
                }),
                Err(e) => {
                    &&& e == GridError::NoSolution
                    &&& final(self)@ == old(self)@
                    &&& search(set_cell(old(self)@, idx.0 as int, idx.1 as int, Some(Cell::Zero))) is None
                    &&& search(set_cell(old(self)@, idx.0 as int, idx.1 as int, Some(Cell::One))) is None
                },
            },
        decreases empties(old(self)@), 0int,
    {
        let all = Cell::iter();
        for n in 0..all.len()
            invariant
                all@ == seq![Cell::Zero, Cell::One],
                self.wf(),
                self@ == old(self)@,
                idx.0 < self@.len(),
                idx.1 < width_of(self@),
                self@[idx.0 as int][idx.1 as int] is None,
                forall|m: int|
                    0 <= m < n ==> search(
                        set_cell(self@, idx.0 as int, idx.1 as int, Some(#[trigger] all@[m])),
                    ) is None,
        {
            let cell = all[n];
            let mut grid = self.clone();
            grid.set(idx, Some(cell));
            let ghost tried = grid@;
            proof {
                self.lemma_row(idx.0 as int);
                lemma_set_open_cell(self@, idx.0 as int, idx.1 as int, cell);
            }
            if grid.solve().is_ok() {
                proof {
                    if n == 1 {
                        assert(all@[0] == Cell::Zero);
                    }
                }
                *self = grid;
                return Ok(());
            }
            proof {
                assert(tried == set_cell(self@, idx.0 as int, idx.1 as int, Some(all@[n as int])));
            }
        }
        proof {
            assert(all@[0] == Cell::Zero && all@[1] == Cell::One);
        }
        Err(GridError::NoSolution)
    }
}

} // verus!
