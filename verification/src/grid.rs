use vstd::prelude::*;
use crate::cell::Cell;
use crate::index::Index;
use crate::lane::lane_complete;
use crate::model::{Cells, column_of, first_empty_at, grid_complete, set_cell, well_formed, width_of};

verus! {

/// A rectangular grid of cells.
#[derive(Debug, PartialEq)]
pub struct Grid {
    pub(crate) cells: Vec<Vec<Option<Cell>>>,
    pub(crate) width: usize,
    pub(crate) height: usize,
}

/// The cells of stored rows.
pub open spec fn rows_of(stored: Seq<Vec<Option<Cell>>>) -> Cells {
    Seq::new(stored.len(), |i: int| stored[i]@)
}

impl View for Grid {
    type V = Cells;

    open(crate) spec fn view(&self) -> Cells {
        rows_of(self.cells@)
    }
}

impl Clone for Grid {
    /// A copy that shares nothing with this grid.
    fn clone(&self) -> (copy: Grid)
        ensures
            copy@ == self@,
            self.wf() ==> copy.wf(),
    {
        let mut cells: Vec<Vec<Option<Cell>>> = Vec::new();
        for i in 0..self.cells.len()
            invariant
                cells@.len() == i,
                forall|k: int| 0 <= k < i ==> (#[trigger] cells@[k])@ == self.cells@[k]@,
        {
            let source = &self.cells[i];
            let mut row: Vec<Option<Cell>> = Vec::new();
            for j in 0..source.len()
                invariant
                    row@ == source@.take(j as int),
            {
                row.push(source[j]);
                proof {
                    assert(row@ =~= source@.take(j + 1));
                }
            }
            proof {
                assert(row@ =~= source@);
            }
            cells.push(row);
        }
        let copy = Grid { cells, width: self.width, height: self.height };
        proof {
            assert(copy@ =~= self@);
        }
        copy
    }
}

impl Grid {
    /// The grid is one of the puzzle, and its fields agree with its cells.
    pub open(crate) spec fn wf(&self) -> bool {
        &&& well_formed(self@)
        &&& self.height == self@.len()
        &&& self.width == width_of(self@)
    }

    /// The row `i` of the view is the row `i` of the cells, and has the
    /// width of the grid.
    pub(crate) proof fn lemma_row(&self, i: int)
        requires
            self.wf(),
            0 <= i < self.height,
        ensures
            self.cells@[i]@ == self@[i],
            self.cells@[i]@.len() == self.width,
    {
        assert(self@[0] == self.cells@[0]@);
    }

    /// The number of rows.
    pub fn height(&self) -> (n: usize)
        requires
            self.wf(),
        ensures
            n == self@.len(),
    {
        self.height
    }

    /// The number of columns.
    pub fn width(&self) -> (n: usize)
        requires
            self.wf(),
        ensures
            n == width_of(self@),
    {
        self.width
    }

    /// The numbers of the rows, in order.
    pub fn lines(&self) -> (rows: std::ops::Range<usize>)
        requires
            self.wf(),
        ensures
            rows.start == 0,
            rows.end == self@.len(),
    {
        0..self.height
    }

    /// The numbers of the columns, in order.
    pub fn columns(&self) -> (columns: std::ops::Range<usize>)
        requires
            self.wf(),
        ensures
            columns.start == 0,
            columns.end == width_of(self@),
    {
        0..self.width
    }

    /// The cells of row `i`, from left to right.
    pub fn line(&self, i: usize) -> (lane: Vec<Option<Cell>>)
        requires
            self.wf(),
            i < self@.len(),
        ensures
            lane@ == self@[i as int],
    {
        let mut lane: Vec<Option<Cell>> = Vec::new();
        for j in 0..self.width
            invariant
                self.wf(),
                i < self@.len(),
                lane@ == self@[i as int].take(j as int),
        {
            let cell = self.get(Index(i, j));
            lane.push(cell);
            proof {
                self.lemma_row(i as int);
                assert(lane@ =~= self@[i as int].take(j + 1));
            }
        }
        proof {
            self.lemma_row(i as int);
            assert(lane@ =~= self@[i as int]);
        }
        lane
    }

    /// The cells of column `j`, from top to bottom.
    pub fn column(&self, j: usize) -> (lane: Vec<Option<Cell>>)
        requires
            self.wf(),
            j < width_of(self@),
        ensures
            lane@ == column_of(self@, j as int),
    {
        let mut lane: Vec<Option<Cell>> = Vec::new();
        for i in 0..self.height
            invariant
                self.wf(),
                j < width_of(self@),
                lane@ == column_of(self@, j as int).take(i as int),
        {
            let cell = self.get(Index(i, j));
            lane.push(cell);
            proof {
                assert(lane@ =~= column_of(self@, j as int).take(i + 1));
            }
        }
        proof {
            assert(lane@ =~= column_of(self@, j as int));
        }
        lane
    }

    /// The first undetermined cell, where the rows are read from the top,
    /// each from the left; `None` where every cell is determined.
    pub fn get_empty(&self) -> (found: Option<Index>)
        requires
            self.wf(),
        ensures
            match found {
                Some(idx) => first_empty_at(self@, idx.0 as int, idx.1 as int),
                None => grid_complete(self@),
            },
    {
        for i in 0..self.height
            invariant
                self.wf(),
                forall|a: int| 0 <= a < i ==> lane_complete(#[trigger] self@[a]),
        {
            for j in 0..self.width
                invariant
                    self.wf(),
                    i < self.height,
                    forall|a: int| 0 <= a < i ==> lane_complete(#[trigger] self@[a]),
                    forall|b: int| 0 <= b < j ==> (#[trigger] self@[i as int][b]) is Some,
            {
                if self.get(Index(i, j)).is_none() {
                    proof {
                        self.lemma_row(i as int);
                    }
                    return Some(Index(i, j));
                }
            }
            proof {
                self.lemma_row(i as int);
            }
        }
        None
    }

    /// The cell at `idx`.
    pub fn get(&self, idx: Index) -> (cell: Option<Cell>)
        requires
            self.wf(),
            idx.0 < self@.len(),
            idx.1 < width_of(self@),
        ensures
            cell == self@[idx.0 as int][idx.1 as int],
    {
        proof {
            self.lemma_row(idx.0 as int);
        }
        self.cells[idx.0][idx.1]
    }

    /// Replaces the cell at `idx` and says whether that changed it.
    pub fn set(&mut self, idx: Index, new: Option<Cell>) -> (changed: bool)
        requires
            old(self).wf(),
            idx.0 < old(self)@.len(),
            idx.1 < width_of(old(self)@),
        ensures
            final(self).wf(),
            final(self)@ == set_cell(old(self)@, idx.0 as int, idx.1 as int, new),
            changed == (old(self)@[idx.0 as int][idx.1 as int] != new),
    {
        proof {
            self.lemma_row(idx.0 as int);
        }
        let old_cell = self.cells[idx.0][idx.1];
        self.cells[idx.0][idx.1] = new;
        proof {
            assert(final(self)@ =~= set_cell(old(self)@, idx.0 as int, idx.1 as int, new));
        }
        old_cell != new
    }
}

} // verus!
