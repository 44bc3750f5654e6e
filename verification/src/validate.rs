use vstd::prelude::*;
use crate::cell::Cell;
use crate::error::GridError;
use crate::grid::Grid;
use crate::lane::{count_of, differ_at, lane_no_triple, lane_ok, lanes_distinct, triple_at};
use crate::model::{column_of, columns_valid, grid_valid, rows_valid, width_of};

verus! {

/// How often each value occurs in a lane, and how long the lane is.
#[derive(Clone, Copy, Debug)]
pub struct Histogram {
    pub zeros: usize,
    pub ones: usize,
    pub size: usize,
}

impl Histogram {
    /// How often `c` occurs.
    pub fn count(&self, c: Cell) -> (n: usize)
        ensures
            n == match c {
                Cell::Zero => self.zeros,
                Cell::One => self.ones,
            },
    {
        match c {
            Cell::Zero => self.zeros,
            Cell::One => self.ones,
        }
    }
}

impl Grid {
    /// Counts the zeros and the ones of a lane.
    pub fn find_count(lane: &Vec<Option<Cell>>) -> (counts: Histogram)
        ensures
            counts.zeros == count_of(lane@, Cell::Zero),
            counts.ones == count_of(lane@, Cell::One),
            counts.size == lane@.len(),
    {
        let mut zeros: usize = 0;
        let mut ones: usize = 0;
        for k in 0..lane.len()
            invariant
                zeros == count_of(lane@.take(k as int), Cell::Zero),
                ones == count_of(lane@.take(k as int), Cell::One),
                zeros <= k,
                ones <= k,
        {
            proof {
                assert(lane@.take(k + 1).drop_last() =~= lane@.take(k as int));
            }
            match lane[k] {
                Some(Cell::Zero) => {
                    zeros = zeros + 1;
                },
                Some(Cell::One) => {
                    ones = ones + 1;
                },
                None => {},
            }
        }
        proof {
            assert(lane@.take(lane@.len() as int) =~= lane@);
        }
        Histogram { zeros, ones, size: lane.len() }
    }

    /// Checks one lane by itself: no three neighbours determined and equal,
    /// and neither value in more than half of the cells.
    pub fn check_lane(lane: &Vec<Option<Cell>>) -> (checked: Result<(), GridError>)
        ensures
            checked is Ok <==> lane_ok(lane@),
            checked is Err ==> checked == Err::<(), GridError>(GridError::InvalidGrid),
    {
        for k in 0..lane.len()
            invariant
                forall|m: int| 0 <= m && m + 2 < k ==> !#[trigger] triple_at(lane@, m),
        {
            if k >= 2 && lane[k - 2].is_some() && lane[k - 2] == lane[k - 1] && lane[k - 1] == lane[k] {
                proof {
                    assert(triple_at(lane@, k - 2));
                }
                return Err(GridError::InvalidGrid);
            }
        }
        assert(lane_no_triple(lane@));
        let counts = Self::find_count(lane);
        let half = counts.size / 2;
        let all = Cell::iter();
        for n in 0..all.len()
            invariant
                all@ == seq![Cell::Zero, Cell::One],
                half == lane@.len() / 2,
                counts.zeros == count_of(lane@, Cell::Zero),
                counts.ones == count_of(lane@, Cell::One),
                lane_no_triple(lane@),
                forall|m: int| 0 <= m < n ==> count_of(lane@, #[trigger] all@[m]) <= half,
        {
            if counts.count(all[n]) > half {
                return Err(GridError::InvalidGrid);
            }
        }
        proof {
            assert(all@[0] == Cell::Zero && all@[1] == Cell::One);
        }
        Ok(())
    }

    /// Checks that two lanes are not determined and the same.
    pub fn check_pair(first: &Vec<Option<Cell>>, second: &Vec<Option<Cell>>) -> (checked: Result<
        (),
        GridError,
    >)
        ensures
            checked is Ok <==> lanes_distinct(first@, second@),
            checked is Err ==> checked == Err::<(), GridError>(GridError::InvalidGrid),
    {
        let mut k: usize = 0;
        while k < first.len() && k < second.len()
            invariant
                forall|m: int| 0 <= m < k ==> !#[trigger] differ_at(first@, second@, m),
            decreases first.len() - k,
        {
            if first[k].is_none() || first[k] != second[k] {
                proof {
                    assert(differ_at(first@, second@, k as int));
                }
                return Ok(());
            }
            k = k + 1;
        }
        Err(GridError::InvalidGrid)
    }

    /// Checks the determined cells against the rules of the puzzle.
    pub fn is_valid(&self) -> (checked: Result<(), GridError>)
        requires
            self.wf(),
        ensures
            checked is Ok <==> grid_valid(self@),
            checked is Err ==> checked == Err::<(), GridError>(GridError::InvalidGrid),
    {
        for i in 0..self.height
            invariant
                self.wf(),
                forall|a: int| 0 <= a < i ==> lane_ok(#[trigger] self@[a]),
                forall|a: int, b: int|
                    0 <= a < i && a < b < self@.len() ==> lanes_distinct(
                        #[trigger] self@[a],
                        #[trigger] self@[b],
                    ),
        {
            let lane = self.line(i);
            if Self::check_lane(&lane).is_err() {
                return Err(GridError::InvalidGrid);
            }
            for i_pair in (i + 1)..self.height
                invariant
                    self.wf(),
                    i < self.height,
                    lane@ == self@[i as int],
                    forall|b: int|
                        i < b < i_pair ==> lanes_distinct(self@[i as int], #[trigger] self@[b]),
            {
                let other = self.line(i_pair);
                if Self::check_pair(&lane, &other).is_err() {
                    return Err(GridError::InvalidGrid);
                }
            }
        }
        assert(rows_valid(self@));
        for j in 0..self.width
            invariant
                self.wf(),
                rows_valid(self@),
                forall|a: int| 0 <= a < j ==> lane_ok(#[trigger] column_of(self@, a)),
                forall|a: int, b: int|
                    0 <= a < j && a < b < width_of(self@) ==> lanes_distinct(
                        #[trigger] column_of(self@, a),
                        #[trigger] column_of(self@, b),
                    ),
        {
            let lane = self.column(j);
            if Self::check_lane(&lane).is_err() {
                return Err(GridError::InvalidGrid);
            }
            for j_pair in (j + 1)..self.width
                invariant
                    self.wf(),
                    j < self.width,
                    lane@ == column_of(self@, j as int),
                    forall|b: int|
                        j < b < j_pair ==> lanes_distinct(
                            column_of(self@, j as int),
                            #[trigger] column_of(self@, b),
                        ),
            {
                let other = self.column(j_pair);
                if Self::check_pair(&lane, &other).is_err() {
                    return Err(GridError::InvalidGrid);
                }
            }
        }
        assert(columns_valid(self@));
        Ok(())
    }
}

} // verus!
