use vstd::prelude::*;
use crate::cell::Cell;

verus! {

/// A lane is a row or a column: the cells along it, in order. `None` is a
/// cell that is not determined yet.
pub type Lane = Seq<Option<Cell>>;

/// How many cells of `lane` hold the value `c`.
pub open spec fn count_of(lane: Lane, c: Cell) -> nat
    decreases lane.len(),
{
    if lane.len() == 0 {
        0
    } else {
        count_of(lane.drop_last(), c) + if lane.last() == Some(c) {
            1nat
        } else {
            0nat
        }
    }
}

/// How many cells of `lane` are undetermined.
pub open spec fn count_empty(lane: Lane) -> nat
    decreases lane.len(),
{
    if lane.len() == 0 {
        0
    } else {
        count_empty(lane.drop_last()) + if lane.last() is None {
            1nat
        } else {
            0nat
        }
    }
}

/// The three cells that start at `k` are determined and equal.
pub open spec fn triple_at(lane: Lane, k: int) -> bool {
    &&& lane[k] is Some
    &&& lane[k] == lane[k + 1]
    &&& lane[k + 1] == lane[k + 2]
}

/// No three neighbours are determined and equal.
pub open spec fn lane_no_triple(lane: Lane) -> bool {
    forall|k: int| 0 <= k && k + 2 < lane.len() ==> !#[trigger] triple_at(lane, k)
}

/// Neither value fills more than half of the lane.
pub open spec fn lane_balanced(lane: Lane) -> bool {
    &&& count_of(lane, Cell::Zero) <= lane.len() / 2
    &&& count_of(lane, Cell::One) <= lane.len() / 2
}

/// What the rules ask of one lane by itself, as far as its determined cells
/// can tell.
pub open spec fn lane_ok(lane: Lane) -> bool {
    lane_no_triple(lane) && lane_balanced(lane)
}

/// The place `k` tells the two lanes apart: the first lane is undetermined
/// there, or holds something else than the second.
pub open spec fn differ_at(a: Lane, b: Lane, k: int) -> bool {
    a[k] is None || a[k] != b[k]
}

/// The two lanes are not yet known to be the same: some place tells them
/// apart.
pub open spec fn lanes_distinct(a: Lane, b: Lane) -> bool {
    exists|k: int| 0 <= k < a.len() && k < b.len() && #[trigger] differ_at(a, b, k)
}

/// Every cell is determined.
pub open spec fn lane_complete(lane: Lane) -> bool {
    forall|k: int| 0 <= k < lane.len() ==> (#[trigger] lane[k]) is Some
}

/// `fuller` has the length of `lane` and keeps each of its determined cells.
pub open spec fn lane_extends(fuller: Lane, lane: Lane) -> bool {
    &&& fuller.len() == lane.len()
    &&& forall|k: int| 0 <= k < lane.len() && (#[trigger] lane[k]) is Some ==> fuller[k] == lane[k]
}

/// A complete lane that meets the rules of one lane.
pub open spec fn lane_solved(lane: Lane) -> bool {
    lane_complete(lane) && lane_ok(lane)
}

/// The counts of a prefix never exceed those of the whole, and all counts
/// together make up the length.
pub proof fn lemma_count_bounds(lane: Lane)
    ensures
        count_of(lane, Cell::Zero) + count_of(lane, Cell::One) + count_empty(lane) == lane.len(),
    decreases lane.len(),
{
    if lane.len() > 0 {
        lemma_count_bounds(lane.drop_last());
        match lane.last() {
            Some(Cell::Zero) => {},
            Some(Cell::One) => {},
            None => {},
        }
    }
}

/// Determining the cell at `k` changes the counts by that one cell.
pub proof fn lemma_count_update(lane: Lane, k: int, v: Option<Cell>, c: Cell)
    requires
        0 <= k < lane.len(),
    ensures
        count_of(lane.update(k, v), c) == count_of(lane, c) + (if v == Some(c) {
            1int
        } else {
            0int
        }) - (if lane[k] == Some(c) {
            1int
        } else {
            0int
        }),
        count_empty(lane.update(k, v)) == count_empty(lane) + (if v is None {
            1int
        } else {
            0int
        }) - (if lane[k] is None {
            1int
        } else {
            0int
        }),
    decreases lane.len(),
{
    let next = lane.update(k, v);
    if k == lane.len() - 1 {
        assert(next.drop_last() =~= lane.drop_last());
    } else {
        assert(next.drop_last() =~= lane.drop_last().update(k, v));
        lemma_count_update(lane.drop_last(), k, v, c);
    }
}

/// Where every cell of `lane` that holds `c` holds it in `other` too,
/// `other` holds `c` at least as often.
pub proof fn lemma_count_monotone(lane: Lane, other: Lane, c: Cell)
    requires
        lane.len() == other.len(),
        forall|k: int| 0 <= k < lane.len() && #[trigger] lane[k] == Some(c) ==> other[k] == Some(c),
    ensures
        count_of(lane, c) <= count_of(other, c),
    decreases lane.len(),
{
    if lane.len() > 0 {
        let a = lane.drop_last();
        let b = other.drop_last();
        assert forall|k: int| 0 <= k < a.len() && #[trigger] a[k] == Some(c) implies b[k] == Some(c) by {
            assert(lane[k] == a[k]);
        }
        lemma_count_monotone(a, b, c);
        assert(lane[lane.len() - 1] == lane.last());
    }
}

/// A complete lane of even length that is balanced holds each value in
/// exactly half of its cells.
pub proof fn lemma_solved_counts(lane: Lane, c: Cell)
    requires
        lane_complete(lane),
        lane_balanced(lane),
        lane.len() % 2 == 0,
    ensures
        count_of(lane, c) == lane.len() / 2,
{
    lemma_count_bounds(lane);
    lemma_complete_no_empty(lane);
}

/// A complete lane has no undetermined cell to count.
pub proof fn lemma_complete_no_empty(lane: Lane)
    requires
        lane_complete(lane),
    ensures
        count_empty(lane) == 0,
    decreases lane.len(),
{
    if lane.len() > 0 {
        assert(lane[lane.len() - 1] is Some);
        assert forall|k: int| 0 <= k < lane.drop_last().len() implies (#[trigger] lane.drop_last()[k]) is Some by {
            assert(lane[k] is Some);
        }
        lemma_complete_no_empty(lane.drop_last());
    }
}

/// A lane that extends another has no more undetermined cells, and fewer
/// where the two differ.
pub proof fn lemma_extends_fewer_empty(fuller: Lane, lane: Lane)
    requires
        lane_extends(fuller, lane),
    ensures
        count_empty(fuller) <= count_empty(lane),
        fuller != lane ==> count_empty(fuller) < count_empty(lane),
    decreases lane.len(),
{
    if lane.len() > 0 {
        let a = lane.drop_last();
        let b = fuller.drop_last();
        assert forall|k: int| 0 <= k < a.len() && (#[trigger] a[k]) is Some implies b[k] == a[k] by {
            assert(lane[k] is Some);
        }
        lemma_extends_fewer_empty(b, a);
        let n = lane.len() - 1;
        assert(lane[n] is Some ==> fuller[n] == lane[n]);
        if fuller != lane {
            if b == a && fuller.last() == lane.last() {
                assert(fuller =~= b.push(fuller.last()));
                assert(lane =~= a.push(lane.last()));
            }
        }
    } else {
        assert(fuller =~= lane);
    }
}

} // verus!
