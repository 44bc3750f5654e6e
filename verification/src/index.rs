use vstd::prelude::*;
use vstd::std_specs::convert::FromSpecImpl;
use vstd::std_specs::ops::AddSpecImpl;
use vstd::std_specs::ops::SubSpecImpl;

verus! {

/// The place of a cell: its row, then its column.
#[derive(Clone, Copy, Debug)]
pub struct Index(pub usize, pub usize);

impl Index {
    /// The place `i` rows further down (up, where `i` is negative), in the
    /// same column.
    pub fn line(&self, i: i64) -> (moved: Index)
        requires
            i64::MIN < i,
            0 <= self.0 + i <= usize::MAX,
        ensures
            moved.0 == self.0 + i,
            moved.1 == self.1,
    {
        if i > 0 {
            *self + Index(i as usize, 0)
        } else {
            *self - Index((-i) as usize, 0)
        }
    }

    /// The place `j` columns further right (left, where `j` is negative), in
    /// the same row.
    pub fn col(&self, j: i64) -> (moved: Index)
        requires
            i64::MIN < j,
            0 <= self.1 + j <= usize::MAX,
        ensures
            moved.0 == self.0,
            moved.1 == self.1 + j,
    {
        if j > 0 {
            *self + Index(0, j as usize)
        } else {
            *self - Index(0, (-j) as usize)
        }
    }
}

impl std::ops::Add<Index> for Index {
    type Output = Index;

    fn add(self, other: Index) -> (sum: Index)
    {
        Index(self.0 + other.0, self.1 + other.1)
    }
}

impl AddSpecImpl<Index> for Index {
    open spec fn obeys_add_spec() -> bool {
        true
    }

    open spec fn add_req(self, other: Index) -> bool {
        self.0 + other.0 <= usize::MAX && self.1 + other.1 <= usize::MAX
    }

    open spec fn add_spec(self, other: Index) -> Index {
        Index((self.0 + other.0) as usize, (self.1 + other.1) as usize)
    }
}

impl std::ops::Sub<Index> for Index {
    type Output = Index;

    fn sub(self, other: Index) -> (difference: Index)
    {
        Index(self.0 - other.0, self.1 - other.1)
    }
}

impl SubSpecImpl<Index> for Index {
    open spec fn obeys_sub_spec() -> bool {
        true
    }

    open spec fn sub_req(self, other: Index) -> bool {
        other.0 <= self.0 && other.1 <= self.1
    }

    open spec fn sub_spec(self, other: Index) -> Index {
        Index((self.0 - other.0) as usize, (self.1 - other.1) as usize)
    }
}

impl From<(usize, usize)> for Index {
    fn from(pair: (usize, usize)) -> (idx: Index)
    {
        Index(pair.0, pair.1)
    }
}

impl FromSpecImpl<(usize, usize)> for Index {
    open spec fn obeys_from_spec() -> bool {
        true
    }

    open spec fn from_spec(pair: (usize, usize)) -> Index {
        Index(pair.0, pair.1)
    }
}

} // verus!
