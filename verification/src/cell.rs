use vstd::prelude::*;
use vstd::std_specs::convert::TryFromSpecImpl;
use vstd::std_specs::ops::NotSpecImpl;
use crate::error::GridError;

verus! {

/// A determined value of the puzzle. An undetermined cell is `None` in an
/// `Option<Cell>`.
#[derive(Clone, Copy, Debug, PartialEq, Eq, Hash, Structural)]
pub enum Cell {
    Zero,
    One,
}

/// The other value.
pub open spec fn opposite(c: Cell) -> Cell {
    match c {
        Cell::Zero => Cell::One,
        Cell::One => Cell::Zero,
    }
}

/// The value that a token stands for, or the error for a token that stands
/// for none.
pub open spec fn cell_of_char(c: char) -> Result<Cell, GridError> {
    if c == '0' {
        Ok(Cell::Zero)
    } else if c == '1' {
        Ok(Cell::One)
    } else {
        Err(GridError::InvalidChar(c))
    }
}

/// The token that stands for a value.
pub open spec fn char_of_cell(c: Cell) -> char {
    match c {
        Cell::Zero => '0',
        Cell::One => '1',
    }
}

impl Cell {
    /// The two values, in the order in which the solver tries them.
    pub fn iter() -> (all: Vec<Cell>)
        ensures
            all@ == seq![Cell::Zero, Cell::One],
    {
        let mut all: Vec<Cell> = Vec::new();
        all.push(Cell::Zero);
        all.push(Cell::One);
        proof {
            assert(all@ =~= seq![Cell::Zero, Cell::One]);
        }
        all
    }

    /// The token that stands for this value.
    pub fn to_char(self) -> (c: char)
        ensures
            c == char_of_cell(self),
    {
        match self {
            Cell::Zero => '0',
            Cell::One => '1',
        }
    }
}

impl std::ops::Not for Cell {
    type Output = Cell;

    fn not(self) -> (other: Cell)
    {
        match self {
            Cell::Zero => Cell::One,
            Cell::One => Cell::Zero,
        }
    }
}

impl NotSpecImpl for Cell {
    open spec fn obeys_not_spec() -> bool {
        true
    }

    open spec fn not_req(self) -> bool {
        true
    }

    open spec fn not_spec(self) -> Cell {
        opposite(self)
    }
}

impl TryFrom<char> for Cell {
    type Error = GridError;

    fn try_from(c: char) -> (r: Result<Cell, GridError>)
    {
        if c == '0' {
            Ok(Cell::Zero)
        } else if c == '1' {
            Ok(Cell::One)
        } else {
            Err(GridError::InvalidChar(c))
        }
    }
}

impl TryFromSpecImpl<char> for Cell {
    open spec fn obeys_try_from_spec() -> bool {
        true
    }

    open spec fn try_from_spec(c: char) -> Result<Cell, GridError> {
        cell_of_char(c)
    }
}

} // verus!
