use vstd::prelude::*;
use vstd::string::*;

verus! {

/// Why a grid could not be read or solved.
#[derive(Clone, Copy, Debug, PartialEq, Eq)]
pub enum GridError {
    /// The text holds no row.
    EmptyGrid,
    /// A token that is neither `0`, `1` nor `-`.
    InvalidChar(char),
    /// A rule of the puzzle is broken by the cells already determined.
    InvalidGrid,
    /// The cells are consistent so far, but no completion exists.
    NoSolution,
    /// The width or the height is odd.
    OddDimension,
    /// Two rows differ in length.
    WidthMismatch,
}

/// The text that follows `error: ` in the message of `e`.
pub open spec fn error_detail(e: GridError) -> Seq<char> {
    match e {
        GridError::EmptyGrid => "gris is empty"@,
        GridError::InvalidChar(c) => "unknown character '"@.push(c).push('\''),
        GridError::InvalidGrid => "grid is invalid"@,
        GridError::NoSolution => "grid has no solution"@,
        GridError::OddDimension => "grid has odd dimensions"@,
        GridError::WidthMismatch => "not all lines of the grid have the same length"@,
    }
}

/// The message of `e`, as shown to a user.
pub open spec fn error_message(e: GridError) -> Seq<char> {
    "error: "@ + error_detail(e)
}

/// `String::push` of std appends the character to the end of the string:
/// the text afterwards is the text before, followed by `c`.
pub assume_specification[ String::push ](s: &mut String, c: char)
    ensures
        final(s)@ == old(s)@.push(c),
;

impl GridError {
    /// The message of this error, as shown to a user.
    pub fn message(&self) -> (text: String)
        ensures
            text@ == error_message(*self),
    {
        let mut text = String::from_str("error: ");
        match self {
            GridError::EmptyGrid => {
                text.append("gris is empty");
            },
            GridError::InvalidChar(c) => {
                text.append("unknown character '");
                text.push(*c);
                text.push('\'');
            },
            GridError::InvalidGrid => {
                text.append("grid is invalid");
            },
            GridError::NoSolution => {
                text.append("grid has no solution");
            },
            GridError::OddDimension => {
                text.append("grid has odd dimensions");
            },
            GridError::WidthMismatch => {
                text.append("not all lines of the grid have the same length");
            },
        }
        proof {
            assert(text@ =~= error_message(*self));
        }
        text
    }
}

} // verus!
