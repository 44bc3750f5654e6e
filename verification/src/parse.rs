use vstd::prelude::*;
use vstd::string::*;
use crate::cell::{Cell, cell_of_char};
use crate::error::GridError;
use crate::grid::{Grid, rows_of};
use crate::lane::Lane;
use crate::model::{Cells, grid_valid};

verus! {

/// Whether a character beyond ASCII has the Unicode property White_Space.
pub uninterp spec fn unicode_white_space(c: char) -> bool;

/// The ASCII characters with the Unicode property White_Space: the space
/// and the five controls from the tab to the carriage return.
pub open spec fn ascii_white_space(c: char) -> bool {
    c == ' ' || c == '\t' || c == '\n' || c == '\x0b' || c == '\x0c' || c == '\r'
}

/// Whether a character separates tokens: whether it has the Unicode
/// property White_Space.
pub open spec fn is_blank(c: char) -> bool {
    if c as u32 <= 0x7f {
        ascii_white_space(c)
    } else {
        unicode_white_space(c)
    }
}

/// `char::is_whitespace` of std says whether a character has the Unicode
/// property White_Space. Within ASCII these are the space and the controls
/// from U+0009 to U+000D; beyond ASCII the answer of std is given a name
/// and nothing more is claimed of it.
pub assume_specification[ char::is_whitespace ](c: char) -> (blank: bool)
    ensures
        blank == (if c as u32 <= 0x7f {
            ascii_white_space(c)
        } else {
            unicode_white_space(c)
        }),
;

/// The part of a line before its comment: all that stands before the
/// first `#`.
pub open spec fn code(line: Seq<char>) -> Seq<char>
    decreases line.len(),
{
    if line.len() == 0 {
        line
    } else {
        let before = code(line.drop_last());
        if before.len() == line.len() - 1 && line.last() != '#' {
            before.push(line.last())
        } else {
            before
        }
    }
}

/// The characters of a text that are no white space.
pub open spec fn tokens(text: Seq<char>) -> Seq<char>
    decreases text.len(),
{
    if text.len() == 0 {
        text
    } else if is_blank(text.last()) {
        tokens(text.drop_last())
    } else {
        tokens(text.drop_last()).push(text.last())
    }
}

/// The cell that a token stands for: `-` for an undetermined cell, `0` and
/// `1` for the values. Any other token is an error.
pub open spec fn cell_of_token(c: char) -> Result<Option<Cell>, GridError> {
    if c == '-' {
        Ok(None)
    } else {
        match cell_of_char(c) {
            Ok(v) => Ok(Some(v)),
            Err(e) => Err(e),
        }
    }
}

/// The cells that a sequence of tokens stands for, or the error of the
/// first token that stands for none.
pub open spec fn cells_of_tokens(text: Seq<char>) -> Result<Lane, GridError>
    decreases text.len(),
{
    if text.len() == 0 {
        Ok(Seq::empty())
    } else {
        match cells_of_tokens(text.drop_last()) {
            Err(e) => Err(e),
            Ok(lane) => match cell_of_token(text.last()) {
                Err(e) => Err(e),
                Ok(cell) => Ok(lane.push(cell)),
            },
        }
    }
}

/// The cells that a line of text stands for.
pub open spec fn parse_line(line: Seq<char>) -> Result<Lane, GridError> {
    cells_of_tokens(tokens(code(line)))
}

/// The rows that the first `n` lines stand for. A line without a token
/// adds no row. The first row must be of even length, and every further
/// row as long as the first. The first line that fails decides the error.
pub open spec fn read_rows(lines: Seq<Seq<char>>, n: int) -> Result<Cells, GridError>
    decreases n,
{
    if n <= 0 {
        Ok(Seq::empty())
    } else {
        match read_rows(lines, n - 1) {
            Err(e) => Err(e),
            Ok(rows) => match parse_line(lines[n - 1]) {
                Err(e) => Err(e),
                Ok(row) => if row.len() == 0 {
                    Ok(rows)
                } else if rows.len() == 0 {
                    if row.len() % 2 != 0 {
                        Err(GridError::OddDimension)
                    } else {
                        Ok(rows.push(row))
                    }
                } else if row.len() != rows[0].len() {
                    Err(GridError::WidthMismatch)
                } else {
                    Ok(rows.push(row))
                },
            },
        }
    }
}

/// The grid that lines of text stand for: their rows, which must be an
/// even number, at least two, and break no rule of the puzzle.
pub open spec fn parse_lines(lines: Seq<Seq<char>>) -> Result<Cells, GridError> {
    match read_rows(lines, lines.len() as int) {
        Err(e) => Err(e),
        Ok(rows) => if rows.len() == 0 {
            Err(GridError::EmptyGrid)
        } else if rows.len() % 2 != 0 {
            Err(GridError::OddDimension)
        } else if !grid_valid(rows) {
            Err(GridError::InvalidGrid)
        } else {
            Ok(rows)
        },
    }
}

/// The part before the comment is no longer than the line.
pub proof fn lemma_code_is_prefix(line: Seq<char>)
    ensures
        code(line).len() <= line.len(),
        code(line) == line.take(code(line).len() as int),
    decreases line.len(),
{
    if line.len() > 0 {
        lemma_code_is_prefix(line.drop_last());
        let before = code(line.drop_last());
        assert(before =~= line.take(before.len() as int));
        assert(code(line) =~= line.take(code(line).len() as int));
    } else {
        assert(code(line) =~= line.take(0));
    }
}

/// Once a line has failed, the lines after it change nothing.
pub proof fn lemma_read_rows_error_stays(lines: Seq<Seq<char>>, n: int, m: int)
    requires
        n <= m,
        read_rows(lines, n) is Err,
    ensures
        read_rows(lines, m) == read_rows(lines, n),
    decreases m - n,
{
    if n < m {
        lemma_read_rows_error_stays(lines, n, m - 1);
    }
}

/// The characters of each of the texts.
pub open spec fn texts(lines: Seq<&str>) -> Seq<Seq<char>> {
    Seq::new(lines.len(), |i: int| lines[i]@)
}

impl Grid {
    /// Reads one token: `-` is an undetermined cell, `0` and `1` are the
    /// values, and any other token is an error.
    pub fn parse_token(c: char) -> (cell: Result<Option<Cell>, GridError>)
        ensures
            cell == cell_of_token(c),
    {
        if c == '-' {
            Ok(None)
        } else {
            match Cell::try_from(c) {
                Ok(v) => Ok(Some(v)),
                Err(e) => Err(e),
            }
        }
    }

    /// Reads one line of text: the cells that its tokens stand for, up to
    /// a `#`, or the error of the first token that stands for none.
    pub fn parse_line(line: &str) -> (row: Result<Vec<Option<Cell>>, GridError>)
        ensures
            match row {
                Ok(cells) => parse_line(line@) == Ok::<Lane, GridError>(cells@),
                Err(e) => parse_line(line@) == Err::<Lane, GridError>(e),
            },
    {
        let mut cells: Vec<Option<Cell>> = Vec::new();
        let mut failure: Option<GridError> = None;
        let mut in_code = true;
        for c in it: line.chars()
            invariant
                it.seq() == line@,
                in_code == (code(line@.take(it.index() as int)).len() == it.index()),
                match failure {
                    None => parse_line(line@.take(it.index() as int)) == Ok::<Lane, GridError>(
                        cells@,
                    ),
                    Some(e) => parse_line(line@.take(it.index() as int)) == Err::<Lane, GridError>(
                        e,
                    ),
                },
        {
            let ghost seen = line@.take(it.index() as int);
            let ghost next = line@.take(it.index() + 1);
            proof {
                assert(next.drop_last() =~= seen);
                assert(next.last() == c);
                lemma_code_is_prefix(seen);
            }
            if in_code {
                if c == '#' {
                    in_code = false;
                } else {
                    proof {
                        assert(code(next) == code(seen).push(c));
                        assert(code(next).drop_last() =~= code(seen));
                    }
                    if !c.is_whitespace() {
                        proof {
                            assert(tokens(code(next)) == tokens(code(seen)).push(c));
                            assert(tokens(code(next)).drop_last() =~= tokens(code(seen)));
                        }
                        if failure.is_none() {
                            match Self::parse_token(c) {
                                Ok(cell) => {
                                    cells.push(cell);
                                },
                                Err(e) => {
                                    failure = Some(e);
                                },
                            }
                        }
                    }
                }
            }
        }
        proof {
            assert(line@.take(line@.len() as int) =~= line@);
        }
        match failure {
            None => Ok(cells),
            Some(e) => Err(e),
        }
    }

    /// Reads a grid from lines of text. Each line holds the cells of one
    /// row as tokens `0`, `1` and `-`, with any white space between them;
    /// a `#` starts a comment; a line without a token is passed over.
    pub fn parse(lines: &[&str]) -> (parsed: Result<Grid, GridError>)
        ensures
            match parsed {
                Ok(grid) => {
                    &&& grid.wf()
                    &&& grid_valid(grid@)
                    &&& parse_lines(texts(lines@)) == Ok::<Cells, GridError>(grid@)
                },
                Err(e) => parse_lines(texts(lines@)) == Err::<Cells, GridError>(e),
            },
    {
        let mut cells: Vec<Vec<Option<Cell>>> = Vec::new();
        let mut width: usize = 0;
        let ghost all = texts(lines@);
        proof {
            assert(rows_of(cells@) =~= Seq::<Lane>::empty());
        }
        for n in 0..lines.len()
            invariant
                all == texts(lines@),
                read_rows(all, n as int) == Ok::<Cells, GridError>(rows_of(cells@)),
                forall|i: int| 0 <= i < cells@.len() ==> (#[trigger] cells@[i])@.len() == width,
                cells@.len() > 0 ==> width > 0 && width % 2 == 0,
        {
            let ghost before = rows_of(cells@);
            proof {
                assert(all[n as int] == lines@[n as int]@);
                if cells@.len() > 0 {
                    assert(before[0] == cells@[0]@);
                }
            }
            let row = match Self::parse_line(lines[n]) {
                Ok(row) => row,
                Err(e) => {
                    proof {
                        lemma_read_rows_error_stays(all, n + 1, all.len() as int);
                    }
                    return Err(e);
                },
            };
            if row.len() != 0 {
                if cells.len() == 0 {
                    if row.len() % 2 != 0 {
                        proof {
                            lemma_read_rows_error_stays(all, n + 1, all.len() as int);
                        }
                        return Err(GridError::OddDimension);
                    }
                    width = row.len();
                } else if row.len() != width {
                    proof {
                        lemma_read_rows_error_stays(all, n + 1, all.len() as int);
                    }
                    return Err(GridError::WidthMismatch);
                }
                cells.push(row);
                proof {
                    assert(rows_of(cells@) =~= before.push(row@));
                }
            }
        }
        let height = cells.len();
        if height == 0 {
            return Err(GridError::EmptyGrid);
        } else if height % 2 != 0 {
            return Err(GridError::OddDimension);
        }
        let grid = Grid { cells, width, height };
        proof {
            assert(grid@[0] == grid.cells@[0]@);
            assert forall|i: int| 0 <= i < grid@.len() implies (#[trigger] grid@[i]).len()
                == crate::model::width_of(grid@) by {
                assert(grid@[i] == grid.cells@[i]@);
            }
        }
        if grid.is_valid().is_err() {
            return Err(GridError::InvalidGrid);
        }
        Ok(grid)
    }
}

} // verus!
