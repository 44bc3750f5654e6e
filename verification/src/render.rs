use vstd::prelude::*;
use vstd::string::*;
use crate::cell::{Cell, char_of_cell};
use crate::error::GridError;
use crate::grid::Grid;
use crate::index::Index;
use crate::lane::Lane;
use crate::model::{Cells, grid_valid, well_formed, width_of};
use crate::parse::{
    cell_of_token, cells_of_tokens, code, is_blank, parse_line, parse_lines, read_rows, tokens,
};

verus! {

/// The token that stands for a cell: `-` for an undetermined cell.
pub open spec fn token_of_cell(cell: Option<Cell>) -> char {
    match cell {
        Some(c) => char_of_cell(c),
        None => '-',
    }
}

/// The tokens of a lane, one for each cell.
pub open spec fn symbols(lane: Lane) -> Seq<char> {
    Seq::new(lane.len(), |k: int| token_of_cell(lane[k]))
}

/// A lane as text: its tokens with one space between neighbours.
pub open spec fn row_text(lane: Lane) -> Seq<char>
    decreases lane.len(),
{
    if lane.len() == 0 {
        Seq::empty()
    } else if lane.len() == 1 {
        seq![token_of_cell(lane[0])]
    } else {
        row_text(lane.drop_last()).push(' ').push(token_of_cell(lane.last()))
    }
}

/// A grid as lines of text, one for each row.
pub open spec fn grid_lines(cells: Cells) -> Seq<Seq<char>> {
    Seq::new(cells.len(), |i: int| row_text(cells[i]))
}

/// A grid as one text: its lines with one line break between neighbours.
pub open spec fn grid_text(cells: Cells) -> Seq<char>
    decreases cells.len(),
{
    if cells.len() == 0 {
        Seq::empty()
    } else if cells.len() == 1 {
        row_text(cells[0])
    } else {
        grid_text(cells.drop_last()).push('\n') + row_text(cells.last())
    }
}

/// The text of a lane holds no comment, its tokens are those of the lane,
/// and they stand for the lane.
pub proof fn lemma_row_text_reads_back(lane: Lane)
    ensures
        code(row_text(lane)) == row_text(lane),
        tokens(row_text(lane)) == symbols(lane),
        cells_of_tokens(symbols(lane)) == Ok::<Lane, GridError>(lane),
        parse_line(row_text(lane)) == Ok::<Lane, GridError>(lane),
    decreases lane.len(),
{
    let text = row_text(lane);
    if lane.len() == 0 {
        assert(symbols(lane) =~= Seq::<char>::empty());
        assert(lane =~= Seq::<Option<Cell>>::empty());
    } else {
        let front = lane.drop_last();
        let token = token_of_cell(lane.last());
        lemma_row_text_reads_back(front);
        assert(token == '0' || token == '1' || token == '-');
        assert(!is_blank(token));
        assert(is_blank(' '));
        assert(symbols(lane).drop_last() =~= symbols(front));
        assert(symbols(lane).last() == token);
        assert(cell_of_token(token) == Ok::<Option<Cell>, GridError>(lane.last()));
        assert(front.push(lane.last()) =~= lane);
        if lane.len() == 1 {
            assert(text.drop_last() =~= Seq::<char>::empty());
            assert(code(text.drop_last()) =~= Seq::<char>::empty());
            assert(tokens(text.drop_last()) =~= Seq::<char>::empty());
            assert(code(text) =~= text);
            assert(tokens(text) =~= symbols(lane));
        } else {
            let spaced = row_text(front).push(' ');
            assert(text.drop_last() =~= spaced);
            assert(spaced.drop_last() =~= row_text(front));
            assert(code(spaced) =~= spaced);
            assert(tokens(spaced) =~= symbols(front));
            assert(code(text) =~= text);
            assert(tokens(text) =~= symbols(lane));
        }
    }
}

/// The first `n` lines of a well-formed grid read back as its first `n`
/// rows.
pub proof fn lemma_grid_lines_read_back(cells: Cells, n: int)
    requires
        well_formed(cells),
        0 <= n <= cells.len(),
    ensures
        read_rows(grid_lines(cells), n) == Ok::<Cells, GridError>(cells.take(n)),
    decreases n,
{
    if n == 0 {
        assert(cells.take(0) =~= Seq::<Lane>::empty());
    } else {
        lemma_grid_lines_read_back(cells, n - 1);
        lemma_row_text_reads_back(cells[n - 1]);
        assert(cells[n - 1].len() == width_of(cells));
        assert(cells[0].len() == width_of(cells));
        assert(cells.take(n - 1).push(cells[n - 1]) =~= cells.take(n));
        if n > 1 {
            assert(cells.take(n - 1)[0] == cells[0]);
        }
    }
}

/// Reading the lines of a grid that breaks no rule gives that grid back.
pub proof fn lemma_parse_rendered(cells: Cells)
    requires
        well_formed(cells),
        grid_valid(cells),
    ensures
        parse_lines(grid_lines(cells)) == Ok::<Cells, GridError>(cells),
{
    lemma_grid_lines_read_back(cells, cells.len() as int);
    assert(cells.take(cells.len() as int) =~= cells);
}

impl Grid {
    /// The text of row `i`: its tokens with one space between neighbours.
    pub fn line_text(&self, i: usize) -> (text: String)
        requires
            self.wf(),
            i < self@.len(),
        ensures
            text@ == row_text(self@[i as int]),
    {
        let mut text = String::new();
        let ghost row = self@[i as int];
        proof {
            self.lemma_row(i as int);
            assert(row.take(0) =~= Seq::<Option<Cell>>::empty());
        }
        for j in 0..self.width
            invariant
                self.wf(),
                i < self@.len(),
                row == self@[i as int],
                row.len() == self.width,
                text@ == row_text(row.take(j as int)),
        {
            let token = match self.get(Index(i, j)) {
                Some(cell) => cell.to_char(),
                None => '-',
            };
            if j > 0 {
                text.push(' ');
            }
            text.push(token);
            proof {
                assert(row.take(j + 1).drop_last() =~= row.take(j as int));
                assert(row.take(j + 1).last() == row[j as int]);
            }
        }
        proof {
            assert(row.take(row.len() as int) =~= row);
        }
        text
    }

    /// The grid as lines of text, one for each row.
    pub fn to_lines(&self) -> (lines: Vec<String>)
        requires
            self.wf(),
        ensures
            lines@.len() == self@.len(),
            forall|i: int| 0 <= i < lines@.len() ==> (#[trigger] lines@[i])@ == grid_lines(self@)[i],
    {
        let mut lines: Vec<String> = Vec::new();
        for i in 0..self.height
            invariant
                self.wf(),
                lines@.len() == i,
                forall|a: int| 0 <= a < i ==> (#[trigger] lines@[a])@ == row_text(self@[a]),
        {
            let text = self.line_text(i);
            lines.push(text);
        }
        lines
    }

    /// The grid as one text: its lines with one line break between
    /// neighbours.
    pub fn render(&self) -> (text: String)
        requires
            self.wf(),
        ensures
            text@ == grid_text(self@),
    {
        let mut text = String::new();
        proof {
            assert(self@.take(0) =~= Seq::<Lane>::empty());
        }
        for i in 0..self.height
            invariant
                self.wf(),
                text@ == grid_text(self@.take(i as int)),
        {
            let line = self.line_text(i);
            if i > 0 {
                text.push('\n');
            }
            text.append(line.as_str());
            proof {
                assert(self@.take(i + 1).drop_last() =~= self@.take(i as int));
                assert(self@.take(i + 1).last() == self@[i as int]);
                if i == 0 {
                    assert(text@ =~= row_text(self@[0]));
                }
            }
        }
        proof {
            assert(self@.take(self@.len() as int) =~= self@);
        }
        text
    }
}

} // verus!
