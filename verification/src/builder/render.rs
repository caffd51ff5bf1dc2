//! A grid drawn as text: a rule of underscores, then the rows from the top one down, each cell
//! three characters wide.

use super::grid::{Grid, LinkDirections};
use super::maze::{Maze, Position};
use vstd::prelude::*;
use vstd::string::StringExecFns;

verus! {

/// The three characters that stand for a cell: its floor, which is open where the southern wall
/// is, and its eastern wall. A cell with all four walls closed is marked with a star.
pub open spec fn glyph(m: Maze, p: Position) -> Seq<char> {
    if m.unlinked(p) {
        "|*|"@
    } else if m.is_open(p, LinkDirections::South) {
        if m.is_open(p, LinkDirections::East) {
            "   "@
        } else {
            "  |"@
        }
    } else {
        if m.is_open(p, LinkDirections::East) {
            "___"@
        } else {
            "__|"@
        }
    }
}

/// Three underscores for each of `columns` cells.
pub open spec fn rule(columns: nat) -> Seq<char>
    decreases columns,
{
    if columns == 0 {
        Seq::empty()
    } else {
        rule((columns - 1) as nat) + "___"@
    }
}

/// The western border and the first `upto` cells of a row.
pub open spec fn row_text(m: Maze, row: int, upto: nat) -> Seq<char>
    decreases upto,
{
    if upto == 0 {
        "|"@
    } else {
        row_text(m, row, (upto - 1) as nat) + glyph(m, (row, upto - 1))
    }
}

/// The lines of the rows from the top one down to row `from`.
pub open spec fn rows_text(m: Maze, from: int) -> Seq<char>
    decreases m.rows - from,
{
    if from >= m.rows {
        Seq::empty()
    } else {
        rows_text(m, from + 1) + row_text(m, from, m.columns) + "\n"@
    }
}

/// The whole drawing: the rule, one underscore more, and the lines of all rows.
pub open spec fn rendered(m: Maze) -> Seq<char> {
    rule(m.columns) + "_"@ + "\n"@ + rows_text(m, 0)
}

impl Grid {
    /// The three characters that stand for the given cell.
    pub fn glyph(&self, row: usize, column: usize) -> (block: &'static str)
        requires
            self.wf(),
        ensures
            block@ == glyph(self@, (row as int, column as int)),
    {
        if self.unlinked((row, column)) {
            "|*|"
        } else if self.linked(row, column, LinkDirections::South) {
            if self.linked(row, column, LinkDirections::East) {
                "   "
            } else {
                "  |"
            }
        } else {
            if self.linked(row, column, LinkDirections::East) {
                "___"
            } else {
                "__|"
            }
        }
    }

    /// Draws the grid as text.
    pub fn render(&self) -> (text: String)
        requires
            self.wf(),
        ensures
            text@ == rendered(self@),
    {
        let rows: usize = self.rows();
        let columns: usize = self.columns();
        let mut text = String::new();
        let mut column: usize = 0;
        while column < columns
            invariant
                column <= columns,
                text@ == rule(column as nat),
            decreases columns - column,
        {
            text.append("___");
            column += 1;
        }
        text.append("_");
        text.append("\n");
        let ghost head = text@;
        proof {
            assert(text@ =~= head + rows_text(self@, rows as int));
        }
        let mut row: usize = rows;
        while row > 0
            invariant
                self.wf(),
                rows == self@.rows,
                columns == self@.columns,
                row <= rows,
                text@ == head + rows_text(self@, row as int),
            decreases row,
        {
            row -= 1;
            let ghost above = text@;
            text.append("|");
            let mut column: usize = 0;
            while column < columns
                invariant
                    self.wf(),
                    columns == self@.columns,
                    row < rows,
                    rows == self@.rows,
                    column <= columns,
                    text@ == above + row_text(self@, row as int, column as nat),
                decreases columns - column,
            {
                let block = self.glyph(row, column);
                text.append(block);
                proof {
                    assert(text@ =~= above + row_text(self@, row as int, (column + 1) as nat));
                }
                column += 1;
            }
            text.append("\n");
            proof {
                assert(text@ =~= head + rows_text(self@, row as int));
            }
        }
        text
    }
}

} // verus!
