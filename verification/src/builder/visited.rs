//! The set of cells that a generation algorithm has reached, kept as a board of marks, and the
//! hunt for a cell that can still join the maze.

use super::grid::{step_on_board, LinkDirections};
use super::maze::{
    at, enclosed, grid_cells, lemma_enclosed_set_is_board, lemma_neighbors_among, neighbor_toward,
    neighbors_among, reverse, stays_inside, toward, Position,
};
use vstd::prelude::*;

verus! {

/// The first cell, going through the rows from the top one down and through each row from
/// column 0 upward, starting at the given place, that is not in `visited` but has a neighbour
/// in it; with the direction of the first such neighbour, in the order south, north, west,
/// east.
pub open spec fn hunt_from(
    rows: nat,
    columns: nat,
    visited: Set<Position>,
    row: int,
    column: int,
) -> Option<((usize, usize), LinkDirections)>
    decreases row + 1, columns - column,
{
    if row < 0 || column < 0 {
        None
    } else if column >= columns {
        hunt_from(rows, columns, visited, row - 1, 0)
    } else {
        let cell = (row as usize, column as usize);
        let known = neighbors_among(rows, columns, cell, visited);
        if !visited.contains((row, column)) && known.len() > 0 {
            Some((cell, known[0].1))
        } else {
            hunt_from(rows, columns, visited, row, column + 1)
        }
    }
}

/// The hunt over the whole board.
pub open spec fn hunt(rows: nat, columns: nat, visited: Set<Position>) -> Option<
    ((usize, usize), LinkDirections),
> {
    hunt_from(rows, columns, visited, rows - 1, 0)
}

/// What the hunt finds from a given place on is a cell outside `visited` with its neighbour in
/// the given direction inside; and if it finds nothing, no cell from that place on that is
/// outside `visited` has a neighbour inside.
proof fn lemma_hunt_from(rows: nat, columns: nat, visited: Set<Position>, row: int, column: int)
    requires
        rows <= usize::MAX,
        columns <= usize::MAX,
        row < rows,
    ensures
        match hunt_from(rows, columns, visited, row, column) {
            Some((cell, d)) => {
                &&& grid_cells(rows, columns).contains(at(cell))
                &&& !visited.contains(at(cell))
                &&& grid_cells(rows, columns).contains(toward(at(cell), d))
                &&& visited.contains(toward(at(cell), d))
            },
            None => forall|p: Position|
                grid_cells(rows, columns).contains(p) && !visited.contains(p) && column >= 0 && (p.0
                    < row || (p.0 == row && p.1 >= column)) ==> (#[trigger] neighbors_among(
                    rows,
                    columns,
                    (p.0 as usize, p.1 as usize),
                    visited,
                )).len() == 0,
        },
    decreases row + 1, columns - column,
{
    if row < 0 || column < 0 {
    } else if column >= columns {
        lemma_hunt_from(rows, columns, visited, row - 1, 0);
    } else {
        let cell = (row as usize, column as usize);
        let known = neighbors_among(rows, columns, cell, visited);
        lemma_neighbors_among(rows, columns, cell, visited);
        if !visited.contains((row, column)) && known.len() > 0 {
            assert(at(known[0].0) == toward(at(cell), known[0].1));
        } else {
            lemma_hunt_from(rows, columns, visited, row, column + 1);
        }
    }
}

/// What the hunt finds is a cell of the board outside `visited` with its neighbour in the
/// given direction inside; and if it finds nothing although `visited` holds a cell of the
/// board, then `visited` holds them all.
pub proof fn lemma_hunt(rows: nat, columns: nat, visited: Set<Position>)
    requires
        rows <= usize::MAX,
        columns <= usize::MAX,
    ensures
        hunt(rows, columns, visited) matches Some((cell, d)) ==> {
            &&& grid_cells(rows, columns).contains(at(cell))
            &&& !visited.contains(at(cell))
            &&& grid_cells(rows, columns).contains(toward(at(cell), d))
            &&& visited.contains(toward(at(cell), d))
        },
        hunt(rows, columns, visited) is None && (exists|origin: Position|
            grid_cells(rows, columns).contains(origin) && visited.contains(origin))
            ==> grid_cells(rows, columns).subset_of(visited),
{
    lemma_hunt_from(rows, columns, visited, rows - 1, 0);
    if hunt(rows, columns, visited) is None && (exists|origin: Position|
        grid_cells(rows, columns).contains(origin) && visited.contains(origin)) {
        let origin = choose|origin: Position|
            grid_cells(rows, columns).contains(origin) && visited.contains(origin);
        assert forall|x: Position|
            grid_cells(rows, columns).contains(x) && #[trigger] visited.contains(
                x,
            ) implies enclosed(rows, columns, visited, x) by {
            assert forall|d: LinkDirections| stays_inside(rows, columns, visited, x, d) by {
                let y = toward(x, d);
                if grid_cells(rows, columns).contains(y) && !visited.contains(y) {
                    let cell = (y.0 as usize, y.1 as usize);
                    assert(neighbors_among(rows, columns, cell, visited).len() == 0);
                    lemma_neighbors_among(rows, columns, cell, visited);
                    assert(toward(at(cell), reverse(d)) == x);
                }
            }
        }
        assert forall|p: Position| grid_cells(rows, columns).contains(p) implies visited.contains(
            p,
        ) by {
            lemma_enclosed_set_is_board(rows, columns, visited, origin, p);
        }
    }
}

/// A set of cells of a board, as one mark for each cell.
#[derive(Debug)]
pub struct Visited {
    rows: usize,
    columns: usize,
    marks: Vec<Vec<bool>>,
}

impl View for Visited {
    type V = Set<Position>;

    closed spec fn view(&self) -> Set<Position> {
        Set::new(
            |p: Position|
                0 <= p.0 < self.rows && 0 <= p.1 < self.columns && self.marks@[p.0]@[p.1],
        )
    }
}

impl Visited {
    /// The number of rows of the board.
    pub closed spec fn rows(&self) -> nat {
        self.rows as nat
    }

    /// The number of columns of the board.
    pub closed spec fn columns(&self) -> nat {
        self.columns as nat
    }

    /// There is one mark for each cell of the board.
    pub closed spec fn wf(&self) -> bool {
        &&& self.marks@.len() == self.rows
        &&& forall|r: int| 0 <= r < self.rows ==> (#[trigger] self.marks@[r])@.len() == self.columns
    }

    /// The empty set of cells of a board of the given size.
    pub fn new(rows: usize, columns: usize) -> (made: Visited)
        ensures
            made.wf(),
            made.rows() == rows,
            made.columns() == columns,
            made@ == Set::<Position>::empty(),
    {
        let mut marks: Vec<Vec<bool>> = Vec::with_capacity(rows);
        let mut row: usize = 0;
        while row < rows
            invariant
                row <= rows,
                marks@.len() == row,
                forall|r: int| 0 <= r < row ==> (#[trigger] marks@[r])@.len() == columns,
                forall|r: int, c: int|
                    0 <= r < row && 0 <= c < columns ==> !(#[trigger] marks@[r]@[c]),
            decreases rows - row,
        {
            let mut line: Vec<bool> = Vec::with_capacity(columns);
            let mut column: usize = 0;
            while column < columns
                invariant
                    column <= columns,
                    line@.len() == column,
                    forall|c: int| 0 <= c < column ==> !(#[trigger] line@[c]),
                decreases columns - column,
            {
                line.push(false);
                column += 1;
            }
            marks.push(line);
            row += 1;
        }
        let made = Visited { rows, columns, marks };
        proof {
            assert(made@ =~= Set::<Position>::empty());
        }
        made
    }

    /// Whether the cell is in the set. A place off the board is not.
    pub fn contains(&self, cell: (usize, usize)) -> (marked: bool)
        requires
            self.wf(),
        ensures
            marked == self@.contains(at(cell)),
    {
        cell.0 < self.rows && cell.1 < self.columns && self.marks[cell.0][cell.1]
    }

    /// Puts a cell of the board into the set.
    pub fn insert(&mut self, cell: (usize, usize))
        requires
            old(self).wf(),
            grid_cells(old(self).rows(), old(self).columns()).contains(at(cell)),
        ensures
            final(self).wf(),
            final(self).rows() == old(self).rows(),
            final(self).columns() == old(self).columns(),
            final(self)@ == old(self)@.insert(at(cell)),
    {
        self.marks[cell.0][cell.1] = true;
        proof {
            let before = old(self).marks@;
            let after = self.marks@;
            assert(after.len() == before.len());
            assert forall|r: int, c: int|
                0 <= r < self.rows && 0 <= c < self.columns && (r, c) != at(
                    cell,
                ) implies #[trigger] after[r]@[c] == before[r]@[c] by {}
            assert forall|p: Position|
                self@.contains(p) == old(self)@.insert(at(cell)).contains(p) by {
                if p != at(cell) && 0 <= p.0 < self.rows && 0 <= p.1 < self.columns {
                    assert(after[p.0]@[p.1] == before[p.0]@[p.1]);
                }
            }
            assert(self@ =~= old(self)@.insert(at(cell)));
        }
    }

    /// The neighbours of `cell` on the board that are in the set, if `marked` is true, or
    /// those that are not, if it is false; each with the direction that leads to it, in the
    /// order south, north, west, east.
    pub fn neighbors(&self, cell: (usize, usize), marked: bool) -> (found: Vec<
        ((usize, usize), LinkDirections),
    >)
        requires
            self.wf(),
        ensures
            found@ == neighbors_among(
                self.rows(),
                self.columns(),
                cell,
                if marked {
                    self@
                } else {
                    self@.complement()
                },
            ),
    {
        let mut found: Vec<((usize, usize), LinkDirections)> = Vec::new();
        if let Some(q) = step_on_board(self.rows, self.columns, cell, LinkDirections::South) {
            if self.contains(q) == marked {
                found.push((q, LinkDirections::South));
            }
        }
        if let Some(q) = step_on_board(self.rows, self.columns, cell, LinkDirections::North) {
            if self.contains(q) == marked {
                found.push((q, LinkDirections::North));
            }
        }
        if let Some(q) = step_on_board(self.rows, self.columns, cell, LinkDirections::West) {
            if self.contains(q) == marked {
                found.push((q, LinkDirections::West));
            }
        }
        if let Some(q) = step_on_board(self.rows, self.columns, cell, LinkDirections::East) {
            if self.contains(q) == marked {
                found.push((q, LinkDirections::East));
            }
        }
        proof {
            let rows = self.rows();
            let columns = self.columns();
            let among = if marked {
                self@
            } else {
                self@.complement()
            };
            assert(found@ =~= neighbor_toward(rows, columns, cell, LinkDirections::South, among)
                + neighbor_toward(rows, columns, cell, LinkDirections::North, among)
                + neighbor_toward(rows, columns, cell, LinkDirections::West, among)
                + neighbor_toward(rows, columns, cell, LinkDirections::East, among));
        }
        found
    }

    /// Hunts for a cell that is not in the set but has a neighbour in it, going through the
    /// rows from the top one down and through each row from column 0 upward. Returns the first
    /// such cell with the direction of its first neighbour in the set.
    pub fn hunt(&self) -> (found: Option<((usize, usize), LinkDirections)>)
        requires
            self.wf(),
        ensures
            found == hunt(self.rows(), self.columns(), self@),
    {
        let mut row: usize = self.rows;
        while row > 0
            invariant
                self.wf(),
                row <= self.rows,
                hunt_from(self.rows(), self.columns(), self@, row - 1, 0) == hunt(
                    self.rows(),
                    self.columns(),
                    self@,
                ),
            decreases row,
        {
            row -= 1;
            let mut column: usize = 0;
            while column < self.columns
                invariant
                    self.wf(),
                    row < self.rows,
                    column <= self.columns,
                    hunt_from(self.rows(), self.columns(), self@, row as int, column as int)
                        == hunt(self.rows(), self.columns(), self@),
                decreases self.columns - column,
            {
                if !self.contains((row, column)) {
                    let known = self.neighbors((row, column), true);
                    if known.len() > 0 {
                        return Some(((row, column), known[0].1));
                    }
                }
                column += 1;
            }
        }
        None
    }
}

} // verus!
