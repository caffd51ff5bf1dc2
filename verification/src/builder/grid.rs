//! The grid of cells and the links between them.

use super::maze::{
    at, grid_cells, lemma_blank, lemma_link, neighbor_toward, neighbors_among, neighbors_of,
    reverse, toward, Maze, Position,
};
use super::sidewinder::{sidewinder_maze, sidewinder_seeded};
use vstd::arithmetic::div_mod::{
    lemma_fundamental_div_mod, lemma_fundamental_div_mod_converse, lemma_mod_bound,
};
use vstd::prelude::*;

verus! {

/// The four sides of a cell. North is the side of the next row, east that of the next column.
#[derive(Debug, PartialEq, Eq, Hash, Clone, Copy, Structural)]
pub enum LinkDirections {
    East,
    West,
    North,
    South,
}

impl LinkDirections {
    /// The side that faces this one from the neighbouring cell.
    pub fn opposite(self) -> (back: LinkDirections)
        ensures
            back == reverse(self),
    {
        match self {
            LinkDirections::North => LinkDirections::South,
            LinkDirections::South => LinkDirections::North,
            LinkDirections::East => LinkDirections::West,
            LinkDirections::West => LinkDirections::East,
        }
    }
}

/// Why a grid could not be made.
#[derive(Debug, PartialEq, Eq, Clone, Copy, Structural)]
pub enum GridError {
    /// A dimension is zero: the grid would have no cell.
    NoCells,
    /// The number of cells does not fit in a `usize`.
    TooLarge,
}

/// One cell of a grid: where it stands, and which of its four walls are open.
#[derive(Debug, Default, Clone, Copy)]
pub struct Cell {
    row: usize,
    column: usize,
    north: bool,
    east: bool,
    south: bool,
    west: bool,
}

impl Cell {
    /// The row and column of the cell.
    pub closed spec fn position(self) -> (usize, usize) {
        (self.row, self.column)
    }

    /// The wall on side `d` is open.
    pub closed spec fn has(self, d: LinkDirections) -> bool {
        match d {
            LinkDirections::North => self.north,
            LinkDirections::East => self.east,
            LinkDirections::South => self.south,
            LinkDirections::West => self.west,
        }
    }

    /// A cell with all four walls closed.
    pub fn new(row: usize, column: usize) -> (cell: Cell)
        ensures
            cell.position() == (row, column),
            forall|d: LinkDirections| !cell.has(d),
    {
        Cell { row, column, north: false, east: false, south: false, west: false }
    }

    /// Opens the wall on the given side.
    pub fn link(&mut self, direction: LinkDirections)
        ensures
            final(self).position() == old(self).position(),
            forall|d: LinkDirections| final(self).has(d) == (old(self).has(d) || d == direction),
    {
        match direction {
            LinkDirections::North => {
                self.north = true;
            },
            LinkDirections::East => {
                self.east = true;
            },
            LinkDirections::South => {
                self.south = true;
            },
            LinkDirections::West => {
                self.west = true;
            },
        }
    }

    /// Closes the wall on the given side.
    pub fn unlink(&mut self, direction: LinkDirections)
        ensures
            final(self).position() == old(self).position(),
            forall|d: LinkDirections| final(self).has(d) == (old(self).has(d) && d != direction),
    {
        match direction {
            LinkDirections::North => {
                self.north = false;
            },
            LinkDirections::East => {
                self.east = false;
            },
            LinkDirections::South => {
                self.south = false;
            },
            LinkDirections::West => {
                self.west = false;
            },
        }
    }

    /// Whether the wall on the given side is open.
    pub fn linked(self, direction: LinkDirections) -> (open: bool)
        ensures
            open == self.has(direction),
    {
        match direction {
            LinkDirections::North => self.north,
            LinkDirections::East => self.east,
            LinkDirections::South => self.south,
            LinkDirections::West => self.west,
        }
    }
}

/// The positions of a board in row-major order: row 0 from column 0 upward, then row 1, and
/// so on.
pub open spec fn row_major(rows: nat, columns: nat) -> Seq<(usize, usize)> {
    Seq::new(
        rows * columns,
        |i: int| ((i / columns as int) as usize, (i % columns as int) as usize),
    )
}

/// Where a cell stands in the row-major order of a board with the given number of columns.
pub open spec fn row_major_index(columns: nat, p: Position) -> int {
    p.0 * columns + p.1
}

/// The row-major order lists every cell of the board once: the cell in row `r` and column `c`
/// stands at index `r * columns + c`.
pub proof fn lemma_row_major(rows: nat, columns: nat)
    requires
        rows * columns <= usize::MAX,
    ensures
        row_major(rows, columns).len() == rows * columns,
        row_major(rows, columns).no_duplicates(),
        forall|i: int|
            0 <= i < rows * columns ==> grid_cells(rows, columns).contains(
                at(#[trigger] row_major(rows, columns)[i]),
            ),
        forall|p: Position|
            grid_cells(rows, columns).contains(p) ==> 0 <= #[trigger] row_major_index(columns, p)
                < rows * columns && at(row_major(rows, columns)[row_major_index(columns, p)]) == p,
{
    let cells = row_major(rows, columns);
    let n = columns as int;
    assert forall|i: int| 0 <= i < rows * columns implies grid_cells(rows, columns).contains(
        at(#[trigger] cells[i]),
    ) && i == n * (i / n) + i % n by {
        assert(n > 0) by (nonlinear_arith)
            requires
                0 <= i < rows * n,
        ;
        lemma_fundamental_div_mod(i, n);
        lemma_mod_bound(i, n);
        assert(0 <= i / n < rows) by (nonlinear_arith)
            requires
                0 <= i < rows * n,
                i == n * (i / n) + i % n,
                0 <= i % n < n,
        ;
    }
    assert forall|i: int, j: int|
        0 <= i < cells.len() && 0 <= j < cells.len() && i != j implies cells[i] != cells[j] by {
        assert(grid_cells(rows, columns).contains(at(cells[i])));
        assert(grid_cells(rows, columns).contains(at(cells[j])));
    }
    assert forall|p: Position| grid_cells(rows, columns).contains(p) implies 0
        <= #[trigger] row_major_index(columns, p) < rows * columns && at(
        cells[row_major_index(columns, p)],
    ) == p by {
        let r = p.0;
        let c = p.1;
        assert(0 <= r * n + c < rows * n) by (nonlinear_arith)
            requires
                0 <= r < rows,
                0 <= c < n,
        ;
        lemma_fundamental_div_mod_converse(r * n + c, n, r, c);
    }
}

/// The cell one step from `cell` in the given direction on a board of the given size, or `None`
/// if that step leaves the board.
pub fn step_on_board(
    rows: usize,
    columns: usize,
    cell: (usize, usize),
    direction: LinkDirections,
) -> (found: Option<(usize, usize)>)
    ensures
        found is Some <==> grid_cells(rows as nat, columns as nat).contains(
            toward(at(cell), direction),
        ),
        found matches Some(q) ==> at(q) == toward(at(cell), direction),
{
    match direction {
        LinkDirections::North => {
            if cell.1 < columns && cell.0 < usize::MAX && cell.0 + 1 < rows {
                Some((cell.0 + 1, cell.1))
            } else {
                None
            }
        },
        LinkDirections::South => {
            if cell.1 < columns && cell.0 >= 1 && cell.0 - 1 < rows {
                Some((cell.0 - 1, cell.1))
            } else {
                None
            }
        },
        LinkDirections::East => {
            if cell.0 < rows && cell.1 < usize::MAX && cell.1 + 1 < columns {
                Some((cell.0, cell.1 + 1))
            } else {
                None
            }
        },
        LinkDirections::West => {
            if cell.0 < rows && cell.1 >= 1 && cell.1 - 1 < columns {
                Some((cell.0, cell.1 - 1))
            } else {
                None
            }
        },
    }
}

/// A rectangular grid of cells. Its view is the maze that its cells' open walls describe.
#[derive(Debug)]
pub struct Grid {
    rows: usize,
    columns: usize,
    grid: Vec<Vec<Cell>>,
}

impl View for Grid {
    type V = Maze;

    closed spec fn view(&self) -> Maze {
        Maze {
            rows: self.rows as nat,
            columns: self.columns as nat,
            links: Set::new(
                |h: (Position, LinkDirections)|
                    0 <= h.0.0 < self.rows && 0 <= h.0.1 < self.columns
                        && self.grid@[h.0.0]@[h.0.1].has(h.1),
            ),
        }
    }
}

impl Grid {
    /// The rows all have the grid's width, and each cell knows where it stands.
    pub closed spec fn shaped(&self) -> bool {
        &&& self.grid@.len() == self.rows
        &&& forall|r: int| 0 <= r < self.rows ==> (#[trigger] self.grid@[r])@.len() == self.columns
        &&& forall|r: int, c: int|
            0 <= r < self.rows && 0 <= c < self.columns ==> (#[trigger] self.grid@[r]@[c])
                .position() == (r as usize, c as usize)
    }

    /// The grid's invariant: it has at least one cell, its cells can be counted in a `usize`,
    /// every open wall is open from both sides, and none leads off the board.
    pub open spec fn wf(&self) -> bool {
        &&& self.shaped()
        &&& self@.rows >= 1
        &&& self@.columns >= 1
        &&& self@.rows <= usize::MAX
        &&& self@.columns <= usize::MAX
        &&& self@.rows * self@.columns <= usize::MAX
        &&& self@.well_formed()
    }

    /// A grid of `rows` by `columns` cells with every wall closed. A grid without cells, or
    /// with more cells than a `usize` can count, is refused.
    pub fn new(rows: usize, columns: usize) -> (made: Result<Grid, GridError>)
        ensures
            match made {
                Ok(grid) => {
                    &&& rows >= 1
                    &&& columns >= 1
                    &&& rows * columns <= usize::MAX
                    &&& grid.wf()
                    &&& grid@ == Maze::blank(rows as nat, columns as nat)
                    &&& grid@.link_count() == 0
                },
                Err(GridError::NoCells) => rows == 0 || columns == 0,
                Err(GridError::TooLarge) => rows >= 1 && columns >= 1 && rows * columns
                    > usize::MAX,
            },
    {
        if rows == 0 || columns == 0 {
            return Err(GridError::NoCells);
        }
        if rows.checked_mul(columns).is_none() {
            return Err(GridError::TooLarge);
        }
        let mut grid: Vec<Vec<Cell>> = Vec::with_capacity(rows);
        let mut row: usize = 0;
        while row < rows
            invariant
                row <= rows,
                grid@.len() == row,
                forall|r: int| 0 <= r < row ==> (#[trigger] grid@[r])@.len() == columns,
                forall|r: int, c: int|
                    0 <= r < row && 0 <= c < columns ==> (#[trigger] grid@[r]@[c]).position() == (
                        r as usize,
                        c as usize,
                    ) && forall|d: LinkDirections| !grid@[r]@[c].has(d),
            decreases rows - row,
        {
            let mut cells: Vec<Cell> = Vec::with_capacity(columns);
            let mut column: usize = 0;
            while column < columns
                invariant
                    column <= columns,
                    cells@.len() == column,
                    forall|c: int|
                        0 <= c < column ==> (#[trigger] cells@[c]).position() == (row, c as usize)
                            && forall|d: LinkDirections| !cells@[c].has(d),
                decreases columns - column,
            {
                cells.push(Cell::new(row, column));
                column += 1;
            }
            grid.push(cells);
            row += 1;
        }
        let made = Grid { rows, columns, grid };
        proof {
            assert(made@.links =~= Set::empty());
            lemma_blank(rows as nat, columns as nat);
        }
        Ok(made)
    }

    /// The number of rows.
    pub fn rows(&self) -> (rows: usize)
        ensures
            rows == self@.rows,
    {
        self.rows
    }

    /// The number of columns.
    pub fn columns(&self) -> (columns: usize)
        ensures
            columns == self@.columns,
    {
        self.columns
    }

    /// The cell at the given place, or `None` if the place is off the board.
    pub fn cell(&self, row: usize, column: usize) -> (found: Option<Cell>)
        requires
            self.wf(),
        ensures
            found is Some <==> self@.contains_cell((row as int, column as int)),
            found matches Some(cell) ==> {
                &&& cell.position() == (row, column)
                &&& forall|d: LinkDirections|
                    cell.has(d) == self@.is_open((row as int, column as int), d)
            },
    {
        if row < self.rows && column < self.columns {
            Some(self.grid[row][column])
        } else {
            None
        }
    }

    /// Whether the wall of the given cell on the given side is open. A place off the board
    /// has no open wall.
    pub fn linked(&self, row: usize, column: usize, direction: LinkDirections) -> (open: bool)
        requires
            self.wf(),
        ensures
            open == self@.is_open((row as int, column as int), direction),
    {
        if row < self.rows && column < self.columns {
            self.grid[row][column].linked(direction)
        } else {
            false
        }
    }

    /// Whether all four walls of the given cell are closed.
    pub fn unlinked(&self, cell: (usize, usize)) -> (closed: bool)
        requires
            self.wf(),
        ensures
            closed == self@.unlinked(at(cell)),
    {
        !self.linked(cell.0, cell.1, LinkDirections::North) && !self.linked(
            cell.0,
            cell.1,
            LinkDirections::East,
        ) && !self.linked(cell.0, cell.1, LinkDirections::South) && !self.linked(
            cell.0,
            cell.1,
            LinkDirections::West,
        )
    }

    /// Whether every wall of the grid is closed.
    pub fn is_blank(&self) -> (blank: bool)
        requires
            self.wf(),
        ensures
            blank == (self@ == Maze::blank(self@.rows, self@.columns)),
    {
        let mut row: usize = 0;
        while row < self.rows
            invariant
                self.wf(),
                row <= self.rows,
                forall|p: Position, d: LinkDirections|
                    0 <= p.0 < row ==> !#[trigger] self@.is_open(p, d),
            decreases self.rows - row,
        {
            let mut column: usize = 0;
            while column < self.columns
                invariant
                    self.wf(),
                    row < self.rows,
                    column <= self.columns,
                    forall|p: Position, d: LinkDirections|
                        0 <= p.0 < row ==> !#[trigger] self@.is_open(p, d),
                    forall|p: Position, d: LinkDirections|
                        p.0 == row && 0 <= p.1 < column ==> !#[trigger] self@.is_open(p, d),
                decreases self.columns - column,
            {
                if !self.unlinked((row, column)) {
                    proof {
                        let p = (row as int, column as int);
                        assert(exists|d: LinkDirections| self@.is_open(p, d));
                        assert(self@.links !== Set::<(Position, LinkDirections)>::empty());
                    }
                    return false;
                }
                proof {
                    let here = (row as int, column as int);
                    assert forall|p: Position, d: LinkDirections|
                        p.0 == row && 0 <= p.1 < column + 1 implies !#[trigger] self@.is_open(
                        p,
                        d,
                    ) by {
                        if p.1 == column {
                            assert(p == here);
                            assert(self@.unlinked(here));
                        }
                    }
                }
                column += 1;
            }
            row += 1;
        }
        proof {
            assert forall|h: (Position, LinkDirections)| !self@.links.contains(h) by {
                assert(!self@.is_open(h.0, h.1));
            }
            assert(self@.links =~= Set::empty());
        }
        true
    }

    /// The cell one step from `cell` in the given direction, or `None` if that step leaves
    /// the board.
    pub fn neighbor(&self, cell: (usize, usize), direction: LinkDirections) -> (found: Option<
        (usize, usize),
    >)
        ensures
            found is Some <==> self@.contains_cell(toward(at(cell), direction)),
            found matches Some(q) ==> at(q) == toward(at(cell), direction),
    {
        step_on_board(self.rows, self.columns, cell, direction)
    }

    /// Opens the wall between the given cell and its neighbour in the given direction, from
    /// both sides. Where there is no such neighbour, or no such cell, nothing changes.
    pub fn link(&mut self, row: usize, column: usize, direction: LinkDirections)
        requires
            old(self).wf(),
        ensures
            final(self).wf(),
            final(self)@ == old(self)@.link((row as int, column as int), direction),
            !old(self)@.contains_cell(toward((row as int, column as int), direction))
                ==> final(self)@ == old(self)@,
            final(self)@.link_count() == old(self)@.link_count() + (if old(self)@.opens(
                (row as int, column as int),
                direction,
            ) {
                1int
            } else {
                0int
            }),
    {
        proof {
            lemma_link(self@, (row as int, column as int), direction);
        }
        if row < self.rows && column < self.columns {
            if let Some(other) = self.neighbor((row, column), direction) {
                self.open_wall((row, column), direction);
                self.open_wall(other, direction.opposite());
            }
        }
    }

    /// Opens one wall of one cell, from that cell's side only.
    fn open_wall(&mut self, cell: (usize, usize), direction: LinkDirections)
        requires
            old(self).shaped(),
            old(self)@.contains_cell(at(cell)),
        ensures
            final(self).shaped(),
            final(self)@.rows == old(self)@.rows,
            final(self)@.columns == old(self)@.columns,
            final(self)@.links == old(self)@.links.insert((at(cell), direction)),
    {
        self.grid[cell.0][cell.1].link(direction);
        proof {
            let before = old(self).grid@;
            let after = self.grid@;
            assert(after.len() == before.len());
            assert(after[cell.0 as int]@.len() == before[cell.0 as int]@.len());
            assert forall|r: int, c: int|
                0 <= r < self.rows && 0 <= c < self.columns && (r, c) != at(
                    cell,
                ) implies #[trigger] after[r]@[c] == before[r]@[c] by {}
            assert forall|h: (Position, LinkDirections)|
                self@.links.contains(h) == old(self)@.links.insert(
                    (at(cell), direction),
                ).contains(h) by {
                if h.0 == at(cell) {
                    assert(after[h.0.0]@[h.0.1].has(h.1) == (before[h.0.0]@[h.0.1].has(h.1) || h.1
                        == direction));
                } else if 0 <= h.0.0 < self.rows && 0 <= h.0.1 < self.columns {
                    assert(after[h.0.0]@[h.0.1] == before[h.0.0]@[h.0.1]);
                }
            }
            assert(self@.links =~= old(self)@.links.insert((at(cell), direction)));
        }
    }

    /// The neighbours of `cell` on the board, each with the direction that leads from `cell`
    /// to it, in the order south, north, west, east.
    pub fn neighbors(&self, cell: (usize, usize)) -> (found: Vec<((usize, usize), LinkDirections)>)
        ensures
            found@ == neighbors_of(self@.rows, self@.columns, cell),
    {
        let mut found: Vec<((usize, usize), LinkDirections)> = Vec::new();
        if let Some(q) = self.neighbor(cell, LinkDirections::South) {
            found.push((q, LinkDirections::South));
        }
        if let Some(q) = self.neighbor(cell, LinkDirections::North) {
            found.push((q, LinkDirections::North));
        }
        if let Some(q) = self.neighbor(cell, LinkDirections::West) {
            found.push((q, LinkDirections::West));
        }
        if let Some(q) = self.neighbor(cell, LinkDirections::East) {
            found.push((q, LinkDirections::East));
        }
        proof {
            let all = Set::<Position>::full();
            assert(found@ =~= neighbor_toward(
                self@.rows,
                self@.columns,
                cell,
                LinkDirections::South,
                all,
            ) + neighbor_toward(self@.rows, self@.columns, cell, LinkDirections::North, all)
                + neighbor_toward(self@.rows, self@.columns, cell, LinkDirections::West, all)
                + neighbor_toward(self@.rows, self@.columns, cell, LinkDirections::East, all));
        }
        found
    }

    /// The neighbours of `cell` that have all four walls closed, in the order of `neighbors`.
    pub fn unlinked_neighbors(&self, cell: (usize, usize)) -> (found: Vec<
        ((usize, usize), LinkDirections),
    >)
        requires
            self.wf(),
        ensures
            found@ == neighbors_among(self@.rows, self@.columns, cell, self@.unlinked_cells()),
    {
        let mut found: Vec<((usize, usize), LinkDirections)> = Vec::new();
        if let Some(q) = self.neighbor(cell, LinkDirections::South) {
            if self.unlinked(q) {
                found.push((q, LinkDirections::South));
            }
        }
        if let Some(q) = self.neighbor(cell, LinkDirections::North) {
            if self.unlinked(q) {
                found.push((q, LinkDirections::North));
            }
        }
        if let Some(q) = self.neighbor(cell, LinkDirections::West) {
            if self.unlinked(q) {
                found.push((q, LinkDirections::West));
            }
        }
        if let Some(q) = self.neighbor(cell, LinkDirections::East) {
            if self.unlinked(q) {
                found.push((q, LinkDirections::East));
            }
        }
        proof {
            let among = self@.unlinked_cells();
            assert(found@ =~= neighbor_toward(
                self@.rows,
                self@.columns,
                cell,
                LinkDirections::South,
                among,
            ) + neighbor_toward(self@.rows, self@.columns, cell, LinkDirections::North, among)
                + neighbor_toward(self@.rows, self@.columns, cell, LinkDirections::West, among)
                + neighbor_toward(self@.rows, self@.columns, cell, LinkDirections::East, among));
        }
        found
    }

    /// Link symmetry: in a well-formed grid a wall that is open from one side is open from the
    /// other, and lies between two cells of the board.
    pub proof fn lemma_link_symmetry(&self, p: Position, d: LinkDirections)
        requires
            self.wf(),
            self@.is_open(p, d),
        ensures
            self@.contains_cell(p),
            self@.contains_cell(toward(p, d)),
            self@.is_open(toward(p, d), reverse(d)),
    {
    }

    /// The positions of all cells in row-major order.
    pub fn cell_locations(&self) -> (cells: Vec<(usize, usize)>)
        requires
            self.wf(),
        ensures
            cells@ == row_major(self@.rows, self@.columns),
    {
        let mut cells: Vec<(usize, usize)> = Vec::new();
        let mut row: usize = 0;
        while row < self.rows
            invariant
                self.wf(),
                row <= self.rows,
                cells@.len() == row * self.columns,
                forall|i: int|
                    0 <= i < cells@.len() ==> #[trigger] cells@[i] == (
                        (i / self.columns as int) as usize,
                        (i % self.columns as int) as usize,
                    ),
            decreases self.rows - row,
        {
            let mut column: usize = 0;
            while column < self.columns
                invariant
                    self.wf(),
                    row < self.rows,
                    column <= self.columns,
                    cells@.len() == row * self.columns + column,
                    forall|i: int|
                        0 <= i < cells@.len() ==> #[trigger] cells@[i] == (
                            (i / self.columns as int) as usize,
                            (i % self.columns as int) as usize,
                        ),
                decreases self.columns - column,
            {
                proof {
                    lemma_fundamental_div_mod_converse(
                        row * self.columns + column,
                        self.columns as int,
                        row as int,
                        column as int,
                    );
                }
                cells.push((row, column));
                column += 1;
            }
            proof {
                assert((row + 1) * self.columns == row * self.columns + self.columns)
                    by (nonlinear_arith);
            }
            row += 1;
        }
        proof {
            assert(cells@ =~= row_major(self@.rows, self@.columns));
        }
        cells
    }
}

/// Carves a perfect maze into a blank grid by sidewinder with the seed 2.
pub fn sidewinder(base: &mut Grid)
    requires
        old(base).wf(),
        old(base)@ == Maze::blank(old(base)@.rows, old(base)@.columns),
    ensures
        final(base).wf(),
        final(base)@.rows == old(base)@.rows,
        final(base)@.columns == old(base)@.columns,
        final(base)@.perfect(),
        final(base)@ == sidewinder_maze(old(base)@.rows, old(base)@.columns, 2),
{
    sidewinder_seeded(base, 2)
}

} // verus!
