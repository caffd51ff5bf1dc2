//! The mathematical model of a maze: a rectangular board of cells and the set of opened walls,
//! with the graph notions (walks, connectivity, cycles) that say what a perfect maze is.

use super::grid::LinkDirections;
use vstd::prelude::*;

verus! {

/// The position of a cell: its row and its column.
pub type Position = (int, int);

/// The position reached from `p` by one step in direction `d`. Rows grow northward and columns
/// grow eastward.
pub open spec fn toward(p: Position, d: LinkDirections) -> Position {
    match d {
        LinkDirections::North => (p.0 + 1, p.1),
        LinkDirections::South => (p.0 - 1, p.1),
        LinkDirections::East => (p.0, p.1 + 1),
        LinkDirections::West => (p.0, p.1 - 1),
    }
}

/// The direction that undoes a step in direction `d`.
pub open spec fn reverse(d: LinkDirections) -> LinkDirections {
    match d {
        LinkDirections::North => LinkDirections::South,
        LinkDirections::South => LinkDirections::North,
        LinkDirections::East => LinkDirections::West,
        LinkDirections::West => LinkDirections::East,
    }
}

/// The position named by a pair of machine coordinates.
pub open spec fn at(cell: (usize, usize)) -> Position {
    (cell.0 as int, cell.1 as int)
}

/// Every position of a board of the given size.
pub open spec fn grid_cells(rows: nat, columns: nat) -> Set<Position> {
    Set::new(|p: Position| 0 <= p.0 < rows && 0 <= p.1 < columns)
}

/// A half link is counted at the southern or western end of the wall it opens, so that each
/// opened wall is counted once.
pub open spec fn counted(h: (Position, LinkDirections)) -> bool {
    h.1 == LinkDirections::North || h.1 == LinkDirections::East
}

/// A maze: the size of its board and its half links. The half link `(p, d)` says that the
/// wall of cell `p` on side `d` is open.
pub struct Maze {
    pub rows: nat,
    pub columns: nat,
    pub links: Set<(Position, LinkDirections)>,
}

impl Maze {
    /// The board with every wall closed.
    pub open spec fn blank(rows: nat, columns: nat) -> Maze {
        Maze { rows, columns, links: Set::empty() }
    }

    /// `p` is a cell of the board.
    pub open spec fn contains_cell(self, p: Position) -> bool {
        0 <= p.0 < self.rows && 0 <= p.1 < self.columns
    }

    /// The wall of `p` on side `d` is open.
    pub open spec fn is_open(self, p: Position, d: LinkDirections) -> bool {
        self.links.contains((p, d))
    }

    /// All four walls of `p` are closed.
    pub open spec fn unlinked(self, p: Position) -> bool {
        &&& !self.is_open(p, LinkDirections::North)
        &&& !self.is_open(p, LinkDirections::East)
        &&& !self.is_open(p, LinkDirections::South)
        &&& !self.is_open(p, LinkDirections::West)
    }

    /// The cells of the board that have all four walls closed.
    pub open spec fn unlinked_cells(self) -> Set<Position> {
        Set::new(|p: Position| self.contains_cell(p) && self.unlinked(p))
    }

    /// The maze after opening the wall between `p` and its neighbour in direction `d`, from both
    /// sides. Nothing changes when either cell lies off the board.
    pub open spec fn link(self, p: Position, d: LinkDirections) -> Maze {
        if self.contains_cell(p) && self.contains_cell(toward(p, d)) {
            Maze {
                rows: self.rows,
                columns: self.columns,
                links: self.links.insert((p, d)).insert((toward(p, d), reverse(d))),
            }
        } else {
            self
        }
    }

    /// Linking `p` in direction `d` opens a wall that was closed: it lies between two cells of
    /// the board and is not open yet.
    pub open spec fn opens(self, p: Position, d: LinkDirections) -> bool {
        self.contains_cell(p) && self.contains_cell(toward(p, d)) && !self.is_open(p, d)
    }

    /// Every open wall is open from the other side too.
    pub open spec fn symmetric(self) -> bool {
        forall|p: Position, d: LinkDirections| #[trigger]
            self.is_open(p, d) ==> self.is_open(toward(p, d), reverse(d))
    }

    /// Every open wall lies between two cells of the board.
    pub open spec fn bounded(self) -> bool {
        forall|p: Position, d: LinkDirections| #[trigger]
            self.is_open(p, d) ==> self.contains_cell(p) && self.contains_cell(toward(p, d))
    }

    /// The maze has finitely many half links, each open from both sides and on the board.
    pub open spec fn well_formed(self) -> bool {
        &&& self.links.finite()
        &&& self.symmetric()
        &&& self.bounded()
    }

    /// The number of opened walls.
    pub open spec fn link_count(self) -> nat {
        self.links.filter(|h: (Position, LinkDirections)| counted(h)).len()
    }

    /// One can pass from `p` straight into `q`.
    pub open spec fn joined(self, p: Position, q: Position) -> bool {
        exists|d: LinkDirections| #[trigger] self.is_open(p, d) && toward(p, d) == q
    }

    /// A walk: a non-empty sequence of cells, each passable into the next.
    pub open spec fn is_walk(self, w: Seq<Position>) -> bool {
        &&& w.len() >= 1
        &&& forall|i: int| 0 <= i < w.len() - 1 ==> self.joined(#[trigger] w[i], w[i + 1])
    }

    /// Some walk leads from `p` to `q`.
    pub open spec fn reachable(self, p: Position, q: Position) -> bool {
        exists|w: Seq<Position>| #[trigger] self.is_walk(w) && w.first() == p && w.last() == q
    }

    /// Every cell of the board can be reached from every other.
    pub open spec fn connected(self) -> bool {
        forall|p: Position, q: Position|
            self.contains_cell(p) && self.contains_cell(q) ==> #[trigger] self.reachable(p, q)
    }

    /// A cycle: a walk over at least three distinct cells whose last cell is passable into its
    /// first.
    pub open spec fn is_cycle(self, w: Seq<Position>) -> bool {
        &&& w.len() >= 3
        &&& w.no_duplicates()
        &&& self.is_walk(w)
        &&& self.joined(w.last(), w.first())
    }

    /// The maze has no cycle.
    pub open spec fn acyclic(self) -> bool {
        forall|w: Seq<Position>| !#[trigger] self.is_cycle(w)
    }

    /// A perfect maze: the opened walls form a spanning tree of the board.
    pub open spec fn perfect(self) -> bool {
        &&& self.well_formed()
        &&& self.connected()
        &&& self.acyclic()
        &&& self.link_count() == self.rows * self.columns - 1
    }
}

/// The neighbour of `cell` in direction `d`, as a list of one entry, if it lies on the board and
/// in `among`; else the empty list.
pub open spec fn neighbor_toward(
    rows: nat,
    columns: nat,
    cell: (usize, usize),
    d: LinkDirections,
    among: Set<Position>,
) -> Seq<((usize, usize), LinkDirections)> {
    let q = toward(at(cell), d);
    if 0 <= q.0 < rows && 0 <= q.1 < columns && among.contains(q) {
        seq![((q.0 as usize, q.1 as usize), d)]
    } else {
        Seq::empty()
    }
}

/// The neighbours of `cell` on the board that belong to `among`, each with the direction that
/// leads to it, in the order south, north, west, east.
pub open spec fn neighbors_among(
    rows: nat,
    columns: nat,
    cell: (usize, usize),
    among: Set<Position>,
) -> Seq<((usize, usize), LinkDirections)> {
    neighbor_toward(rows, columns, cell, LinkDirections::South, among) + neighbor_toward(
        rows,
        columns,
        cell,
        LinkDirections::North,
        among,
    ) + neighbor_toward(rows, columns, cell, LinkDirections::West, among) + neighbor_toward(
        rows,
        columns,
        cell,
        LinkDirections::East,
        among,
    )
}

/// All neighbours of `cell` on the board.
pub open spec fn neighbors_of(rows: nat, columns: nat, cell: (usize, usize)) -> Seq<
    ((usize, usize), LinkDirections),
> {
    neighbors_among(rows, columns, cell, Set::full())
}

/// Every entry of a neighbour list names a cell of the board in `among`, one step from `cell`
/// in the entry's direction.
pub proof fn lemma_neighbors_among(
    rows: nat,
    columns: nat,
    cell: (usize, usize),
    among: Set<Position>,
)
    requires
        rows <= usize::MAX,
        columns <= usize::MAX,
    ensures
        neighbors_among(rows, columns, cell, among).len() <= 4,
        forall|i: int|
            0 <= i < neighbors_among(rows, columns, cell, among).len() ==> {
                let e = #[trigger] neighbors_among(rows, columns, cell, among)[i];
                &&& at(e.0) == toward(at(cell), e.1)
                &&& 0 <= at(e.0).0 < rows
                &&& 0 <= at(e.0).1 < columns
                &&& among.contains(at(e.0))
            },
        forall|d: LinkDirections|
            {
                let q = #[trigger] toward(at(cell), d);
                0 <= q.0 < rows && 0 <= q.1 < columns && among.contains(q)
            } ==> neighbors_among(rows, columns, cell, among).len() > 0,
{
    let s = neighbor_toward(rows, columns, cell, LinkDirections::South, among);
    let n = neighbor_toward(rows, columns, cell, LinkDirections::North, among);
    let w = neighbor_toward(rows, columns, cell, LinkDirections::West, among);
    let e = neighbor_toward(rows, columns, cell, LinkDirections::East, among);
    assert(neighbors_among(rows, columns, cell, among) == s + n + w + e);
    assert forall|d: LinkDirections|
        {
            let q = #[trigger] toward(at(cell), d);
            0 <= q.0 < rows && 0 <= q.1 < columns && among.contains(q)
        } implies neighbors_among(rows, columns, cell, among).len() > 0 by {
        assert(neighbor_toward(rows, columns, cell, d, among).len() == 1);
    }
}

/// The blank board is well formed and has no opened wall.
pub proof fn lemma_blank(rows: nat, columns: nat)
    ensures
        Maze::blank(rows, columns).well_formed(),
        Maze::blank(rows, columns).link_count() == 0,
{
    let m = Maze::blank(rows, columns);
    assert(m.links.filter(|h: (Position, LinkDirections)| counted(h)) =~= Set::empty());
}

/// Opening a wall between two cells of the board keeps a maze well formed, and adds one to the
/// number of opened walls unless the wall was open already.
pub proof fn lemma_link(m: Maze, p: Position, d: LinkDirections)
    requires
        m.well_formed(),
    ensures
        m.link(p, d).well_formed(),
        m.link(p, d).rows == m.rows,
        m.link(p, d).columns == m.columns,
        m.is_open(p, d) ==> m.link(p, d) == m,
        !(m.contains_cell(p) && m.contains_cell(toward(p, d))) ==> m.link(p, d) == m,
        m.contains_cell(p) && m.contains_cell(toward(p, d)) && !m.is_open(p, d) ==> m.link(
            p,
            d,
        ).link_count() == m.link_count() + 1,
{
    let q = toward(p, d);
    let after = m.link(p, d);
    assert(toward(q, reverse(d)) == p);
    assert(reverse(reverse(d)) == d);
    if m.contains_cell(p) && m.contains_cell(q) {
        assert(after.symmetric()) by {
            assert forall|x: Position, e: LinkDirections| #[trigger]
                after.is_open(x, e) implies after.is_open(toward(x, e), reverse(e)) by {
                if (x, e) == (p, d) {
                } else if (x, e) == (q, reverse(d)) {
                } else {
                    assert(m.is_open(x, e));
                }
            }
        }
        assert(after.bounded()) by {
            assert forall|x: Position, e: LinkDirections| #[trigger]
                after.is_open(x, e) implies after.contains_cell(x) && after.contains_cell(
                toward(x, e),
            ) by {
                if (x, e) == (p, d) {
                } else if (x, e) == (q, reverse(d)) {
                } else {
                    assert(m.is_open(x, e));
                }
            }
        }
        if m.is_open(p, d) {
            assert(m.is_open(q, reverse(d)));
            assert(after.links =~= m.links);
        } else {
            if m.is_open(q, reverse(d)) {
                assert(m.is_open(toward(q, reverse(d)), reverse(reverse(d))));
            }
            let f = |h: (Position, LinkDirections)| counted(h);
            let picked = if counted((p, d)) {
                (p, d)
            } else {
                (q, reverse(d))
            };
            assert(counted((p, d)) != counted((q, reverse(d))));
            assert(after.links.filter(f) =~= m.links.filter(f).insert(picked));
            assert(!m.links.filter(f).contains(picked));
        }
    }
}

/// The cells of one row of the board, up to a column.
pub open spec fn row_cells(row: int, columns: nat) -> Set<Position> {
    Set::new(|p: Position| p.0 == row && 0 <= p.1 < columns)
}

/// A row of `columns` cells has `columns` cells.
proof fn lemma_row_count(row: int, columns: nat)
    ensures
        row_cells(row, columns).finite(),
        row_cells(row, columns).len() == columns,
    decreases columns,
{
    if columns == 0 {
        assert(row_cells(row, columns) =~= Set::empty());
    } else {
        lemma_row_count(row, (columns - 1) as nat);
        assert(row_cells(row, columns) =~= row_cells(row, (columns - 1) as nat).insert(
            (row, columns - 1),
        ));
    }
}

/// A board of `rows` by `columns` has `rows * columns` cells.
pub proof fn lemma_cell_count(rows: nat, columns: nat)
    ensures
        grid_cells(rows, columns).finite(),
        grid_cells(rows, columns).len() == rows * columns,
    decreases rows,
{
    if rows == 0 {
        assert(grid_cells(rows, columns) =~= Set::empty());
        assert(rows * columns == 0) by (nonlinear_arith)
            requires
                rows == 0,
        ;
    } else {
        let below = grid_cells((rows - 1) as nat, columns);
        let top = row_cells(rows - 1, columns);
        lemma_cell_count((rows - 1) as nat, columns);
        lemma_row_count(rows - 1, columns);
        assert(grid_cells(rows, columns) =~= below.union(top));
        assert(below.disjoint(top));
        vstd::set_lib::lemma_set_disjoint_lens(below, top);
        assert(rows * columns == (rows - 1) * columns + columns) by (nonlinear_arith);
    }
}

/// A finite set of cells of the board has at most `rows * columns` members, and exactly that
/// many only if it holds every cell.
pub proof fn lemma_cells_bound(rows: nat, columns: nat, cells: Set<Position>)
    requires
        cells.subset_of(grid_cells(rows, columns)),
    ensures
        cells.finite(),
        cells.len() <= rows * columns,
        cells.len() == rows * columns ==> cells == grid_cells(rows, columns),
{
    lemma_cell_count(rows, columns);
    vstd::set_lib::lemma_set_subset_finite(grid_cells(rows, columns), cells);
    vstd::set_lib::lemma_len_subset(cells, grid_cells(rows, columns));
    if cells.len() == rows * columns {
        vstd::set_lib::lemma_subset_equality(cells, grid_cells(rows, columns));
    }
}

/// Every step from `p` that stays on the board ends in `s`.
pub open spec fn enclosed(rows: nat, columns: nat, s: Set<Position>, p: Position) -> bool {
    &&& stays_inside(rows, columns, s, p, LinkDirections::North)
    &&& stays_inside(rows, columns, s, p, LinkDirections::East)
    &&& stays_inside(rows, columns, s, p, LinkDirections::South)
    &&& stays_inside(rows, columns, s, p, LinkDirections::West)
}

/// The step from `p` in direction `d` leaves the board or ends in `s`.
pub open spec fn stays_inside(
    rows: nat,
    columns: nat,
    s: Set<Position>,
    p: Position,
    d: LinkDirections,
) -> bool {
    let q = toward(p, d);
    0 <= q.0 < rows && 0 <= q.1 < columns ==> s.contains(q)
}

/// The number of steps between two positions.
pub open spec fn distance(p: Position, q: Position) -> int {
    (if p.0 >= q.0 {
        p.0 - q.0
    } else {
        q.0 - p.0
    }) + (if p.1 >= q.1 {
        p.1 - q.1
    } else {
        q.1 - p.1
    })
}

/// A set that holds a cell of the board, and from which no step on the board leads out, holds
/// every cell of the board.
pub proof fn lemma_enclosed_set_is_board(
    rows: nat,
    columns: nat,
    s: Set<Position>,
    origin: Position,
    p: Position,
)
    requires
        grid_cells(rows, columns).contains(origin),
        grid_cells(rows, columns).contains(p),
        s.contains(origin),
        forall|x: Position|
            grid_cells(rows, columns).contains(x) && #[trigger] s.contains(x) ==> enclosed(
                rows,
                columns,
                s,
                x,
            ),
    ensures
        s.contains(p),
    decreases distance(p, origin),
{
    if p != origin {
        let d = if p.0 > origin.0 {
            LinkDirections::South
        } else if p.0 < origin.0 {
            LinkDirections::North
        } else if p.1 > origin.1 {
            LinkDirections::West
        } else {
            LinkDirections::East
        };
        let q = toward(p, d);
        lemma_enclosed_set_is_board(rows, columns, s, origin, q);
        assert(enclosed(rows, columns, s, q));
        assert(toward(q, reverse(d)) == p);
        assert(stays_inside(rows, columns, s, q, reverse(d)));
    }
}

/// On a board with more than one cell, every cell has a neighbour.
pub proof fn lemma_has_neighbor(rows: nat, columns: nat, cell: (usize, usize), other: Position)
    requires
        rows <= usize::MAX,
        columns <= usize::MAX,
        grid_cells(rows, columns).contains(at(cell)),
        grid_cells(rows, columns).contains(other),
        other != at(cell),
    ensures
        neighbors_of(rows, columns, cell).len() > 0,
{
    let d = if rows >= 2 {
        if cell.0 > 0 {
            LinkDirections::South
        } else {
            LinkDirections::North
        }
    } else {
        if cell.1 > 0 {
            LinkDirections::West
        } else {
            LinkDirections::East
        }
    };
    let q = toward(at(cell), d);
    assert(0 <= q.0 < rows && 0 <= q.1 < columns);
    assert(Set::<Position>::full().contains(q));
    lemma_neighbors_among(rows, columns, cell, Set::full());
}

/// On a board of a single cell no wall can be open: the only well-formed maze is the blank one,
/// and it is perfect.
pub proof fn lemma_single_cell(m: Maze)
    requires
        m.well_formed(),
        m.rows == 1,
        m.columns == 1,
    ensures
        m.links == Set::<(Position, LinkDirections)>::empty(),
        m.link_count() == 0,
        m.perfect(),
{
    assert forall|h: (Position, LinkDirections)| !m.links.contains(h) by {
        if m.links.contains(h) {
            assert(m.is_open(h.0, h.1));
            assert(m.contains_cell(h.0) && m.contains_cell(toward(h.0, h.1)));
        }
    }
    assert(m.links =~= Set::empty());
    assert(m.links.filter(|h: (Position, LinkDirections)| counted(h)) =~= Set::empty());
    assert forall|p: Position, q: Position|
        m.contains_cell(p) && m.contains_cell(q) implies #[trigger] m.reachable(p, q) by {
        let w = seq![p];
        assert(m.is_walk(w) && w.first() == p && w.last() == q);
    }
    assert forall|w: Seq<Position>| !#[trigger] m.is_cycle(w) by {
        if m.is_cycle(w) {
            let d = choose|d: LinkDirections| #[trigger]
                m.is_open(w.last(), d) && toward(w.last(), d) == w.first();
            assert(m.links.contains((w.last(), d)));
        }
    }
}

} // verus!
