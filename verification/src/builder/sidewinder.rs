//! Sidewinder: row by row, grow a run of cells eastward; when the run is closed, open one wall
//! northward from a member of the run. The top row is a single run.

use super::grid::{Grid, LinkDirections};
use super::maze::{lemma_blank, lemma_link, reverse, toward, Maze, Position};
use super::random::{
    choose_member, draw_byte, fresh_seed, pcg64_byte, pcg64_choice, pcg64_seeded, pcg64_state,
    seeded_generator,
};
use super::tree::{
    climbs, has_parent, lemma_ranked_acyclic, lemma_rooted_connected, ranked, rooted,
};
use vstd::prelude::*;

verus! {

/// The state of sidewinder between two cells: the maze so far, the words the generator holds,
/// and the cells of the run that is still open.
pub struct Sweeper {
    pub maze: Maze,
    pub rng: (u128, u128),
    pub run: Seq<(usize, usize)>,
}

/// The work on one cell: the cell joins the run and a coin is drawn. In the last column, and
/// below the top row also when the coin is even, the run is closed: a draw picks one of its
/// members, and unless the run lies in the top row the wall north of that member is opened.
/// Else the wall east of the cell is opened.
pub open spec fn sidewinder_cell(s: Sweeper, row: int, column: int) -> Sweeper {
    let run = s.run.push((row as usize, column as usize));
    let coin = pcg64_byte(s.rng);
    let far_east = column == s.maze.columns - 1;
    let far_north = row == s.maze.rows - 1;
    if far_east || (!far_north && coin.0 % 2 == 0) {
        let choice = pcg64_choice(coin.1, run.len() as usize);
        let member = run[choice.0 as int];
        Sweeper {
            maze: if member.0 < s.maze.rows - 1 {
                s.maze.link((member.0 as int, member.1 as int), LinkDirections::North)
            } else {
                s.maze
            },
            rng: choice.1,
            run: Seq::empty(),
        }
    } else {
        Sweeper { maze: s.maze.link((row, column), LinkDirections::East), rng: coin.1, run }
    }
}

/// The work on the first `upto` cells of a row.
pub open spec fn sidewinder_row(s: Sweeper, row: int, upto: nat) -> Sweeper
    decreases upto,
{
    if upto == 0 {
        s
    } else {
        sidewinder_cell(sidewinder_row(s, row, (upto - 1) as nat), row, upto - 1)
    }
}

/// The work on the first `upto` rows of a board with `columns` columns.
pub open spec fn sidewinder_rows(s: Sweeper, columns: nat, upto: nat) -> Sweeper
    decreases upto,
{
    if upto == 0 {
        s
    } else {
        sidewinder_row(sidewinder_rows(s, columns, (upto - 1) as nat), upto - 1, columns)
    }
}

/// The maze that sidewinder makes on a blank board from a seed.
pub open spec fn sidewinder_maze(rows: nat, columns: nat, seed: u64) -> Maze {
    sidewinder_rows(
        Sweeper { maze: Maze::blank(rows, columns), rng: pcg64_seeded(seed), run: Seq::empty() },
        columns,
        rows,
    ).maze
}

/// How far a column lies from the column of the member that a run was closed at.
spec fn spread(column: int, member: int) -> int {
    if column >= member {
        column - member
    } else {
        member - column
    }
}

/// The offsets after one cell was given a new one.
spec fn stretched(offset: spec_fn(Position) -> int, cell: Position, value: int) -> spec_fn(
    Position,
) -> int {
    |p: Position|
        if p == cell {
            value
        } else {
            offset(p)
        }
}

/// The offsets after the cells of a closed run were given their distance from its member.
spec fn leveled(
    offset: spec_fn(Position) -> int,
    row: int,
    start: int,
    column: int,
    member: int,
) -> spec_fn(Position) -> int {
    |p: Position|
        if p.0 == row && start <= p.1 <= column {
            spread(p.1, member)
        } else {
            offset(p)
        }
}

/// The cell has an open wall that leads toward the root: northward, or along its run to a cell
/// of smaller offset.
spec fn parented(m: Maze, offset: spec_fn(Position) -> int, p: Position) -> bool {
    ||| m.is_open(p, LinkDirections::North)
    ||| (m.is_open(p, LinkDirections::East) && offset(toward(p, LinkDirections::East)) < offset(p))
    ||| (m.is_open(p, LinkDirections::West) && offset(toward(p, LinkDirections::West)) < offset(p))
}

/// What holds before the cell in row `row` and column `column` is worked on, when the open
/// run began in column `start`. The offset of a cell is its distance, along its row, from the
/// cell of its run that leads northward.
#[verifier::opaque]
spec fn winding(
    m: Maze,
    offset: spec_fn(Position) -> int,
    root: Position,
    row: int,
    column: int,
    start: int,
) -> bool {
    &&& m.well_formed()
    &&& m.rows >= 1
    &&& m.columns >= 1
    &&& 0 <= row <= m.rows
    &&& 0 <= start <= column <= m.columns
    &&& (row == m.rows ==> column == 0)
    // The root lies in the top row, and the top row is never closed before its last column.
    &&& root.0 == m.rows - 1
    &&& 0 <= root.1 < m.columns
    &&& (row == m.rows - 1 && column < m.columns ==> start == 0)
    // Offsets stay within a row's width, are zero ahead of the work, and count the columns
    // from the start of the open run.
    &&& forall|p: Position| m.contains_cell(p) ==> 0 <= #[trigger] offset(p) < m.columns
    &&& forall|p: Position|
        m.contains_cell(p) && (p.0 > row || (p.0 == row && p.1 > column)) ==> #[trigger] offset(p)
            == 0
    &&& forall|c: int|
        start <= c <= column && c < m.columns && row < m.rows ==> #[trigger] offset((row, c)) == c
            - start
    // Only cells that were worked on lead eastward, only cells of closed runs lead northward,
    // the open run is linked from end to end, and it is not linked to the run before it.
    &&& forall|p: Position| #[trigger]
        m.is_open(p, LinkDirections::East) ==> p.0 < row || (p.0 == row && p.1 < column)
    &&& forall|p: Position| #[trigger]
        m.is_open(p, LinkDirections::North) ==> p.0 < row || (p.0 == row && p.1 < start)
    &&& forall|c: int| start <= c < column ==> #[trigger] m.is_open((row, c), LinkDirections::East)
    &&& (start > 0 ==> !m.is_open((row, start - 1), LinkDirections::East))
    // Neighbours in a run differ in offset, a cell that leads northward has offset zero, and
    // no cell has a smaller offset on both sides: so no cell has two parents.
    &&& forall|p: Position| #[trigger]
        m.is_open(p, LinkDirections::East) ==> offset(p) != offset(toward(p, LinkDirections::East))
    &&& forall|p: Position| #[trigger] m.is_open(p, LinkDirections::North) ==> offset(p) == 0
    &&& forall|p: Position|
        #[trigger] m.is_open(p, LinkDirections::East) && m.is_open(p, LinkDirections::West) ==> !(
        offset(toward(p, LinkDirections::East)) < offset(p) && offset(
            toward(p, LinkDirections::West),
        ) < offset(p))
    // Every cell of a finished row or a closed run, but the root, and every cell of the open
    // run but its first, has a parent.
    &&& forall|p: Position|
        m.contains_cell(p) && p != root && (p.0 < row || (p.0 == row && (p.1 < start || start < p.1
            <= column))) ==> #[trigger] parented(m, offset, p)
    // Each cell worked on has opened one wall, but the last cell of the top row.
    &&& m.link_count() == row * m.columns + column - (if row == m.rows || (row == m.rows - 1
        && column == m.columns) {
        1int
    } else {
        0int
    })
    // The top row is a corridor as far as it was worked on.
    &&& (row == m.rows - 1 ==> forall|c: int|
        0 <= c < column && c < m.columns - 1 ==> #[trigger] m.is_open(
            (m.rows - 1, c),
            LinkDirections::East,
        ))
    &&& (row == m.rows ==> forall|c: int|
        0 <= c < m.columns - 1 ==> #[trigger] m.is_open((m.rows - 1, c), LinkDirections::East))
}

/// The invariant holds on a blank board before the first cell.
proof fn lemma_winding_start(rows: nat, columns: nat)
    requires
        rows >= 1,
        columns >= 1,
    ensures
        winding(Maze::blank(rows, columns), |p: Position| 0int, (rows - 1, 0int), 0, 0, 0),
{
    reveal(winding);
    let m = Maze::blank(rows, columns);
    lemma_blank(rows, columns);
    assert(0 * m.columns + 0 == 0) by (nonlinear_arith);
}

/// The invariant is kept when the run grows eastward.
proof fn lemma_winding_extend(
    m: Maze,
    offset: spec_fn(Position) -> int,
    root: Position,
    row: int,
    column: int,
    start: int,
)
    requires
        winding(m, offset, root, row, column, start),
        row < m.rows,
        column < m.columns - 1,
    ensures
        winding(
            m.link((row, column), LinkDirections::East),
            stretched(offset, (row, column + 1), column + 1 - start),
            root,
            row,
            column + 1,
            start,
        ),
{
    reveal(winding);
    let here = (row, column);
    let next = (row, column + 1);
    let m2 = m.link(here, LinkDirections::East);
    let offset2 = stretched(offset, next, column + 1 - start);
    lemma_link(m, here, LinkDirections::East);
    assert(toward(here, LinkDirections::East) == next);
    assert(m.contains_cell(here) && m.contains_cell(next));
    assert(!m.is_open(here, LinkDirections::East));
    assert(!m.is_open(next, LinkDirections::East));
    assert(!m.is_open(next, LinkDirections::North));
    assert forall|p: Position, d: LinkDirections| #[trigger] m2.is_open(p, d) implies (m.is_open(
        p,
        d,
    ) || (p == here && d == LinkDirections::East) || (p == next && d == LinkDirections::West)) by {}
    assert forall|p: Position| #[trigger] m.is_open(p, LinkDirections::West) implies toward(
        p,
        LinkDirections::West,
    ) != next && p != next by {
        assert(m.is_open(toward(p, LinkDirections::West), LinkDirections::East));
    }
    assert forall|p: Position| #[trigger] m2.is_open(p, LinkDirections::East) implies offset2(p)
        != offset2(toward(p, LinkDirections::East)) by {
        if p == here {
            assert(offset(here) == column - start);
        } else {
            assert(m.is_open(p, LinkDirections::East));
        }
    }
    assert forall|p: Position|
        #[trigger] m2.is_open(p, LinkDirections::East) && m2.is_open(
            p,
            LinkDirections::West,
        ) implies !(offset2(toward(p, LinkDirections::East)) < offset2(p) && offset2(
        toward(p, LinkDirections::West),
    ) < offset2(p)) by {
        if p == here {
            assert(offset(here) == column - start);
        } else {
            assert(m.is_open(p, LinkDirections::East));
            assert(m.is_open(p, LinkDirections::West));
        }
    }
    assert forall|p: Position|
        m2.contains_cell(p) && p != root && (p.0 < row || (p.0 == row && (p.1 < start || start < p.1
            <= column + 1))) implies #[trigger] parented(m2, offset2, p) by {
        if p == next {
            assert(m2.is_open(next, LinkDirections::West));
            assert(toward(next, LinkDirections::West) == here);
            assert(offset(here) == column - start);
        } else {
            assert(parented(m, offset, p));
            if m.is_open(p, LinkDirections::East) {
                assert(toward(p, LinkDirections::East) != next);
            }
        }
    }
    assert forall|c: int| start <= c < column + 1 implies #[trigger] m2.is_open(
        (row, c),
        LinkDirections::East,
    ) by {
        if c < column {
            assert(m.is_open((row, c), LinkDirections::East));
        }
    }
    assert forall|c: int|
        start <= c <= column + 1 && c < m2.columns && row < m2.rows implies #[trigger] offset2(
        (row, c),
    ) == c - start by {
        if c <= column {
            assert(offset((row, c)) == c - start);
        }
    }
    if row == m.rows - 1 {
        assert forall|c: int|
            0 <= c < column + 1 && c < m2.columns - 1 implies #[trigger] m2.is_open(
            (m2.rows - 1, c),
            LinkDirections::East,
        ) by {
            if c < column {
                assert(m.is_open((m.rows - 1, c), LinkDirections::East));
            }
        }
    }
}

/// The invariant is kept when the run is closed at `member`.
proof fn lemma_winding_close(
    m: Maze,
    offset: spec_fn(Position) -> int,
    root: Position,
    row: int,
    column: int,
    start: int,
    member: int,
)
    requires
        winding(m, offset, root, row, column, start),
        row < m.rows,
        column < m.columns,
        start <= member <= column,
        row == m.rows - 1 ==> column == m.columns - 1,
    ensures
        winding(
            if row < m.rows - 1 {
                m.link((row, member), LinkDirections::North)
            } else {
                m
            },
            leveled(offset, row, start, column, member),
            if row < m.rows - 1 {
                root
            } else {
                (row, member)
            },
            row,
            column + 1,
            column + 1,
        ),
{
    reveal(winding);
    let top = (row, member);
    let above = (row + 1, member);
    let m2 = if row < m.rows - 1 {
        m.link(top, LinkDirections::North)
    } else {
        m
    };
    let offset2 = leveled(offset, row, start, column, member);
    let root2 = if row < m.rows - 1 {
        root
    } else {
        top
    };
    lemma_link(m, top, LinkDirections::North);
    assert(toward(top, LinkDirections::North) == above);
    assert(!m.is_open(top, LinkDirections::North));
    assert(!m.is_open((row, column), LinkDirections::East));
    assert forall|p: Position, d: LinkDirections| #[trigger] m2.is_open(p, d) implies (m.is_open(
        p,
        d,
    ) || (p == top && d == LinkDirections::North) || (p == above && d
        == LinkDirections::South)) by {}
    assert forall|p: Position| #[trigger] m.is_open(p, LinkDirections::East) implies (p.0 == row
        && start <= p.1 ==> p.1 < column && offset2(p) == spread(p.1, member) && offset2(
        toward(p, LinkDirections::East),
    ) == spread(p.1 + 1, member)) && (!(p.0 == row && start <= p.1) ==> offset2(p) == offset(p)
        && offset2(toward(p, LinkDirections::East)) == offset(toward(p, LinkDirections::East))) by {
        assert(toward(p, LinkDirections::East) == (p.0, p.1 + 1));
    }
    assert forall|p: Position| #[trigger] m.is_open(p, LinkDirections::West) implies m.is_open(
        toward(p, LinkDirections::West),
        LinkDirections::East,
    ) && toward(toward(p, LinkDirections::West), LinkDirections::East) == p by {}
    assert forall|p: Position| #[trigger] m2.is_open(p, LinkDirections::East) implies offset2(p)
        != offset2(toward(p, LinkDirections::East)) by {
        assert(m.is_open(p, LinkDirections::East));
    }
    assert forall|p: Position| #[trigger] m2.is_open(p, LinkDirections::North) implies offset2(p)
        == 0 by {
        if p != top {
            assert(m.is_open(p, LinkDirections::North));
        }
    }
    assert forall|p: Position|
        #[trigger] m2.is_open(p, LinkDirections::East) && m2.is_open(
            p,
            LinkDirections::West,
        ) implies !(offset2(toward(p, LinkDirections::East)) < offset2(p) && offset2(
        toward(p, LinkDirections::West),
    ) < offset2(p)) by {
        assert(m.is_open(p, LinkDirections::East));
        assert(m.is_open(p, LinkDirections::West));
        let w = toward(p, LinkDirections::West);
        assert(w == (p.0, p.1 - 1));
        assert(m.is_open(w, LinkDirections::East));
        if p.0 == row && p.1 == start {
            assert(w == (row, start - 1));
        }
    }
    assert forall|p: Position|
        m2.contains_cell(p) && p != root2 && (p.0 < row || (p.0 == row && p.1
            < column + 1)) implies #[trigger] parented(m2, offset2, p) by {
        if p.0 == row && start <= p.1 {
            if p.1 < member {
                assert(m.is_open((row, p.1), LinkDirections::East));
                assert(toward(p, LinkDirections::East) == (row, p.1 + 1));
            } else if p.1 > member {
                assert(m.is_open((row, p.1 - 1), LinkDirections::East));
                assert(toward((row, p.1 - 1), LinkDirections::East) == p);
                assert(m.is_open(p, LinkDirections::West));
                assert(toward(p, LinkDirections::West) == (row, p.1 - 1));
            } else {
                assert(p == top);
                assert(m2.is_open(top, LinkDirections::North));
            }
        } else {
            assert(parented(m, offset, p));
            if m.is_open(p, LinkDirections::East) {
                assert(toward(p, LinkDirections::East) == (p.0, p.1 + 1));
                if p.0 == row && p.1 + 1 == start {
                    assert(p == (row, start - 1));
                }
            }
            if m.is_open(p, LinkDirections::West) {
                assert(toward(p, LinkDirections::West) == (p.0, p.1 - 1));
            }
        }
    }
    assert forall|c: int|
        column + 1 <= c <= column + 1 && c < m2.columns && row < m2.rows implies #[trigger] offset2(
        (row, c),
    ) == c - (column + 1) by {
        assert(offset((row, c)) == 0);
    }
    if row == m.rows - 1 {
        assert forall|c: int|
            0 <= c < column + 1 && c < m2.columns - 1 implies #[trigger] m2.is_open(
            (m2.rows - 1, c),
            LinkDirections::East,
        ) by {
            assert(m.is_open((m.rows - 1, c), LinkDirections::East));
        }
    }
}

/// The end of one row is the beginning of the next.
proof fn lemma_winding_next_row(
    m: Maze,
    offset: spec_fn(Position) -> int,
    root: Position,
    row: int,
)
    requires
        winding(m, offset, root, row, m.columns as int, m.columns as int),
        row < m.rows,
    ensures
        winding(m, offset, root, row + 1, 0, 0),
{
    reveal(winding);
    assert((row + 1) * m.columns == row * m.columns + m.columns) by (nonlinear_arith);
    assert forall|c: int|
        0 <= c <= 0 && c < m.columns && row + 1 < m.rows implies #[trigger] offset((row + 1, c))
        == c - 0 by {
        assert(m.contains_cell((row + 1, c)));
    }
    if row + 1 == m.rows {
        assert forall|c: int| 0 <= c < m.columns - 1 implies #[trigger] m.is_open(
            (m.rows - 1, c),
            LinkDirections::East,
        ) by {}
    }
}

/// The rank of a cell: the rows are bands, the top row the lowest, and within its band a cell
/// is ranked by its offset.
spec fn banded(m: Maze, offset: spec_fn(Position) -> int) -> Map<Position, int> {
    Map::new(|p: Position| true, |p: Position| (m.rows - 1 - p.0) * m.columns + offset(p))
}

/// A cell ranks above its northern neighbour.
proof fn lemma_bands(m: Maze, offset: spec_fn(Position) -> int, p: Position)
    requires
        m.contains_cell(p),
        m.contains_cell(toward(p, LinkDirections::North)),
        0 <= offset(p) < m.columns,
        0 <= offset(toward(p, LinkDirections::North)) < m.columns,
    ensures
        banded(m, offset)[toward(p, LinkDirections::North)] < banded(m, offset)[p],
        banded(m, offset)[toward(p, LinkDirections::North)] >= 0,
{
    let q = toward(p, LinkDirections::North);
    assert((m.rows - 1 - p.0) * m.columns == (m.rows - 1 - q.0) * m.columns + m.columns)
        by (nonlinear_arith)
        requires
            q.0 == p.0 + 1,
    ;
    assert((m.rows - 1 - q.0) * m.columns >= 0) by (nonlinear_arith)
        requires
            m.rows - 1 - q.0 >= 0,
            m.columns >= 0,
    ;
}

/// When every row is done the maze is perfect, and its top row is a corridor.
proof fn lemma_winding_done(m: Maze, offset: spec_fn(Position) -> int, root: Position)
    requires
        winding(m, offset, root, m.rows as int, 0, 0),
    ensures
        m.perfect(),
        forall|c: int|
            0 <= c < m.columns - 1 ==> #[trigger] m.is_open((m.rows - 1, c), LinkDirections::East),
{
    reveal(winding);
    let rank = banded(m, offset);
    let north = LinkDirections::North;
    let south = LinkDirections::South;
    let east = LinkDirections::East;
    let west = LinkDirections::West;
    assert forall|p: Position| #[trigger] m.contains_cell(p) implies rank[p] >= 0 by {
        assert((m.rows - 1 - p.0) * m.columns >= 0) by (nonlinear_arith)
            requires
                m.rows - 1 - p.0 >= 0,
                m.columns >= 0,
        ;
    }
    assert forall|p: Position, d: LinkDirections| #[trigger] m.is_open(p, d) implies (match d {
        LinkDirections::North => rank[toward(p, d)] < rank[p],
        LinkDirections::South => rank[toward(p, d)] > rank[p],
        LinkDirections::East => rank[toward(p, d)] - rank[p] == offset(toward(p, d)) - offset(p)
            && offset(toward(p, d)) != offset(p),
        LinkDirections::West => rank[toward(p, d)] - rank[p] == offset(toward(p, d)) - offset(p)
            && offset(toward(p, d)) != offset(p),
    }) by {
        let q = toward(p, d);
        assert(m.contains_cell(p) && m.contains_cell(q));
        assert(m.is_open(q, reverse(d)));
        match d {
            LinkDirections::North => {
                lemma_bands(m, offset, p);
            },
            LinkDirections::South => {
                assert(toward(q, north) == p);
                lemma_bands(m, offset, q);
            },
            LinkDirections::East => {},
            LinkDirections::West => {
                assert(toward(q, east) == p);
            },
        }
    }
    assert(ranked(m, rank)) by {
        assert forall|p: Position, d1: LinkDirections, d2: LinkDirections|
            #[trigger] climbs(m, rank, p, d1) && #[trigger] climbs(m, rank, p, d2) implies d1
            == d2 by {
            assert(m.is_open(p, d1) && m.is_open(p, d2));
            assert(m.contains_cell(toward(p, d1)) && m.contains_cell(toward(p, d2)));
            assert(d1 != south && d2 != south);
            if d1 != d2 {
                if d1 == north || d2 == north {
                    assert(offset(p) == 0);
                } else {
                    assert(m.is_open(p, east) && m.is_open(p, west));
                }
            }
        }
    }
    assert(rooted(m, rank, root)) by {
        assert forall|p: Position| #[trigger] m.contains_cell(p) && p != root implies has_parent(
            m,
            rank,
            p,
        ) by {
            assert(parented(m, offset, p));
            if m.is_open(p, north) {
                assert(climbs(m, rank, p, north));
            } else if m.is_open(p, east) && offset(toward(p, east)) < offset(p) {
                assert(climbs(m, rank, p, east));
            } else {
                assert(climbs(m, rank, p, west));
            }
        }
    }
    lemma_ranked_acyclic(m, rank);
    lemma_rooted_connected(m, rank, root);
    assert(m.rows * m.columns + 0 - 1 == m.rows * m.columns - 1);
}

/// Determinism: two mazes that sidewinder makes from the same seed on boards of the
/// same size have the same open walls in every cell.
pub proof fn lemma_sidewinder_repeatable(
    first: Maze,
    second: Maze,
    rows: nat,
    columns: nat,
    seed: u64,
)
    requires
        first == sidewinder_maze(rows, columns, seed),
        second == sidewinder_maze(rows, columns, seed),
    ensures
        first == second,
        forall|p: Position, d: LinkDirections| first.is_open(p, d) == second.is_open(p, d),
{
}

/// Carves a perfect maze into a blank grid by sidewinder, seeded from the thread's random
/// generator.
pub fn sidewinder(base: &mut Grid)
    requires
        old(base).wf(),
        old(base)@ == Maze::blank(old(base)@.rows, old(base)@.columns),
    ensures
        final(base).wf(),
        final(base)@.rows == old(base)@.rows,
        final(base)@.columns == old(base)@.columns,
        final(base)@.perfect(),
        forall|c: int|
            0 <= c < old(base)@.columns - 1 ==> #[trigger] final(base)@.is_open(
                (old(base)@.rows - 1, c),
                LinkDirections::East,
            ),
        exists|seed: u64|
            final(base)@ == #[trigger] sidewinder_maze(old(base)@.rows, old(base)@.columns, seed),
{
    let seed = fresh_seed();
    sidewinder_seeded(base, seed)
}

/// Carves a perfect maze into a blank grid by sidewinder. The maze depends on the grid's size
/// and on the seed alone; its top row is one corridor from end to end.
pub fn sidewinder_seeded(base: &mut Grid, seed: u64)
    requires
        old(base).wf(),
        old(base)@ == Maze::blank(old(base)@.rows, old(base)@.columns),
    ensures
        final(base).wf(),
        final(base)@.rows == old(base)@.rows,
        final(base)@.columns == old(base)@.columns,
        final(base)@.perfect(),
        forall|c: int|
            0 <= c < old(base)@.columns - 1 ==> #[trigger] final(base)@.is_open(
                (old(base)@.rows - 1, c),
                LinkDirections::East,
            ),
        final(base)@ == sidewinder_maze(old(base)@.rows, old(base)@.columns, seed),
{
    let mut rng = seeded_generator(seed);
    let rows: usize = base.rows();
    let columns: usize = base.columns();
    let ghost begun = Sweeper { maze: base@, rng: pcg64_state(rng), run: Seq::empty() };
    let ghost mut offset: spec_fn(Position) -> int = |p: Position| 0int;
    let ghost mut root: Position = (rows - 1, 0int);
    proof {
        lemma_winding_start(rows as nat, columns as nat);
    }
    let mut row: usize = 0;
    while row < rows
        invariant
            base.wf(),
            base@.rows == rows,
            base@.columns == columns,
            row <= rows,
            winding(base@, offset, root, row as int, 0, 0),
            (Sweeper { maze: base@, rng: pcg64_state(rng), run: Seq::empty() }) == sidewinder_rows(
                begun,
                columns as nat,
                row as nat,
            ),
        decreases rows - row,
    {
        let mut run: Vec<(usize, usize)> = Vec::new();
        let ghost mut start: int = 0;
        let ghost above = Sweeper { maze: base@, rng: pcg64_state(rng), run: Seq::empty() };
        let mut column: usize = 0;
        while column < columns
            invariant
                base.wf(),
                base@.rows == rows,
                base@.columns == columns,
                row < rows,
                column <= columns,
                0 <= start <= column,
                column == columns ==> start == columns,
                winding(base@, offset, root, row as int, column as int, start),
                run@.len() == column - start,
                forall|i: int|
                    0 <= i < run@.len() ==> #[trigger] run@[i] == (row, (start + i) as usize),
                column == columns ==> run@ == Seq::<(usize, usize)>::empty(),
                (Sweeper { maze: base@, rng: pcg64_state(rng), run: run@ }) == sidewinder_row(
                    above,
                    row as int,
                    column as nat,
                ),
            decreases columns - column,
        {
            run.push((row, column));
            let far_east = column == columns - 1;
            let far_north = row == rows - 1;
            let coin: u8 = draw_byte(&mut rng);
            let close_out = far_east || (!far_north && coin % 2 == 0);
            if close_out {
                if let Some(member) = choose_member(&mut rng, &run) {
                    proof {
                        lemma_winding_close(
                            base@,
                            offset,
                            root,
                            row as int,
                            column as int,
                            start,
                            member.1 as int,
                        );
                        offset = leveled(offset, row as int, start, column as int, member.1 as int);
                        if far_north {
                            root = (row as int, member.1 as int);
                        }
                    }
                    if member.0 < rows - 1 {
                        base.link(member.0, member.1, LinkDirections::North);
                    }
                }
                run.clear();
                proof {
                    start = column + 1;
                }
            } else {
                proof {
                    lemma_winding_extend(base@, offset, root, row as int, column as int, start);
                    offset = stretched(offset, (row as int, column + 1), column + 1 - start);
                }
                base.link(row, column, LinkDirections::East);
            }
            column += 1;
        }
        proof {
            lemma_winding_next_row(base@, offset, root, row as int);
        }
        row += 1;
    }
    proof {
        lemma_winding_done(base@, offset, root);
    }
}

} // verus!
