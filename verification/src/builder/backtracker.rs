//! The recursive backtracker: a depth-first walk that carves into unlinked neighbours and
//! backs up along its own trail when it is stuck.

use super::grid::{Grid, LinkDirections};
use super::maze::{
    at, enclosed, grid_cells, lemma_cell_count, lemma_cells_bound, lemma_enclosed_set_is_board,
    lemma_neighbors_among, neighbors_among, stays_inside, toward, Maze, Position,
};
use super::random::{
    draw_word, fresh_seed, pcg64_seeded, pcg64_state, pcg64_word, seeded_generator,
};
use super::tree::{
    grown, has_parent, lemma_spanning_tree_is_perfect, lemma_tree_grows, lemma_tree_start, tree_on,
};
use vstd::prelude::*;

verus! {

/// The state of the backtracker between two steps: the maze so far, the words the generator
/// holds, and the trail from the start to the current cell.
pub struct Trail {
    pub maze: Maze,
    pub rng: (u128, u128),
    pub stack: Seq<(usize, usize)>,
}

/// One step: from the last cell of the trail carve into one of its unlinked neighbours, picked
/// by the next draw, or drop the cell from the trail if it has none.
pub open spec fn backtracker_step(s: Trail) -> Trail {
    let last = s.stack.last();
    let fresh = neighbors_among(s.maze.rows, s.maze.columns, last, s.maze.unlinked_cells());
    if fresh.len() == 0 {
        Trail { maze: s.maze, rng: s.rng, stack: s.stack.drop_last() }
    } else {
        let draw = pcg64_word(s.rng);
        let pick = fresh[(draw.0 % (fresh.len() as u64)) as int];
        Trail { maze: s.maze.link(at(last), pick.1), rng: draw.1, stack: s.stack.push(pick.0) }
    }
}

/// At most `fuel` steps, stopping early when the trail is empty.
pub open spec fn backtracker_run(s: Trail, fuel: nat) -> Trail
    decreases fuel,
{
    if fuel == 0 || s.stack.len() == 0 {
        s
    } else {
        backtracker_run(backtracker_step(s), (fuel - 1) as nat)
    }
}

/// The maze that the backtracker makes on a blank board from a seed. The first two draws give
/// the row and the column of the start; no run takes more than two steps per cell.
pub open spec fn backtracker_maze(rows: nat, columns: nat, seed: u64) -> Maze {
    let row = pcg64_word(pcg64_seeded(seed));
    let column = pcg64_word(row.1);
    let start = ((row.0 % (rows as u64)) as usize, (column.0 % (columns as u64)) as usize);
    backtracker_run(
        Trail { maze: Maze::blank(rows, columns), rng: column.1, stack: seq![start] },
        2 * (rows * columns),
    ).maze
}

/// Whether `p` is on the trail.
pub open spec fn on_trail(stack: Seq<(usize, usize)>, p: Position) -> bool {
    exists|i: int| 0 <= i < stack.len() && at(#[trigger] stack[i]) == p
}

/// What holds between two steps: the opened walls form a tree; the trail runs inside it; as
/// long as the start has its walls closed nothing but the start is on the trail; and a cell
/// of the tree that is no longer on the trail has all its neighbours in the tree.
#[verifier::opaque]
spec fn trail_inv(
    m: Maze,
    rank: Map<Position, int>,
    root: Position,
    stack: Seq<(usize, usize)>,
) -> bool {
    &&& tree_on(m, rank, root)
    &&& m.rows <= usize::MAX
    &&& m.columns <= usize::MAX
    &&& forall|i: int| 0 <= i < stack.len() ==> rank.dom().contains(at(#[trigger] stack[i]))
    &&& m.unlinked(root) ==> forall|i: int| 0 <= i < stack.len() ==> at(#[trigger] stack[i]) == root
    &&& forall|p: Position| #[trigger]
        rank.dom().contains(p) ==> on_trail(stack, p) || enclosed(m.rows, m.columns, rank.dom(), p)
}

/// The invariant holds on a blank board with the start alone on the trail.
proof fn lemma_trail_start(rows: nat, columns: nat, start: (usize, usize))
    requires
        Maze::blank(rows, columns).contains_cell(at(start)),
        rows <= usize::MAX,
        columns <= usize::MAX,
    ensures
        trail_inv(
            Maze::blank(rows, columns),
            Map::empty().insert(at(start), 0int),
            at(start),
            seq![start],
        ),
        Map::<Position, int>::empty().insert(at(start), 0int).dom().len() == 1,
{
    reveal(trail_inv);
    let root = at(start);
    let rank = Map::<Position, int>::empty().insert(root, 0int);
    let stack = seq![start];
    lemma_tree_start(rows, columns, root);
    assert(rank.dom() =~= Set::empty().insert(root));
    assert(on_trail(stack, root)) by {
        assert(at(stack[0]) == root);
    }
}

/// The invariant is kept when a cell without unlinked neighbours leaves the trail.
proof fn lemma_trail_backs_up(
    m: Maze,
    rank: Map<Position, int>,
    root: Position,
    stack: Seq<(usize, usize)>,
)
    requires
        trail_inv(m, rank, root, stack),
        stack.len() > 0,
        neighbors_among(m.rows, m.columns, stack.last(), m.unlinked_cells()).len() == 0,
    ensures
        trail_inv(m, rank, root, stack.drop_last()),
{
    reveal(trail_inv);
    let here = at(stack.last());
    let rest = stack.drop_last();
    lemma_neighbors_among(m.rows, m.columns, stack.last(), m.unlinked_cells());
    assert forall|d: LinkDirections|
        {
            let q = #[trigger] toward(here, d);
            0 <= q.0 < m.rows && 0 <= q.1 < m.columns
        } implies rank.dom().contains(toward(here, d)) by {
        let q = toward(here, d);
        assert(!m.unlinked_cells().contains(q));
        assert(!m.unlinked(q));
    }
    assert(enclosed(m.rows, m.columns, rank.dom(), here)) by {
        assert(stays_inside(m.rows, m.columns, rank.dom(), here, LinkDirections::North));
        assert(stays_inside(m.rows, m.columns, rank.dom(), here, LinkDirections::East));
        assert(stays_inside(m.rows, m.columns, rank.dom(), here, LinkDirections::South));
        assert(stays_inside(m.rows, m.columns, rank.dom(), here, LinkDirections::West));
    }
    assert forall|p: Position| #[trigger] rank.dom().contains(p) implies on_trail(rest, p)
        || enclosed(m.rows, m.columns, rank.dom(), p) by {
        if p != here && on_trail(stack, p) {
            let i = choose|i: int| 0 <= i < stack.len() && at(#[trigger] stack[i]) == p;
            assert(at(rest[i]) == p);
        }
    }
    assert forall|i: int| 0 <= i < rest.len() implies rank.dom().contains(
        at(#[trigger] rest[i]),
    ) by {
        assert(rest[i] == stack[i]);
    }
    if m.unlinked(root) {
        assert forall|i: int| 0 <= i < rest.len() implies at(#[trigger] rest[i]) == root by {
            assert(rest[i] == stack[i]);
        }
    }
}

/// The invariant is kept when the walk carves into an unlinked neighbour of the last cell of
/// the trail, and the tree is then one cell larger.
proof fn lemma_trail_carves(
    m: Maze,
    rank: Map<Position, int>,
    root: Position,
    stack: Seq<(usize, usize)>,
    i: int,
)
    requires
        trail_inv(m, rank, root, stack),
        stack.len() > 0,
        0 <= i < neighbors_among(m.rows, m.columns, stack.last(), m.unlinked_cells()).len(),
    ensures
        ({
            let pick = neighbors_among(m.rows, m.columns, stack.last(), m.unlinked_cells())[i];
            let after = grown(rank, at(stack.last()), pick.1);
            &&& trail_inv(m.link(at(stack.last()), pick.1), after, root, stack.push(pick.0))
            &&& after.dom().len() == rank.dom().len() + 1
            &&& after.dom().len() <= m.rows * m.columns
        }),
{
    reveal(trail_inv);
    let last = stack.last();
    let here = at(last);
    let pick = neighbors_among(m.rows, m.columns, last, m.unlinked_cells())[i];
    let next = at(pick.0);
    let after = grown(rank, here, pick.1);
    let m2 = m.link(here, pick.1);
    let stack2 = stack.push(pick.0);
    lemma_neighbors_among(m.rows, m.columns, last, m.unlinked_cells());
    assert(m.unlinked_cells().contains(next));
    assert(next != here);
    assert(rank.dom().contains(here)) by {
        assert(rank.dom().contains(at(stack[stack.len() - 1])));
    }
    assert(!rank.dom().contains(next)) by {
        if rank.dom().contains(next) {
            if next == root {
                assert(at(stack[stack.len() - 1]) == root);
            } else {
                assert(has_parent(m, rank, next));
            }
        }
    }
    assert(m.contains_cell(here));
    lemma_tree_grows(m, rank, root, here, pick.1);
    lemma_cells_bound(m.rows, m.columns, after.dom());
    assert(m2.is_open(here, pick.1));
    assert(!m2.unlinked(root)) by {
        if !m.unlinked(root) {
            assert(forall|d: LinkDirections| m.is_open(root, d) ==> m2.is_open(root, d));
        } else {
            assert(at(stack[stack.len() - 1]) == root);
        }
    }
    assert forall|k: int| 0 <= k < stack2.len() implies after.dom().contains(
        at(#[trigger] stack2[k]),
    ) by {
        if k < stack.len() {
            assert(stack2[k] == stack[k]);
        }
    }
    assert forall|p: Position| #[trigger] after.dom().contains(p) implies on_trail(stack2, p)
        || enclosed(m2.rows, m2.columns, after.dom(), p) by {
        if p == next {
            assert(at(stack2[stack2.len() - 1]) == p);
        } else if on_trail(stack, p) {
            let k = choose|k: int| 0 <= k < stack.len() && at(#[trigger] stack[k]) == p;
            assert(at(stack2[k]) == p);
        } else {
            assert(enclosed(m.rows, m.columns, rank.dom(), p));
            assert(stays_inside(m.rows, m.columns, rank.dom(), p, LinkDirections::North));
            assert(stays_inside(m.rows, m.columns, rank.dom(), p, LinkDirections::East));
            assert(stays_inside(m.rows, m.columns, rank.dom(), p, LinkDirections::South));
            assert(stays_inside(m.rows, m.columns, rank.dom(), p, LinkDirections::West));
        }
    }
}

/// When the trail is empty the tree spans the board.
proof fn lemma_trail_ends(m: Maze, rank: Map<Position, int>, root: Position)
    requires
        trail_inv(m, rank, root, Seq::empty()),
    ensures
        m.perfect(),
{
    reveal(trail_inv);
    let stack = Seq::<(usize, usize)>::empty();
    assert forall|p: Position|
        grid_cells(m.rows, m.columns).contains(p) implies rank.dom().contains(p) by {
        assert forall|x: Position|
            grid_cells(m.rows, m.columns).contains(x) && #[trigger] rank.dom().contains(
                x,
            ) implies enclosed(m.rows, m.columns, rank.dom(), x) by {
            assert(!on_trail(stack, x));
        }
        lemma_enclosed_set_is_board(m.rows, m.columns, rank.dom(), root, p);
    }
    assert(rank.dom() =~= grid_cells(m.rows, m.columns));
    lemma_cell_count(m.rows, m.columns);
    lemma_spanning_tree_is_perfect(m, rank, root);
}

/// Determinism: two mazes that the backtracker makes from the same seed on boards of the
/// same size have the same open walls in every cell.
pub proof fn lemma_backtracker_repeatable(
    first: Maze,
    second: Maze,
    rows: nat,
    columns: nat,
    seed: u64,
)
    requires
        first == backtracker_maze(rows, columns, seed),
        second == backtracker_maze(rows, columns, seed),
    ensures
        first == second,
        forall|p: Position, d: LinkDirections| first.is_open(p, d) == second.is_open(p, d),
{
}

/// Carves a perfect maze into a blank grid with the recursive backtracker, seeded from the
/// thread's random generator.
pub fn backtracker(base: &mut Grid)
    requires
        old(base).wf(),
        old(base)@ == Maze::blank(old(base)@.rows, old(base)@.columns),
    ensures
        final(base).wf(),
        final(base)@.rows == old(base)@.rows,
        final(base)@.columns == old(base)@.columns,
        final(base)@.perfect(),
        exists|seed: u64|
            final(base)@ == #[trigger] backtracker_maze(old(base)@.rows, old(base)@.columns, seed),
{
    let seed = fresh_seed();
    backtracker_seeded(base, seed)
}

/// Carves a perfect maze into a blank grid with the recursive backtracker. The maze depends on
/// the grid's size and on the seed alone.
pub fn backtracker_seeded(base: &mut Grid, seed: u64)
    requires
        old(base).wf(),
        old(base)@ == Maze::blank(old(base)@.rows, old(base)@.columns),
    ensures
        final(base).wf(),
        final(base)@.rows == old(base)@.rows,
        final(base)@.columns == old(base)@.columns,
        final(base)@.perfect(),
        final(base)@ == backtracker_maze(old(base)@.rows, old(base)@.columns, seed),
{
    let ghost rows = base@.rows;
    let ghost columns = base@.columns;
    let mut rng = seeded_generator(seed);
    let row: usize = (draw_word(&mut rng) % (base.rows() as u64)) as usize;
    let column: usize = (draw_word(&mut rng) % (base.columns() as u64)) as usize;
    let mut stack: Vec<(usize, usize)> = Vec::new();
    stack.push((row, column));
    let ghost root = at((row, column));
    let ghost mut rank = Map::<Position, int>::empty().insert(root, 0int);
    let ghost total: nat = 2 * (rows * columns);
    let ghost mut fuel: nat = total;
    let ghost start = Trail { maze: base@, rng: pcg64_state(rng), stack: stack@ };
    proof {
        lemma_trail_start(rows, columns, (row, column));
        assert(stack@ =~= seq![(row, column)]);
        assert(rows * columns >= 1) by (nonlinear_arith)
            requires
                rows >= 1,
                columns >= 1,
        ;
    }
    while stack.len() > 0
        invariant
            base.wf(),
            base@.rows == rows,
            base@.columns == columns,
            trail_inv(base@, rank, root, stack@),
            backtracker_run(Trail { maze: base@, rng: pcg64_state(rng), stack: stack@ }, fuel)
                == backtracker_run(start, total),
            rank.dom().len() <= rows * columns,
            fuel >= 2 * (rows * columns - rank.dom().len()) + stack@.len(),
        decreases 2 * (rows * columns - rank.dom().len()) + stack@.len(),
    {
        let last = stack[stack.len() - 1];
        let fresh = base.unlinked_neighbors(last);
        if fresh.len() == 0 {
            proof {
                lemma_trail_backs_up(base@, rank, root, stack@);
            }
            stack.pop();
        } else {
            let rindex: usize = (draw_word(&mut rng) % (fresh.len() as u64)) as usize;
            let found = fresh[rindex];
            proof {
                lemma_trail_carves(base@, rank, root, stack@, rindex as int);
                rank = grown(rank, at(last), found.1);
            }
            base.link(last.0, last.1, found.1);
            stack.push(found.0);
        }
        proof {
            fuel = (fuel - 1) as nat;
        }
    }
    proof {
        assert(stack@ =~= Seq::empty());
        lemma_trail_ends(base@, rank, root);
    }
}

} // verus!
