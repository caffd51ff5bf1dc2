//! Aldous-Broder: a random walk over the whole board that opens a wall whenever it steps
//! into a cell for the first time.

use super::grid::{lemma_row_major, row_major, Grid, LinkDirections};
use super::maze::{at, lemma_has_neighbor, lemma_neighbors_among, neighbors_of, Maze, Position};
use super::random::{
    draw_below, draw_byte, fresh_seed, pcg64_below, pcg64_byte, pcg64_seeded, pcg64_state,
    seeded_generator,
};
use super::sweep::{sweep, swept};
use super::tree::{
    growing, grown, lemma_growing_bounds, lemma_growing_done, lemma_growing_start,
    lemma_growing_step, lemma_growing_unfinished,
};
use super::visited::Visited;
use vstd::prelude::*;

verus! {

/// The state of the walk between two steps: the maze so far, the words the generator holds,
/// the cells reached, the cell the walk stands on, and how many cells it has not reached.
pub struct Wanderer {
    pub maze: Maze,
    pub rng: (u128, u128),
    pub visited: Set<Position>,
    pub cell: (usize, usize),
    pub remaining: nat,
}

/// One step: go to the neighbour picked by the next draw, and open the wall to it if it has
/// not been reached before.
pub open spec fn aldous_broder_step(s: Wanderer) -> Wanderer {
    let around = neighbors_of(s.maze.rows, s.maze.columns, s.cell);
    let draw = pcg64_byte(s.rng);
    let pick = around[(draw.0 as int) % (around.len() as int)];
    if s.visited.contains(at(pick.0)) {
        Wanderer {
            maze: s.maze,
            rng: draw.1,
            visited: s.visited,
            cell: pick.0,
            remaining: s.remaining,
        }
    } else {
        Wanderer {
            maze: s.maze.link(at(s.cell), pick.1),
            rng: draw.1,
            visited: s.visited.insert(at(pick.0)),
            cell: pick.0,
            remaining: (s.remaining - 1) as nat,
        }
    }
}

/// At most `budget` steps, stopping early when every cell has been reached.
pub open spec fn aldous_broder_walk(s: Wanderer, budget: nat) -> Wanderer
    decreases budget,
{
    if budget == 0 || s.remaining == 0 {
        s
    } else {
        aldous_broder_walk(aldous_broder_step(s), (budget - 1) as nat)
    }
}

/// The maze that the walk makes on a blank board from a seed when it may take `budget` steps.
/// On a board of more than one cell the first draw picks the start among all cells but the
/// last in row-major order. Cells that the walk has not reached within its budget are joined
/// by hunting.
pub open spec fn aldous_broder_maze_within(
    rows: nat,
    columns: nat,
    seed: u64,
    budget: nat,
) -> Maze {
    let cells = row_major(rows, columns);
    let first = if cells.len() > 1 {
        pcg64_below(pcg64_seeded(seed), (cells.len() - 1) as u64)
    } else {
        (0u64, pcg64_seeded(seed))
    };
    let start = cells[first.0 as int];
    let walked = aldous_broder_walk(
        Wanderer {
            maze: Maze::blank(rows, columns),
            rng: first.1,
            visited: Set::<Position>::empty().insert(at(start)),
            cell: start,
            remaining: (rows * columns - 1) as nat,
        },
        budget,
    );
    if walked.remaining == 0 {
        walked.maze
    } else {
        swept(walked.maze, walked.visited, walked.remaining)
    }
}

/// The maze that Aldous-Broder makes on a blank board from a seed: the walk may take as many
/// steps as a `u64` can count.
pub open spec fn aldous_broder_maze(rows: nat, columns: nat, seed: u64) -> Maze {
    aldous_broder_maze_within(rows, columns, seed, u64::MAX as nat)
}

/// Determinism: two mazes that the Aldous-Broder walk makes from the same seed on boards of the
/// same size have the same open walls in every cell.
pub proof fn lemma_aldous_broder_repeatable(
    first: Maze,
    second: Maze,
    rows: nat,
    columns: nat,
    seed: u64,
)
    requires
        first == aldous_broder_maze(rows, columns, seed),
        second == aldous_broder_maze(rows, columns, seed),
    ensures
        first == second,
        forall|p: Position, d: LinkDirections| first.is_open(p, d) == second.is_open(p, d),
{
}

/// Carves a perfect maze into a blank grid by the Aldous-Broder walk, seeded from the thread's
/// random generator.
pub fn aldous_broder(base: &mut Grid)
    requires
        old(base).wf(),
        old(base)@ == Maze::blank(old(base)@.rows, old(base)@.columns),
    ensures
        final(base).wf(),
        final(base)@.rows == old(base)@.rows,
        final(base)@.columns == old(base)@.columns,
        final(base)@.perfect(),
        exists|seed: u64|
            final(base)@ == #[trigger] aldous_broder_maze(
                old(base)@.rows,
                old(base)@.columns,
                seed,
            ),
{
    let seed = fresh_seed();
    aldous_broder_seeded(base, seed)
}

/// Carves a perfect maze into a blank grid by the Aldous-Broder walk, which may take as many
/// steps as a `u64` can count. The maze depends on the grid's size and on the seed alone.
pub fn aldous_broder_seeded(base: &mut Grid, seed: u64)
    requires
        old(base).wf(),
        old(base)@ == Maze::blank(old(base)@.rows, old(base)@.columns),
    ensures
        final(base).wf(),
        final(base)@.rows == old(base)@.rows,
        final(base)@.columns == old(base)@.columns,
        final(base)@.perfect(),
        final(base)@ == aldous_broder_maze(old(base)@.rows, old(base)@.columns, seed),
{
    aldous_broder_within(base, seed, u64::MAX)
}

/// Carves a perfect maze into a blank grid by an Aldous-Broder walk of at most `budget` steps;
/// cells that the walk has not reached by then are joined to the maze by hunting, so that the
/// result is a perfect maze whatever the draws.
pub fn aldous_broder_within(base: &mut Grid, seed: u64, budget: u64)
    requires
        old(base).wf(),
        old(base)@ == Maze::blank(old(base)@.rows, old(base)@.columns),
    ensures
        final(base).wf(),
        final(base)@.rows == old(base)@.rows,
        final(base)@.columns == old(base)@.columns,
        final(base)@.perfect(),
        final(base)@ == aldous_broder_maze_within(
            old(base)@.rows,
            old(base)@.columns,
            seed,
            budget as nat,
        ),
{
    let ghost rows = base@.rows;
    let ghost columns = base@.columns;
    let mut rng = seeded_generator(seed);
    let cells = base.cell_locations();
    proof {
        lemma_row_major(rows, columns);
        assert(rows * columns >= 1) by (nonlinear_arith)
            requires
                rows >= 1,
                columns >= 1,
        ;
    }
    let first: usize = if cells.len() > 1 {
        draw_below(&mut rng, (cells.len() - 1) as u64) as usize
    } else {
        0
    };
    let mut cell = cells[first];
    let mut remaining: usize = cells.len() - 1;
    let mut visited = Visited::new(base.rows(), base.columns());
    visited.insert(cell);
    let mut left: u64 = budget;
    let ghost root = at(cell);
    let ghost mut rank = Map::<Position, int>::empty().insert(root, 0int);
    let ghost start = Wanderer {
        maze: base@,
        rng: pcg64_state(rng),
        visited: visited@,
        cell,
        remaining: remaining as nat,
    };
    proof {
        lemma_growing_start(rows, columns, root);
    }
    while remaining > 0 && left > 0
        invariant
            base.wf(),
            base@.rows == rows,
            base@.columns == columns,
            visited.wf(),
            visited.rows() == rows,
            visited.columns() == columns,
            growing(base@, rank, root),
            rank.dom() == visited@,
            visited@.contains(at(cell)),
            remaining == rows * columns - rank.dom().len(),
            aldous_broder_walk(
                Wanderer {
                    maze: base@,
                    rng: pcg64_state(rng),
                    visited: visited@,
                    cell,
                    remaining: remaining as nat,
                },
                left as nat,
            ) == aldous_broder_walk(start, budget as nat),
        decreases left,
    {
        let around = base.neighbors(cell);
        proof {
            lemma_growing_bounds(base@, rank, root);
            let other = lemma_growing_unfinished(base@, rank, root);
            lemma_has_neighbor(rows, columns, cell, other);
            lemma_neighbors_among(rows, columns, cell, Set::full());
        }
        let rindex: usize = (draw_byte(&mut rng) as usize) % around.len();
        let next = around[rindex];
        if !visited.contains(next.0) {
            proof {
                lemma_growing_step(base@, rank, root, at(cell), next.1);
                rank = grown(rank, at(cell), next.1);
            }
            base.link(cell.0, cell.1, next.1);
            visited.insert(next.0);
            remaining -= 1;
        }
        cell = next.0;
        left -= 1;
    }
    if remaining > 0 {
        sweep(base, &mut visited, remaining, Ghost(rank), Ghost(root));
    } else {
        proof {
            lemma_growing_done(base@, rank, root);
        }
    }
}

} // verus!
