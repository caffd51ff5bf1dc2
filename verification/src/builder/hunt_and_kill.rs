//! Hunt-and-kill: a random walk into cells not yet reached; when it is stuck, a hunt over the
//! board for a cell that can be joined to the maze, from which the walk goes on.

use super::grid::{Grid, LinkDirections};
use super::maze::{at, grid_cells, lemma_neighbors_among, neighbors_among, Maze, Position};
use super::random::{
    draw_word, fresh_seed, pcg64_seeded, pcg64_state, pcg64_word, seeded_generator,
};
use super::tree::{
    growing, grown, lemma_growing_bounds, lemma_growing_done, lemma_growing_start,
    lemma_growing_step,
};
use super::visited::{hunt, lemma_hunt, Visited};
use vstd::prelude::*;

verus! {

/// The state of hunt-and-kill between two steps: the maze so far, the words the generator
/// holds, the cells reached, and the cell the walk stands on, if it has not ended.
pub struct Hunter {
    pub maze: Maze,
    pub rng: (u128, u128),
    pub visited: Set<Position>,
    pub current: Option<(usize, usize)>,
}

/// One step: walk into a neighbour not yet reached, picked by the next draw; or, where there
/// is none, join the cell that the hunt finds to its reached neighbour and go on from there;
/// or, where the hunt finds nothing, end.
pub open spec fn hunt_and_kill_step(s: Hunter) -> Hunter {
    match s.current {
        None => s,
        Some(cell) => {
            let fresh = neighbors_among(s.maze.rows, s.maze.columns, cell, s.visited.complement());
            if fresh.len() > 0 {
                let draw = pcg64_word(s.rng);
                let pick = fresh[(draw.0 % (fresh.len() as u64)) as int];
                Hunter {
                    maze: s.maze.link(at(cell), pick.1),
                    rng: draw.1,
                    visited: s.visited.insert(at(pick.0)),
                    current: Some(pick.0),
                }
            } else {
                match hunt(s.maze.rows, s.maze.columns, s.visited) {
                    Some((found, d)) => Hunter {
                        maze: s.maze.link(at(found), d),
                        rng: s.rng,
                        visited: s.visited.insert(at(found)),
                        current: Some(found),
                    },
                    None => Hunter {
                        maze: s.maze,
                        rng: s.rng,
                        visited: s.visited,
                        current: None,
                    },
                }
            }
        },
    }
}

/// At most `fuel` steps, stopping early when the walk has ended.
pub open spec fn hunt_and_kill_run(s: Hunter, fuel: nat) -> Hunter
    decreases fuel,
{
    if fuel == 0 || s.current is None {
        s
    } else {
        hunt_and_kill_run(hunt_and_kill_step(s), (fuel - 1) as nat)
    }
}

/// The maze that hunt-and-kill makes on a blank board from a seed. The first two draws give
/// the row and the column of the start, which counts as reached; no run takes more steps than
/// the board has cells.
pub open spec fn hunt_and_kill_maze(rows: nat, columns: nat, seed: u64) -> Maze {
    let row = pcg64_word(pcg64_seeded(seed));
    let column = pcg64_word(row.1);
    let start = ((row.0 % (rows as u64)) as usize, (column.0 % (columns as u64)) as usize);
    hunt_and_kill_run(
        Hunter {
            maze: Maze::blank(rows, columns),
            rng: column.1,
            visited: Set::<Position>::empty().insert(at(start)),
            current: Some(start),
        },
        rows * columns,
    ).maze
}

/// Determinism: two mazes that hunt-and-kill makes from the same seed on boards of the
/// same size have the same open walls in every cell.
pub proof fn lemma_hunt_and_kill_repeatable(
    first: Maze,
    second: Maze,
    rows: nat,
    columns: nat,
    seed: u64,
)
    requires
        first == hunt_and_kill_maze(rows, columns, seed),
        second == hunt_and_kill_maze(rows, columns, seed),
    ensures
        first == second,
        forall|p: Position, d: LinkDirections| first.is_open(p, d) == second.is_open(p, d),
{
}

/// Carves a perfect maze into a blank grid by hunt-and-kill, seeded from the thread's random
/// generator.
pub fn hunt_and_kill(base: &mut Grid)
    requires
        old(base).wf(),
        old(base)@ == Maze::blank(old(base)@.rows, old(base)@.columns),
    ensures
        final(base).wf(),
        final(base)@.rows == old(base)@.rows,
        final(base)@.columns == old(base)@.columns,
        final(base)@.perfect(),
        exists|seed: u64|
            final(base)@ == #[trigger] hunt_and_kill_maze(
                old(base)@.rows,
                old(base)@.columns,
                seed,
            ),
{
    let seed = fresh_seed();
    hunt_and_kill_seeded(base, seed)
}

/// Carves a perfect maze into a blank grid by hunt-and-kill. The maze depends on the grid's
/// size and on the seed alone.
pub fn hunt_and_kill_seeded(base: &mut Grid, seed: u64)
    requires
        old(base).wf(),
        old(base)@ == Maze::blank(old(base)@.rows, old(base)@.columns),
    ensures
        final(base).wf(),
        final(base)@.rows == old(base)@.rows,
        final(base)@.columns == old(base)@.columns,
        final(base)@.perfect(),
        final(base)@ == hunt_and_kill_maze(old(base)@.rows, old(base)@.columns, seed),
{
    let ghost rows = base@.rows;
    let ghost columns = base@.columns;
    let mut rng = seeded_generator(seed);
    let row: usize = (draw_word(&mut rng) % (base.rows() as u64)) as usize;
    let column: usize = (draw_word(&mut rng) % (base.columns() as u64)) as usize;
    let mut visited = Visited::new(base.rows(), base.columns());
    visited.insert((row, column));
    let mut current: Option<(usize, usize)> = Some((row, column));
    let ghost root = at((row, column));
    let ghost mut rank = Map::<Position, int>::empty().insert(root, 0int);
    let ghost total: nat = rows * columns;
    let ghost mut fuel: nat = total;
    let ghost start = Hunter { maze: base@, rng: pcg64_state(rng), visited: visited@, current };
    proof {
        lemma_growing_start(rows, columns, root);
    }
    while current.is_some()
        invariant
            base.wf(),
            base@.rows == rows,
            base@.columns == columns,
            visited.wf(),
            visited.rows() == rows,
            visited.columns() == columns,
            growing(base@, rank, root),
            rank.dom() == visited@,
            current matches Some(cell) ==> visited@.contains(at(cell)),
            current is None ==> base@.perfect(),
            hunt_and_kill_run(
                Hunter { maze: base@, rng: pcg64_state(rng), visited: visited@, current },
                fuel,
            ) == hunt_and_kill_run(start, total),
            rank.dom().len() <= rows * columns,
            fuel >= rows * columns - rank.dom().len() + (if current is Some {
                1int
            } else {
                0int
            }),
        decreases
                rows * columns - rank.dom().len() + (if current is Some {
                    1int
                } else {
                    0int
                }),
    {
        let cell = current.unwrap();
        let fresh = visited.neighbors(cell, false);
        proof {
            lemma_growing_bounds(base@, rank, root);
            lemma_neighbors_among(rows, columns, cell, visited@.complement());
        }
        if fresh.len() > 0 {
            let rindex: usize = (draw_word(&mut rng) % (fresh.len() as u64)) as usize;
            let neighbor = fresh[rindex];
            proof {
                lemma_growing_step(base@, rank, root, at(cell), neighbor.1);
                rank = grown(rank, at(cell), neighbor.1);
            }
            visited.insert(neighbor.0);
            base.link(cell.0, cell.1, neighbor.1);
            current = Some(neighbor.0);
        } else {
            proof {
                lemma_hunt(rows, columns, visited@);
            }
            match visited.hunt() {
                Some((found, d)) => {
                    proof {
                        lemma_growing_step(base@, rank, root, at(found), d);
                        rank = grown(rank, at(found), d);
                    }
                    base.link(found.0, found.1, d);
                    visited.insert(found);
                    current = Some(found);
                },
                None => {
                    proof {
                        assert(grid_cells(rows, columns).contains(root) && visited@.contains(root));
                        lemma_growing_done(base@, rank, root);
                    }
                    current = None;
                },
            }
        }
        proof {
            fuel = (fuel - 1) as nat;
        }
    }
}

} // verus!
