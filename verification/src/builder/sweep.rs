//! Completing a maze without a random source: as long as the hunt finds a cell that can be
//! joined to the maze, join it.

use super::grid::Grid;
use super::maze::{at, grid_cells, Maze, Position};
use super::tree::{
    growing, grown, lemma_growing_bounds, lemma_growing_done, lemma_growing_step,
};
use super::visited::{hunt, lemma_hunt, Visited};
use vstd::prelude::*;

verus! {

/// The maze after at most `fuel` rounds of hunting: each round joins the cell that the hunt
/// finds to its neighbour among the cells reached.
pub open spec fn swept(maze: Maze, visited: Set<Position>, fuel: nat) -> Maze
    decreases fuel,
{
    if fuel == 0 {
        maze
    } else {
        match hunt(maze.rows, maze.columns, visited) {
            None => maze,
            Some((found, d)) => swept(
                maze.link(at(found), d),
                visited.insert(at(found)),
                (fuel - 1) as nat,
            ),
        }
    }
}

/// Joins every cell not yet reached to the tree, one hunt at a time.
pub(crate) fn sweep(
    base: &mut Grid,
    visited: &mut Visited,
    remaining: usize,
    Ghost(tree): Ghost<Map<Position, int>>,
    Ghost(root): Ghost<Position>,
)
    requires
        old(base).wf(),
        old(visited).wf(),
        old(visited).rows() == old(base)@.rows,
        old(visited).columns() == old(base)@.columns,
        growing(old(base)@, tree, root),
        tree.dom() == old(visited)@,
        remaining == old(base)@.rows * old(base)@.columns - tree.dom().len(),
    ensures
        final(base).wf(),
        final(base)@.rows == old(base)@.rows,
        final(base)@.columns == old(base)@.columns,
        final(base)@.perfect(),
        final(base)@ == swept(old(base)@, old(visited)@, remaining as nat),
{
    let ghost rows = base@.rows;
    let ghost columns = base@.columns;
    let ghost mut rank = tree;
    let mut left: usize = remaining;
    while left > 0
        invariant
            base.wf(),
            base@.rows == rows,
            base@.columns == columns,
            visited.wf(),
            visited.rows() == rows,
            visited.columns() == columns,
            growing(base@, rank, root),
            rank.dom() == visited@,
            left == rows * columns - rank.dom().len(),
            swept(base@, visited@, left as nat) == swept(
                old(base)@,
                old(visited)@,
                remaining as nat,
            ),
        decreases left,
    {
        proof {
            lemma_growing_bounds(base@, rank, root);
            lemma_hunt(rows, columns, visited@);
        }
        match visited.hunt() {
            Some((found, d)) => {
                proof {
                    lemma_growing_step(base@, rank, root, at(found), d);
                    rank = grown(rank, at(found), d);
                }
                base.link(found.0, found.1, d);
                visited.insert(found);
                left -= 1;
            },
            None => {
                proof {
                    assert(grid_cells(rows, columns).contains(root) && visited@.contains(root));
                    lemma_growing_done(base@, rank, root);
                }
                left = 0;
            },
        }
    }
    proof {
        lemma_growing_done(base@, rank, root);
    }
}

} // verus!
