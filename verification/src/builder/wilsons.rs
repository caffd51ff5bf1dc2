//! Wilson's algorithm: from a cell outside the maze walk at random, erasing every loop the walk
//! makes, until the walk meets the maze; then carve the walk into the maze.

use super::cells::{lemma_remove_index, lemma_remove_value, listed, position, remove_cell};
use super::grid::{lemma_row_major, row_major, row_major_index, Grid, LinkDirections};
use super::maze::{
    at, grid_cells, lemma_has_neighbor, lemma_neighbors_among, neighbors_of, toward, Maze,
    Position,
};
use super::random::{
    draw_below, draw_byte, fresh_seed, pcg64_below, pcg64_byte, pcg64_seeded, pcg64_state,
    seeded_generator,
};
use super::sweep::{sweep, swept};
use super::tree::{
    growing, grown, lemma_growing_bounds, lemma_growing_done, lemma_growing_start,
    lemma_growing_step,
};
use super::visited::Visited;
use rand_pcg::Pcg64;
use vstd::prelude::*;

verus! {

/// A walk in progress: the words the generator holds, the cells of the walk with its loops
/// erased, the direction of each step from one cell of the walk to the next, and how many steps
/// may still be taken.
pub struct Stroll {
    pub rng: (u128, u128),
    pub path: Seq<(usize, usize)>,
    pub directions: Seq<LinkDirections>,
    pub left: nat,
}

/// One step of the walk: go to the neighbour of the last cell that the next draw picks. If it
/// is on the walk already, at index `i`, the walk is cut back to its first `i` cells (to its
/// first cell if `i` is 0); else it becomes the last cell of the walk.
pub open spec fn wilsons_step(rows: nat, columns: nat, s: Stroll) -> Stroll {
    let around = neighbors_of(rows, columns, s.path.last());
    let draw = pcg64_byte(s.rng);
    let next = around[(draw.0 as int) % (around.len() as int)];
    match s.path.index_of_first(next.0) {
        Some(found) => {
            let keep = if found == 0 {
                1
            } else {
                found
            };
            Stroll {
                rng: draw.1,
                path: s.path.subrange(0, keep),
                directions: s.directions.subrange(0, keep - 1),
                left: (s.left - 1) as nat,
            }
        },
        None => Stroll {
            rng: draw.1,
            path: s.path.push(next.0),
            directions: s.directions.push(next.1),
            left: (s.left - 1) as nat,
        },
    }
}

/// The walk, taken until its last cell is in `tree` or no step is left.
pub open spec fn wilsons_walk(rows: nat, columns: nat, tree: Set<Position>, s: Stroll) -> Stroll
    decreases s.left,
{
    if s.left == 0 || tree.contains(at(s.path.last())) {
        s
    } else {
        wilsons_walk(rows, columns, tree, wilsons_step(rows, columns, s))
    }
}

/// The maze so far, the cells that belong to it, and the list of those that do not.
pub struct Forest {
    pub maze: Maze,
    pub tree: Set<Position>,
    pub unvisited: Seq<(usize, usize)>,
}

/// The forest after the steps of a walk from index `from` on have been carved into it, the
/// last step first: each step opens the wall it crosses, and the cell it leaves joins the maze.
pub open spec fn commit(
    f: Forest,
    path: Seq<(usize, usize)>,
    directions: Seq<LinkDirections>,
    from: nat,
) -> Forest
    decreases directions.len() - from,
{
    if from >= directions.len() {
        f
    } else {
        let later = commit(f, path, directions, from + 1);
        Forest {
            maze: later.maze.link(at(path[from as int]), directions[from as int]),
            tree: later.tree.insert(at(path[from as int])),
            unvisited: later.unvisited.remove_value(path[from as int]),
        }
    }
}

/// The state of the algorithm between two walks.
pub struct Planting {
    pub forest: Forest,
    pub rng: (u128, u128),
    pub left: nat,
    pub stalled: bool,
}

/// One walk: where more than one cell is outside the maze, a draw picks the start among all of
/// them but the last of the list. A walk that meets the maze is carved into it; one that runs
/// out of steps is dropped.
pub open spec fn wilsons_round(s: Planting) -> Planting {
    let list = s.forest.unvisited;
    let pick = if list.len() > 1 {
        pcg64_below(s.rng, (list.len() - 1) as u64)
    } else {
        (0u64, s.rng)
    };
    let walked = wilsons_walk(
        s.forest.maze.rows,
        s.forest.maze.columns,
        s.forest.tree,
        Stroll {
            rng: pick.1,
            path: seq![list[pick.0 as int]],
            directions: Seq::empty(),
            left: s.left,
        },
    );
    if s.forest.tree.contains(at(walked.path.last())) {
        Planting {
            forest: commit(s.forest, walked.path, walked.directions, 0),
            rng: walked.rng,
            left: walked.left,
            stalled: false,
        }
    } else {
        Planting { forest: s.forest, rng: walked.rng, left: walked.left, stalled: true }
    }
}

/// At most `fuel` walks, stopping early when every cell is in the maze or a walk was dropped.
pub open spec fn wilsons_rounds(s: Planting, fuel: nat) -> Planting
    decreases fuel,
{
    if fuel == 0 || s.forest.unvisited.len() == 0 || s.stalled {
        s
    } else {
        wilsons_rounds(wilsons_round(s), (fuel - 1) as nat)
    }
}

/// The maze that Wilson's algorithm makes on a blank board from a seed when its walks may take
/// `budget` steps in all. On a board of more than one cell the first draw picks the cell that
/// the maze starts from, among all cells but the last in row-major order. Cells that are
/// outside the maze when the steps run out are joined by hunting.
pub open spec fn wilsons_maze_within(rows: nat, columns: nat, seed: u64, budget: nat) -> Maze {
    let cells = row_major(rows, columns);
    let first = if cells.len() > 1 {
        pcg64_below(pcg64_seeded(seed), (cells.len() - 1) as u64)
    } else {
        (0u64, pcg64_seeded(seed))
    };
    let done = wilsons_rounds(
        Planting {
            forest: Forest {
                maze: Maze::blank(rows, columns),
                tree: Set::<Position>::empty().insert(at(cells[first.0 as int])),
                unvisited: cells.remove(first.0 as int),
            },
            rng: first.1,
            left: budget,
            stalled: false,
        },
        rows * columns,
    );
    if done.forest.unvisited.len() == 0 {
        done.forest.maze
    } else {
        swept(done.forest.maze, done.forest.tree, done.forest.unvisited.len())
    }
}

/// The maze that Wilson's algorithm makes on a blank board from a seed: its walks may take as
/// many steps in all as a `u64` can count.
pub open spec fn wilsons_maze(rows: nat, columns: nat, seed: u64) -> Maze {
    wilsons_maze_within(rows, columns, seed, u64::MAX as nat)
}

/// What holds of a walk in progress: it has no repetitions and stays on the board, each of its
/// steps leads from one of its cells to the next, and none of its cells but the last, at
/// most, is in the tree.
#[verifier::opaque]
spec fn strolling(
    rows: nat,
    columns: nat,
    tree: Set<Position>,
    path: Seq<(usize, usize)>,
    directions: Seq<LinkDirections>,
) -> bool {
    &&& path.len() >= 1
    &&& directions.len() == path.len() - 1
    &&& path.no_duplicates()
    &&& forall|i: int|
        0 <= i < path.len() ==> grid_cells(rows, columns).contains(at(#[trigger] path[i]))
    &&& !tree.contains(at(path[0]))
    &&& forall|i: int|
        0 <= i < path.len() - 1 ==> !tree.contains(at(#[trigger] path[i])) && toward(
            at(path[i]),
            directions[i],
        ) == at(path[i + 1])
}

/// What holds between two walks: the maze is a tree on the cells of `tree`, and the list holds,
/// once each, the cells of the board that are not in it.
#[verifier::opaque]
spec fn planted(f: Forest, rank: Map<Position, int>, root: Position) -> bool {
    &&& growing(f.maze, rank, root)
    &&& rank.dom() == f.tree
    &&& f.unvisited.no_duplicates()
    &&& forall|c: (usize, usize)| #[trigger]
        listed(f.unvisited, c) <==> (grid_cells(f.maze.rows, f.maze.columns).contains(at(c))
            && !f.tree.contains(at(c)))
    &&& f.unvisited.len() == f.maze.rows * f.maze.columns - f.tree.len()
}

/// The invariant holds when a first cell has been taken off the list of a blank board.
proof fn lemma_planted_start(rows: nat, columns: nat, first: int)
    requires
        rows <= usize::MAX,
        columns <= usize::MAX,
        rows * columns <= usize::MAX,
        0 <= first < rows * columns,
    ensures
        planted(
            Forest {
                maze: Maze::blank(rows, columns),
                tree: Set::<Position>::empty().insert(at(row_major(rows, columns)[first])),
                unvisited: row_major(rows, columns).remove(first),
            },
            Map::empty().insert(at(row_major(rows, columns)[first]), 0int),
            at(row_major(rows, columns)[first]),
        ),
{
    reveal(planted);
    let cells = row_major(rows, columns);
    let start = cells[first];
    let rest = cells.remove(first);
    let tree = Set::<Position>::empty().insert(at(start));
    lemma_row_major(rows, columns);
    lemma_remove_index(cells, first);
    lemma_growing_start(rows, columns, at(start));
    assert forall|c: (usize, usize)| #[trigger]
        listed(rest, c) <==> (grid_cells(rows, columns).contains(at(c)) && !tree.contains(
            at(c),
        )) by {
        if listed(rest, c) {
            let i = choose|i: int| 0 <= i < cells.len() && #[trigger] cells[i] == c;
            assert(grid_cells(rows, columns).contains(at(cells[i])));
        }
        if grid_cells(rows, columns).contains(at(c)) && !tree.contains(at(c)) {
            let i = row_major_index(columns, at(c));
            assert(at(cells[i]) == at(c));
            assert(cells[i] == c);
        }
    }
}

/// A cell of the list lies on the board outside the tree, and the root lies inside.
proof fn lemma_planted_pick(f: Forest, rank: Map<Position, int>, root: Position, index: int)
    requires
        planted(f, rank, root),
        0 <= index < f.unvisited.len(),
    ensures
        grid_cells(f.maze.rows, f.maze.columns).contains(at(f.unvisited[index])),
        !f.tree.contains(at(f.unvisited[index])),
        grid_cells(f.maze.rows, f.maze.columns).contains(root),
        f.tree.contains(root),
{
    reveal(planted);
    lemma_growing_bounds(f.maze, rank, root);
    assert(listed(f.unvisited, f.unvisited[index]));
}

/// The list is as long as the board has cells outside the tree.
proof fn lemma_planted_rest(f: Forest, rank: Map<Position, int>, root: Position)
    requires
        planted(f, rank, root),
    ensures
        growing(f.maze, rank, root),
        rank.dom() == f.tree,
        f.unvisited.len() == f.maze.rows * f.maze.columns - rank.dom().len(),
{
    reveal(planted);
}

/// A single cell outside the tree is a walk in progress.
proof fn lemma_stroll_start(rows: nat, columns: nat, tree: Set<Position>, from: (usize, usize))
    requires
        grid_cells(rows, columns).contains(at(from)),
        !tree.contains(at(from)),
    ensures
        strolling(rows, columns, tree, seq![from], Seq::empty()),
{
    reveal(strolling);
}

/// A step from a last cell outside the tree leaves a walk in progress.
proof fn lemma_stroll_step(rows: nat, columns: nat, tree: Set<Position>, s: Stroll, other: Position)
    requires
        rows <= usize::MAX,
        columns <= usize::MAX,
        strolling(rows, columns, tree, s.path, s.directions),
        !tree.contains(at(s.path.last())),
        grid_cells(rows, columns).contains(other),
        tree.contains(other),
    ensures
        s.path.len() >= 1,
        s.directions.len() == s.path.len() - 1,
        neighbors_of(rows, columns, s.path.last()).len() > 0,
        s.path.index_of_first(
            neighbors_of(rows, columns, s.path.last())[(pcg64_byte(s.rng).0 as int) % (neighbors_of(
                rows,
                columns,
                s.path.last(),
            ).len() as int)].0,
        ) matches Some(found) ==> 0 <= found < s.path.len(),
        strolling(
            rows,
            columns,
            tree,
            wilsons_step(rows, columns, s).path,
            wilsons_step(rows, columns, s).directions,
        ),
{
    reveal(strolling);
    let last = s.path.last();
    let around = neighbors_of(rows, columns, last);
    lemma_has_neighbor(rows, columns, last, other);
    lemma_neighbors_among(rows, columns, last, Set::full());
    let draw = pcg64_byte(s.rng);
    let index = (draw.0 as int) % (around.len() as int);
    assert(0 <= index < around.len());
    let next = around[index];
    assert(at(next.0) == toward(at(last), next.1));
    s.path.index_of_first_ensures(next.0);
    let after = wilsons_step(rows, columns, s);
    match s.path.index_of_first(next.0) {
        Some(found) => {
            let keep = if found == 0 {
                1
            } else {
                found
            };
            assert(after.path == s.path.subrange(0, keep));
            assert(after.directions == s.directions.subrange(0, keep - 1));
            assert forall|i: int| 0 <= i < after.path.len() implies after.path[i] == s.path[i] by {}
            assert forall|i: int| 0 <= i < after.directions.len() implies after.directions[i]
                == s.directions[i] by {}
        },
        None => {
            assert(after.path == s.path.push(next.0));
            assert(after.directions == s.directions.push(next.1));
            assert forall|i: int| 0 <= i < s.path.len() implies s.path[i] != next.0 by {
                assert(s.path.contains(s.path[i]));
            }
            assert forall|i: int| 0 <= i < after.path.len() - 1 implies !tree.contains(
                at(#[trigger] after.path[i]),
            ) && toward(at(after.path[i]), after.directions[i]) == at(after.path[i + 1]) by {
                if i < s.path.len() - 1 {
                    assert(after.path[i] == s.path[i]);
                    assert(after.path[i + 1] == s.path[i + 1]);
                    assert(after.directions[i] == s.directions[i]);
                } else {
                    assert(after.path[i] == last);
                    assert(after.path[i + 1] == next.0);
                    assert(after.directions[i] == next.1);
                }
            }
        },
    }
}

/// A walk that ends in the tree has at least one step.
proof fn lemma_stroll_end(
    rows: nat,
    columns: nat,
    tree: Set<Position>,
    path: Seq<(usize, usize)>,
    directions: Seq<LinkDirections>,
)
    requires
        strolling(rows, columns, tree, path, directions),
    ensures
        path.len() >= 1,
        directions.len() == path.len() - 1,
        forall|i: int|
            0 <= i < path.len() ==> grid_cells(rows, columns).contains(at(#[trigger] path[i])),
        tree.contains(at(path.last())) ==> directions.len() >= 1,
{
    reveal(strolling);
}

/// Whether `p` is a cell of the walk at index `from` or later, the last cell left out.
spec fn carved(path: Seq<(usize, usize)>, from: nat, p: Position) -> bool {
    exists|j: int| from <= j < path.len() - 1 && at(#[trigger] path[j]) == p
}

/// Carving a walk that ends in the tree keeps the invariant: the cells of the walk join the
/// tree and leave the list.
proof fn lemma_commit(
    f: Forest,
    rank: Map<Position, int>,
    root: Position,
    path: Seq<(usize, usize)>,
    directions: Seq<LinkDirections>,
    from: nat,
) -> (ranked: Map<Position, int>)
    requires
        planted(f, rank, root),
        strolling(f.maze.rows, f.maze.columns, f.tree, path, directions),
        f.tree.contains(at(path.last())),
        from <= directions.len(),
    ensures
        planted(commit(f, path, directions, from), ranked, root),
        commit(f, path, directions, from).maze.rows == f.maze.rows,
        commit(f, path, directions, from).maze.columns == f.maze.columns,
        forall|p: Position|
            #[trigger] commit(f, path, directions, from).tree.contains(p) <==> (f.tree.contains(p)
                || carved(path, from, p)),
        commit(f, path, directions, from).unvisited.len() == f.unvisited.len() - (directions.len()
            - from),
    decreases directions.len() - from,
{
    if from >= directions.len() {
        reveal(strolling);
        rank
    } else {
        let later = commit(f, path, directions, from + 1);
        let before = lemma_commit(f, rank, root, path, directions, from + 1);
        reveal(strolling);
        reveal(planted);
        let here = path[from as int];
        let p = at(here);
        let d = directions[from as int];
        let q = toward(p, d);
        let now = commit(f, path, directions, from);
        assert(q == at(path[from as int + 1]));
        assert(!f.tree.contains(p));
        assert(!carved(path, from + 1, p)) by {
            if carved(path, from + 1, p) {
                let j = choose|j: int|
                    from + 1 <= j < path.len() - 1 && at(#[trigger] path[j]) == p;
                assert(path[j] == path[from as int]);
            }
        }
        assert(!later.tree.contains(p));
        assert(later.tree.contains(q)) by {
            if from + 1 < directions.len() {
                assert(carved(path, from + 1, q));
            } else {
                assert(path[from as int + 1] == path.last());
            }
        }
        assert(grid_cells(f.maze.rows, f.maze.columns).contains(p));
        assert(grid_cells(f.maze.rows, f.maze.columns).contains(at(path[from as int + 1])));
        lemma_growing_step(later.maze, before, root, p, d);
        let ranked = grown(before, p, d);
        assert(ranked.dom() == now.tree);
        assert(listed(later.unvisited, here));
        lemma_remove_value(later.unvisited, here);
        assert forall|c: (usize, usize)| #[trigger]
            listed(now.unvisited, c) <==> (grid_cells(now.maze.rows, now.maze.columns).contains(
                at(c),
            ) && !now.tree.contains(at(c))) by {
            assert(listed(now.unvisited, c) <==> (listed(later.unvisited, c) && c != here));
            assert((at(c) == p) == (c == here));
        }
        assert forall|x: Position| #[trigger]
            now.tree.contains(x) <==> (f.tree.contains(x) || carved(path, from, x)) by {
            if carved(path, from, x) {
                let j = choose|j: int| from <= j < path.len() - 1 && at(#[trigger] path[j]) == x;
                if j > from {
                    assert(carved(path, from + 1, x));
                }
            }
            if carved(path, from + 1, x) {
                let j = choose|j: int|
                    from + 1 <= j < path.len() - 1 && at(#[trigger] path[j]) == x;
                assert(carved(path, from, x));
            }
            if x == p {
                assert(at(path[from as int]) == x);
                assert(carved(path, from, x));
            }
        }
        ranked
    }
}

/// Walks at random from `from`, erasing loops, until the walk meets a cell of `visited` or the
/// budget of steps is spent. Returns the walk, the direction of each of its steps, and what is
/// left of the budget.
fn stroll(
    base: &Grid,
    visited: &Visited,
    rng: &mut Pcg64,
    from: (usize, usize),
    budget: u64,
    Ghost(other): Ghost<Position>,
) -> (walked: (Vec<(usize, usize)>, Vec<LinkDirections>, u64))
    requires
        base.wf(),
        visited.wf(),
        visited.rows() == base@.rows,
        visited.columns() == base@.columns,
        grid_cells(base@.rows, base@.columns).contains(at(from)),
        !visited@.contains(at(from)),
        grid_cells(base@.rows, base@.columns).contains(other),
        visited@.contains(other),
    ensures
        strolling(base@.rows, base@.columns, visited@, walked.0@, walked.1@),
        (Stroll {
            rng: pcg64_state(*final(rng)),
            path: walked.0@,
            directions: walked.1@,
            left: walked.2 as nat,
        }) == wilsons_walk(
            base@.rows,
            base@.columns,
            visited@,
            Stroll {
                rng: pcg64_state(*old(rng)),
                path: seq![from],
                directions: Seq::empty(),
                left: budget as nat,
            },
        ),
        visited@.contains(at(walked.0@.last())) || walked.2 == 0,
{
    let ghost rows = base@.rows;
    let ghost columns = base@.columns;
    let mut path: Vec<(usize, usize)> = Vec::new();
    path.push(from);
    let mut directions: Vec<LinkDirections> = Vec::new();
    let mut cell = from;
    let mut left: u64 = budget;
    let ghost start = Stroll {
        rng: pcg64_state(*rng),
        path: seq![from],
        directions: Seq::<LinkDirections>::empty(),
        left: budget as nat,
    };
    proof {
        lemma_stroll_start(rows, columns, visited@, from);
        assert(path@ =~= seq![from]);
        assert(directions@ =~= Seq::<LinkDirections>::empty());
    }
    while !visited.contains(cell) && left > 0
        invariant
            base.wf(),
            base@.rows == rows,
            base@.columns == columns,
            visited.wf(),
            visited.rows() == rows,
            visited.columns() == columns,
            grid_cells(rows, columns).contains(other),
            visited@.contains(other),
            path@.len() >= 1,
            cell == path@.last(),
            strolling(rows, columns, visited@, path@, directions@),
            wilsons_walk(
                rows,
                columns,
                visited@,
                Stroll {
                    rng: pcg64_state(*rng),
                    path: path@,
                    directions: directions@,
                    left: left as nat,
                },
            ) == wilsons_walk(rows, columns, visited@, start),
        decreases left,
    {
        let around = base.neighbors(cell);
        proof {
            lemma_stroll_step(
                rows,
                columns,
                visited@,
                Stroll {
                    rng: pcg64_state(*rng),
                    path: path@,
                    directions: directions@,
                    left: left as nat,
                },
                other,
            );
        }
        let rindex: usize = (draw_byte(rng) as usize) % around.len();
        let next = around[rindex];
        match position(&path, next.0) {
            Some(found) => {
                let keep: usize = if found == 0 {
                    1
                } else {
                    found
                };
                path.truncate(keep);
                directions.truncate(keep - 1);
                cell = path[path.len() - 1];
            },
            None => {
                path.push(next.0);
                directions.push(next.1);
                cell = next.0;
            },
        }
        left -= 1;
    }
    (path, directions, left)
}

/// Carves a walk into the maze, the last step first: opens the wall that each step crosses,
/// puts the cell it leaves into `visited`, and takes that cell off the list.
fn carve(
    base: &mut Grid,
    visited: &mut Visited,
    unvisited: &mut Vec<(usize, usize)>,
    path: &Vec<(usize, usize)>,
    directions: &Vec<LinkDirections>,
)
    requires
        old(base).wf(),
        old(visited).wf(),
        old(visited).rows() == old(base)@.rows,
        old(visited).columns() == old(base)@.columns,
        directions@.len() == path@.len() - 1,
        forall|i: int|
            0 <= i < path@.len() ==> grid_cells(old(base)@.rows, old(base)@.columns).contains(
                at(#[trigger] path@[i]),
            ),
    ensures
        final(base).wf(),
        final(visited).wf(),
        final(visited).rows() == old(visited).rows(),
        final(visited).columns() == old(visited).columns(),
        (Forest { maze: final(base)@, tree: final(visited)@, unvisited: final(unvisited)@ })
            == commit(
            (Forest { maze: old(base)@, tree: old(visited)@, unvisited: old(unvisited)@ }),
            path@,
            directions@,
            0,
        ),
{
    let ghost rows = base@.rows;
    let ghost columns = base@.columns;
    let ghost before = Forest { maze: base@, tree: visited@, unvisited: unvisited@ };
    let mut index: usize = directions.len();
    while index > 0
        invariant
            base.wf(),
            base@.rows == rows,
            base@.columns == columns,
            visited.wf(),
            visited.rows() == rows,
            visited.columns() == columns,
            index <= directions@.len(),
            directions@.len() == path@.len() - 1,
            forall|i: int|
                0 <= i < path@.len() ==> grid_cells(rows, columns).contains(
                    at(#[trigger] path@[i]),
                ),
            (Forest { maze: base@, tree: visited@, unvisited: unvisited@ }) == commit(
                before,
                path@,
                directions@,
                index as nat,
            ),
        decreases index,
    {
        index -= 1;
        let cell = path[index];
        base.link(cell.0, cell.1, directions[index]);
        visited.insert(cell);
        remove_cell(unvisited, cell);
    }
}

/// Determinism: two mazes that Wilson's algorithm makes from the same seed on boards of the
/// same size have the same open walls in every cell.
pub proof fn lemma_wilsons_repeatable(
    first: Maze,
    second: Maze,
    rows: nat,
    columns: nat,
    seed: u64,
)
    requires
        first == wilsons_maze(rows, columns, seed),
        second == wilsons_maze(rows, columns, seed),
    ensures
        first == second,
        forall|p: Position, d: LinkDirections| first.is_open(p, d) == second.is_open(p, d),
{
}

/// Carves a perfect maze into a blank grid by Wilson's algorithm, seeded from the thread's
/// random generator.
pub fn wilsons(base: &mut Grid)
    requires
        old(base).wf(),
        old(base)@ == Maze::blank(old(base)@.rows, old(base)@.columns),
    ensures
        final(base).wf(),
        final(base)@.rows == old(base)@.rows,
        final(base)@.columns == old(base)@.columns,
        final(base)@.perfect(),
        exists|seed: u64|
            final(base)@ == #[trigger] wilsons_maze(old(base)@.rows, old(base)@.columns, seed),
{
    let seed = fresh_seed();
    wilsions_seeded(base, seed)
}

/// Carves a perfect maze into a blank grid by Wilson's algorithm, whose walks may take as many
/// steps in all as a `u64` can count. The maze depends on the grid's size and on the seed
/// alone.
pub fn wilsions_seeded(base: &mut Grid, seed: u64)
    requires
        old(base).wf(),
        old(base)@ == Maze::blank(old(base)@.rows, old(base)@.columns),
    ensures
        final(base).wf(),
        final(base)@.rows == old(base)@.rows,
        final(base)@.columns == old(base)@.columns,
        final(base)@.perfect(),
        final(base)@ == wilsons_maze(old(base)@.rows, old(base)@.columns, seed),
{
    wilsons_within(base, seed, u64::MAX)
}

/// Carves a perfect maze into a blank grid by Wilson's algorithm with walks of at most `budget`
/// steps in all; cells that are outside the maze when the steps run out are joined to it by
/// hunting, so that the result is a perfect maze whatever the draws.
pub fn wilsons_within(base: &mut Grid, seed: u64, budget: u64)
    requires
        old(base).wf(),
        old(base)@ == Maze::blank(old(base)@.rows, old(base)@.columns),
    ensures
        final(base).wf(),
        final(base)@.rows == old(base)@.rows,
        final(base)@.columns == old(base)@.columns,
        final(base)@.perfect(),
        final(base)@ == wilsons_maze_within(
            old(base)@.rows,
            old(base)@.columns,
            seed,
            budget as nat,
        ),
{
    let ghost rows = base@.rows;
    let ghost columns = base@.columns;
    let mut rng = seeded_generator(seed);
    let mut unvisited = base.cell_locations();
    proof {
        lemma_row_major(rows, columns);
        assert(rows * columns >= 1) by (nonlinear_arith)
            requires
                rows >= 1,
                columns >= 1,
        ;
    }
    let first: usize = if unvisited.len() > 1 {
        draw_below(&mut rng, (unvisited.len() - 1) as u64) as usize
    } else {
        0
    };
    proof {
        lemma_planted_start(rows, columns, first as int);
    }
    let start = unvisited.remove(first);
    let mut visited = Visited::new(base.rows(), base.columns());
    visited.insert(start);
    let mut left: u64 = budget;
    let mut stalled = false;
    let ghost root = at(start);
    let ghost mut rank = Map::<Position, int>::empty().insert(root, 0int);
    let ghost total: nat = rows * columns;
    let ghost mut fuel: nat = total;
    let ghost begun = Planting {
        forest: Forest { maze: base@, tree: visited@, unvisited: unvisited@ },
        rng: pcg64_state(rng),
        left: left as nat,
        stalled,
    };
    while unvisited.len() > 0 && !stalled
        invariant
            base.wf(),
            base@.rows == rows,
            base@.columns == columns,
            visited.wf(),
            visited.rows() == rows,
            visited.columns() == columns,
            planted(Forest { maze: base@, tree: visited@, unvisited: unvisited@ }, rank, root),
            wilsons_rounds(
                Planting {
                    forest: Forest { maze: base@, tree: visited@, unvisited: unvisited@ },
                    rng: pcg64_state(rng),
                    left: left as nat,
                    stalled,
                },
                fuel,
            ) == wilsons_rounds(begun, total),
            fuel >= unvisited@.len() + (if stalled {
                0int
            } else {
                1int
            }),
        decreases
                unvisited@.len() + (if stalled {
                    0int
                } else {
                    1int
                }),
    {
        let ghost forest = Forest { maze: base@, tree: visited@, unvisited: unvisited@ };
        let index: usize = if unvisited.len() > 1 {
            draw_below(&mut rng, (unvisited.len() - 1) as u64) as usize
        } else {
            0
        };
        let from = unvisited[index];
        proof {
            lemma_planted_pick(forest, rank, root, index as int);
        }
        let (path, directions, rest) = stroll(base, &visited, &mut rng, from, left, Ghost(root));
        left = rest;
        proof {
            lemma_stroll_end(rows, columns, visited@, path@, directions@);
        }
        if visited.contains(path[path.len() - 1]) {
            proof {
                rank = lemma_commit(forest, rank, root, path@, directions@, 0);
            }
            carve(base, &mut visited, &mut unvisited, &path, &directions);
        } else {
            stalled = true;
        }
        proof {
            fuel = (fuel - 1) as nat;
        }
    }
    proof {
        lemma_planted_rest(
            Forest { maze: base@, tree: visited@, unvisited: unvisited@ },
            rank,
            root,
        );
    }
    if unvisited.len() > 0 {
        let remaining: usize = unvisited.len();
        sweep(base, &mut visited, remaining, Ghost(rank), Ghost(root));
    } else {
        proof {
            lemma_growing_done(base@, rank, root);
        }
    }
}

} // verus!
