//! Why the generated mazes are perfect: a ranking of the cells, under which every cell but one
//! has exactly one open wall toward a cell of lower rank, certifies a spanning tree.

use super::grid::LinkDirections;
use super::maze::{
    grid_cells, lemma_blank, lemma_cell_count, lemma_cells_bound, lemma_link, reverse, toward, Maze,
    Position,
};
use vstd::prelude::*;

verus! {

/// The wall of `p` on side `d` is open and leads to a cell of lower rank: a parent of `p`.
pub open spec fn climbs(m: Maze, rank: Map<Position, int>, p: Position, d: LinkDirections) -> bool {
    m.is_open(p, d) && rank[toward(p, d)] < rank[p]
}

/// `p` has a parent.
pub open spec fn has_parent(m: Maze, rank: Map<Position, int>, p: Position) -> bool {
    ||| climbs(m, rank, p, LinkDirections::North)
    ||| climbs(m, rank, p, LinkDirections::East)
    ||| climbs(m, rank, p, LinkDirections::South)
    ||| climbs(m, rank, p, LinkDirections::West)
}

/// Linked cells differ in rank, and no cell has two parents.
pub open spec fn ranked(m: Maze, rank: Map<Position, int>) -> bool {
    &&& forall|p: Position, d: LinkDirections| #[trigger]
        m.is_open(p, d) ==> rank[p] != rank[toward(p, d)]
    &&& forall|p: Position, d1: LinkDirections, d2: LinkDirections|
        #[trigger] climbs(m, rank, p, d1) && #[trigger] climbs(m, rank, p, d2) ==> d1 == d2
}

/// Ranks are not negative, and every cell of the board but `root` has a parent.
pub open spec fn rooted(m: Maze, rank: Map<Position, int>, root: Position) -> bool {
    &&& m.contains_cell(root)
    &&& forall|p: Position| #[trigger] m.contains_cell(p) ==> rank[p] >= 0
    &&& forall|p: Position| #[trigger] m.contains_cell(p) && p != root ==> has_parent(m, rank, p)
}

/// Some index of a non-empty walk holds a cell of highest rank.
proof fn lemma_highest(rank: Map<Position, int>, w: Seq<Position>) -> (i: int)
    requires
        w.len() > 0,
    ensures
        0 <= i < w.len(),
        forall|j: int| 0 <= j < w.len() ==> rank[#[trigger] w[j]] <= rank[w[i]],
    decreases w.len(),
{
    if w.len() == 1 {
        0
    } else {
        let front = w.drop_last();
        let k = lemma_highest(rank, front);
        assert forall|j: int| 0 <= j < w.len() - 1 implies rank[#[trigger] w[j]] <= rank[w[k]] by {
            assert(front[j] == w[j]);
        }
        assert(front[k] == w[k]);
        if rank[w.last()] > rank[w[k]] {
            w.len() - 1
        } else {
            k
        }
    }
}

/// Where every wall is open from both sides, passing goes both ways.
proof fn lemma_joined_back(m: Maze, p: Position, q: Position)
    requires
        m.symmetric(),
        m.joined(p, q),
    ensures
        m.joined(q, p),
{
    let d = choose|d: LinkDirections| #[trigger] m.is_open(p, d) && toward(p, d) == q;
    assert(m.is_open(q, reverse(d)));
    assert(toward(q, reverse(d)) == p);
}

/// A maze with a ranking has no cycle.
pub proof fn lemma_ranked_acyclic(m: Maze, rank: Map<Position, int>)
    requires
        m.symmetric(),
        ranked(m, rank),
    ensures
        m.acyclic(),
{
    assert forall|w: Seq<Position>| !#[trigger] m.is_cycle(w) by {
        if m.is_cycle(w) {
            let n = w.len() as int;
            let i = lemma_highest(rank, w);
            let a = if i == 0 {
                n - 1
            } else {
                i - 1
            };
            let b = if i == n - 1 {
                0
            } else {
                i + 1
            };
            assert(m.joined(w[a], w[i])) by {
                if i != 0 {
                    assert(m.joined(w[i - 1], w[i - 1 + 1]));
                }
            }
            assert(m.joined(w[i], w[b])) by {
                if i != n - 1 {
                    assert(m.joined(w[i], w[i + 1]));
                }
            }
            lemma_joined_back(m, w[a], w[i]);
            let da = choose|d: LinkDirections| #[trigger]
                m.is_open(w[i], d) && toward(w[i], d) == w[a];
            let db = choose|d: LinkDirections| #[trigger]
                m.is_open(w[i], d) && toward(w[i], d) == w[b];
            assert(rank[w[a]] <= rank[w[i]]);
            assert(rank[w[b]] <= rank[w[i]]);
            assert(climbs(m, rank, w[i], da));
            assert(climbs(m, rank, w[i], db));
            assert(w[a] == w[b]);
            assert(a != b);
        }
    }
}

/// Every cell of the board is joined to the root by the walk along its ancestors.
proof fn lemma_reaches_root(m: Maze, rank: Map<Position, int>, root: Position, p: Position)
    requires
        m.bounded(),
        rooted(m, rank, root),
        m.contains_cell(p),
    ensures
        m.reachable(p, root),
    decreases rank[p],
{
    if p == root {
        let w = seq![p];
        assert(m.is_walk(w) && w.first() == p && w.last() == root);
    } else {
        assert(has_parent(m, rank, p));
        let d = if climbs(m, rank, p, LinkDirections::North) {
            LinkDirections::North
        } else if climbs(m, rank, p, LinkDirections::East) {
            LinkDirections::East
        } else if climbs(m, rank, p, LinkDirections::South) {
            LinkDirections::South
        } else {
            LinkDirections::West
        };
        let q = toward(p, d);
        assert(m.is_open(p, d));
        assert(m.contains_cell(q));
        lemma_reaches_root(m, rank, root, q);
        let tail = choose|w: Seq<Position>| #[trigger]
            m.is_walk(w) && w.first() == q && w.last() == root;
        let w = seq![p] + tail;
        assert(m.joined(p, q));
        assert forall|i: int| 0 <= i < w.len() - 1 implies m.joined(#[trigger] w[i], w[i + 1]) by {
            if i == 0 {
                assert(w[0] == p);
                assert(w[1] == tail[0]);
            } else {
                assert(w[i] == tail[i - 1]);
                assert(w[i + 1] == tail[i - 1 + 1]);
            }
        }
        assert(w.last() == tail.last());
        assert(m.is_walk(w) && w.first() == p && w.last() == root);
    }
}

/// A walk read backward is a walk.
proof fn lemma_walk_back(m: Maze, w: Seq<Position>)
    requires
        m.symmetric(),
        m.is_walk(w),
    ensures
        m.is_walk(w.reverse()),
        w.reverse().first() == w.last(),
        w.reverse().last() == w.first(),
{
    let r = w.reverse();
    assert forall|i: int| 0 <= i < r.len() - 1 implies m.joined(#[trigger] r[i], r[i + 1]) by {
        let j = w.len() - 2 - i;
        assert(r[i] == w[j + 1]);
        assert(r[i + 1] == w[j]);
        assert(m.joined(w[j], w[j + 1]));
        lemma_joined_back(m, w[j], w[j + 1]);
    }
}

/// Two walks, the second of which begins where the first ends, make one walk.
proof fn lemma_walk_join(m: Maze, a: Seq<Position>, b: Seq<Position>)
    requires
        m.is_walk(a),
        m.is_walk(b),
        a.last() == b.first(),
    ensures
        m.is_walk(a + b.drop_first()),
        (a + b.drop_first()).first() == a.first(),
        (a + b.drop_first()).last() == b.last(),
{
    let tail = b.drop_first();
    let w = a + tail;
    assert forall|i: int| 0 <= i < w.len() - 1 implies m.joined(#[trigger] w[i], w[i + 1]) by {
        if i < a.len() - 1 {
            assert(w[i] == a[i]);
            assert(w[i + 1] == a[i + 1]);
        } else if i == a.len() - 1 {
            assert(w[i] == a[i]);
            assert(w[i + 1] == tail[0]);
            assert(tail[0] == b[1]);
            assert(m.joined(b[0int], b[0int + 1]));
        } else {
            let k = i - a.len();
            assert(w[i] == tail[k]);
            assert(w[i + 1] == tail[k + 1]);
            assert(tail[k] == b[k + 1]);
            assert(tail[k + 1] == b[k + 1 + 1]);
        }
    }
    if tail.len() > 0 {
        assert(w.last() == tail.last());
        assert(tail.last() == b.last());
    } else {
        assert(w =~= a);
    }
}

/// A maze with a ranking under which every cell but one has a parent is connected.
pub proof fn lemma_rooted_connected(m: Maze, rank: Map<Position, int>, root: Position)
    requires
        m.symmetric(),
        m.bounded(),
        rooted(m, rank, root),
    ensures
        m.connected(),
{
    assert forall|p: Position, q: Position|
        m.contains_cell(p) && m.contains_cell(q) implies #[trigger] m.reachable(p, q) by {
        lemma_reaches_root(m, rank, root, p);
        lemma_reaches_root(m, rank, root, q);
        let up = choose|w: Seq<Position>| #[trigger]
            m.is_walk(w) && w.first() == p && w.last() == root;
        let other = choose|w: Seq<Position>| #[trigger]
            m.is_walk(w) && w.first() == q && w.last() == root;
        lemma_walk_back(m, other);
        lemma_walk_join(m, up, other.reverse());
        let w = up + other.reverse().drop_first();
        assert(m.is_walk(w) && w.first() == p && w.last() == q);
    }
}

/// The opened walls form a tree that spans the cells `rank` is defined on and is rooted at
/// `root`; all other cells of the board have their four walls closed.
pub open spec fn tree_on(m: Maze, rank: Map<Position, int>, root: Position) -> bool {
    &&& m.well_formed()
    &&& rank.dom().subset_of(grid_cells(m.rows, m.columns))
    &&& rank.dom().contains(root)
    &&& forall|p: Position, d: LinkDirections| #[trigger]
        m.is_open(p, d) ==> rank.dom().contains(p)
    &&& forall|p: Position| #[trigger] rank.dom().contains(p) ==> 0 <= rank[p] < rank.dom().len()
    &&& ranked(m, rank)
    &&& forall|p: Position| #[trigger]
        rank.dom().contains(p) && p != root ==> has_parent(m, rank, p)
    &&& m.link_count() == rank.dom().len() - 1
}

/// Of two neighbouring cells of which one is in the tree, the one that is not.
pub open spec fn newcomer(rank: Map<Position, int>, p: Position, d: LinkDirections) -> Position {
    if rank.dom().contains(p) {
        toward(p, d)
    } else {
        p
    }
}

/// The ranking after the newcomer has joined the tree.
pub open spec fn grown(rank: Map<Position, int>, p: Position, d: LinkDirections) -> Map<
    Position,
    int,
> {
    rank.insert(newcomer(rank, p, d), rank.dom().len() as int)
}

/// A board with every wall closed holds the tree that consists of `root` alone.
pub proof fn lemma_tree_start(rows: nat, columns: nat, root: Position)
    requires
        Maze::blank(rows, columns).contains_cell(root),
    ensures
        tree_on(Maze::blank(rows, columns), Map::empty().insert(root, 0int), root),
{
    let m = Maze::blank(rows, columns);
    let rank = Map::<Position, int>::empty().insert(root, 0int);
    assert(rank.dom() =~= Set::empty().insert(root));
    lemma_blank(rows, columns);
}

/// Opening the wall between a cell of the tree and a neighbour outside it makes the tree one
/// cell larger.
pub proof fn lemma_tree_grows(
    m: Maze,
    rank: Map<Position, int>,
    root: Position,
    p: Position,
    d: LinkDirections,
)
    requires
        tree_on(m, rank, root),
        m.contains_cell(p),
        m.contains_cell(toward(p, d)),
        rank.dom().contains(p) != rank.dom().contains(toward(p, d)),
    ensures
        tree_on(m.link(p, d), grown(rank, p, d), root),
        grown(rank, p, d).dom() == rank.dom().insert(newcomer(rank, p, d)),
        grown(rank, p, d).dom().len() == rank.dom().len() + 1,
        !m.is_open(p, d),
{
    let q = toward(p, d);
    let back = reverse(d);
    let fresh = newcomer(rank, p, d);
    let host = if rank.dom().contains(p) {
        q
    } else {
        p
    };
    let size = rank.dom().len() as int;
    let after = m.link(p, d);
    let rank2 = grown(rank, p, d);
    lemma_cells_bound(m.rows, m.columns, rank.dom());
    lemma_link(m, p, d);
    assert(toward(q, back) == p);
    assert(forall|e: LinkDirections| !m.is_open(fresh, e));
    assert forall|x: Position, e: LinkDirections| #[trigger] m.is_open(x, e) implies toward(x, e)
        != fresh by {
        assert(m.is_open(toward(x, e), reverse(e)));
    }
    assert(!m.is_open(p, d)) by {
        if m.is_open(p, d) {
            assert(m.is_open(q, back));
        }
    }
    assert(rank2.dom() =~= rank.dom().insert(fresh));
    assert forall|x: Position, e: LinkDirections| #[trigger] after.is_open(x, e) implies (m.is_open(
        x,
        e,
    ) || (x, e) == (p, d) || (x, e) == (q, back)) by {}
    assert forall|x: Position, e: LinkDirections| #[trigger]
        after.is_open(x, e) implies rank2.dom().contains(x) by {}
    assert forall|x: Position| #[trigger] rank2.dom().contains(x) implies 0 <= rank2[x]
        < rank2.dom().len() by {}
    assert forall|x: Position, e: LinkDirections| #[trigger] after.is_open(x, e) implies rank2[x]
        != rank2[toward(x, e)] by {
        if m.is_open(x, e) {
            assert(rank.dom().contains(x));
            assert(m.is_open(toward(x, e), reverse(e)));
            assert(rank.dom().contains(toward(x, e)));
        }
    }
    assert forall|x: Position, e: LinkDirections| #[trigger]
        climbs(after, rank2, x, e) implies (if x == fresh {
        toward(x, e) != fresh && (x, e) == (if fresh == p {
            (p, d)
        } else {
            (q, back)
        })
    } else {
        climbs(m, rank, x, e)
    }) by {
        if m.is_open(x, e) {
            assert(rank.dom().contains(x));
            assert(m.is_open(toward(x, e), reverse(e)));
            assert(rank.dom().contains(toward(x, e)));
        }
    }
    assert(ranked(after, rank2)) by {
        assert forall|x: Position, d1: LinkDirections, d2: LinkDirections|
            #[trigger] climbs(after, rank2, x, d1) && #[trigger] climbs(
                after,
                rank2,
                x,
                d2,
            ) implies d1 == d2 by {
            if x != fresh {
                assert(climbs(m, rank, x, d1) && climbs(m, rank, x, d2));
            }
        }
    }
    assert forall|x: Position| #[trigger]
        rank2.dom().contains(x) && x != root implies has_parent(after, rank2, x) by {
        if x == fresh {
            let e = if fresh == p {
                d
            } else {
                back
            };
            assert(climbs(after, rank2, x, e));
        } else {
            assert(has_parent(m, rank, x));
            assert forall|e: LinkDirections| climbs(m, rank, x, e) implies climbs(
                after,
                rank2,
                x,
                e,
            ) by {
                assert(m.is_open(toward(x, e), reverse(e)));
            }
        }
    }
}

/// A tree that spans every cell of the board is a perfect maze.
pub proof fn lemma_spanning_tree_is_perfect(m: Maze, rank: Map<Position, int>, root: Position)
    requires
        tree_on(m, rank, root),
        rank.dom().len() == m.rows * m.columns,
    ensures
        m.perfect(),
{
    lemma_cells_bound(m.rows, m.columns, rank.dom());
    assert(forall|p: Position| m.contains_cell(p) == grid_cells(m.rows, m.columns).contains(p));
    assert(rooted(m, rank, root));
    lemma_ranked_acyclic(m, rank);
    lemma_rooted_connected(m, rank, root);
}

/// What the algorithms that grow one tree keep between two steps: the opened walls form a tree
/// on the cells reached so far, on a board whose coordinates fit the machine.
#[verifier::opaque]
pub open spec fn growing(m: Maze, rank: Map<Position, int>, root: Position) -> bool {
    &&& tree_on(m, rank, root)
    &&& m.rows <= usize::MAX
    &&& m.columns <= usize::MAX
}

/// A blank board holds the tree that consists of the start alone.
pub proof fn lemma_growing_start(rows: nat, columns: nat, root: Position)
    requires
        grid_cells(rows, columns).contains(root),
        rows <= usize::MAX,
        columns <= usize::MAX,
    ensures
        growing(Maze::blank(rows, columns), Map::empty().insert(root, 0int), root),
        Map::<Position, int>::empty().insert(root, 0int).dom() == Set::<Position>::empty().insert(
            root,
        ),
        Map::<Position, int>::empty().insert(root, 0int).dom().len() == 1,
        1 <= rows * columns,
{
    reveal(growing);
    lemma_tree_start(rows, columns, root);
    let rank = Map::<Position, int>::empty().insert(root, 0int);
    assert(rank.dom() =~= Set::<Position>::empty().insert(root));
    lemma_cells_bound(rows, columns, rank.dom());
}

/// Opening the wall between a cell of the tree and a neighbour outside it keeps the tree a
/// tree, with the neighbour in it.
pub proof fn lemma_growing_step(
    m: Maze,
    rank: Map<Position, int>,
    root: Position,
    p: Position,
    d: LinkDirections,
)
    requires
        growing(m, rank, root),
        m.contains_cell(p),
        m.contains_cell(toward(p, d)),
        rank.dom().contains(p) != rank.dom().contains(toward(p, d)),
    ensures
        growing(m.link(p, d), grown(rank, p, d), root),
        grown(rank, p, d).dom() == rank.dom().insert(newcomer(rank, p, d)),
        grown(rank, p, d).dom().len() == rank.dom().len() + 1,
        grown(rank, p, d).dom().len() <= m.rows * m.columns,
        m.link(p, d).rows == m.rows,
        m.link(p, d).columns == m.columns,
{
    reveal(growing);
    lemma_tree_grows(m, rank, root, p, d);
    lemma_cells_bound(m.rows, m.columns, grown(rank, p, d).dom());
}

/// The cells of a growing tree lie on the board, and the root is one of them.
pub proof fn lemma_growing_bounds(m: Maze, rank: Map<Position, int>, root: Position)
    requires
        growing(m, rank, root),
    ensures
        rank.dom().subset_of(grid_cells(m.rows, m.columns)),
        rank.dom().contains(root),
        rank.dom().finite(),
        rank.dom().len() <= m.rows * m.columns,
        m.rows <= usize::MAX,
        m.columns <= usize::MAX,
{
    reveal(growing);
    lemma_cells_bound(m.rows, m.columns, rank.dom());
}

/// A tree that has grown over the whole board is a perfect maze.
pub proof fn lemma_growing_done(m: Maze, rank: Map<Position, int>, root: Position)
    requires
        growing(m, rank, root),
        grid_cells(m.rows, m.columns).subset_of(rank.dom()) || rank.dom().len() == m.rows
            * m.columns,
    ensures
        m.perfect(),
        rank.dom() == grid_cells(m.rows, m.columns),
        rank.dom().len() == m.rows * m.columns,
{
    reveal(growing);
    lemma_cells_bound(m.rows, m.columns, rank.dom());
    lemma_cell_count(m.rows, m.columns);
    assert(rank.dom() =~= grid_cells(m.rows, m.columns));
    lemma_spanning_tree_is_perfect(m, rank, root);
}

/// A tree that has fewer cells than the board leaves a cell of the board out.
pub proof fn lemma_growing_unfinished(m: Maze, rank: Map<Position, int>, root: Position) -> (p:
    Position)
    requires
        growing(m, rank, root),
        rank.dom().len() < m.rows * m.columns,
    ensures
        grid_cells(m.rows, m.columns).contains(p),
        !rank.dom().contains(p),
{
    lemma_growing_bounds(m, rank, root);
    lemma_cell_count(m.rows, m.columns);
    if forall|x: Position| grid_cells(m.rows, m.columns).contains(x) ==> rank.dom().contains(x) {
        assert(rank.dom() =~= grid_cells(m.rows, m.columns));
    }
    choose|x: Position| grid_cells(m.rows, m.columns).contains(x) && !rank.dom().contains(x)
}

} // verus!
