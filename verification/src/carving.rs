//! The shape of a carved maze.
//!
//! A carving records the cells that the carver has visited, in the order
//! in which it reached them, and for each but the first the cell it was
//! reached from. The visited cells are the nodes of a tree, and the cell
//! between a node and the one it was reached from is the passage that
//! joins them. A grid shows a carving when its nodes and passages have the
//! path color and every other cell has the wall color.

use crate::buffer::{in_grid, painted, rectangular, uniform};
use crate::maze::{
    all_choosable, begun, carver_after, carver_leaves, choosable, grid_count, is_wall,
    lemma_grid_count_painted, midpoint, moved, unvisited_neighbors, wall_at, Carver, MazeConfig,
};
use vstd::prelude::*;

verus! {

/// The visited cells in the order of their discovery, and for each the
/// index of the cell it was reached from. The first cell is the root; its
/// own entry in `parent` means nothing.
pub struct Carving {
    pub order: Seq<(usize, usize)>,
    pub parent: Seq<int>,
}

/// Whether `a` and `b` lie two steps apart in one row or one column.
pub open spec fn two_apart(a: (usize, usize), b: (usize, usize)) -> bool {
    ||| a.1 == b.1 && (a.0 - b.0 == 2 || b.0 - a.0 == 2)
    ||| a.0 == b.0 && (a.1 - b.1 == 2 || b.1 - a.1 == 2)
}

/// The cell between the `i`-th node and the node it was reached from.
pub open spec fn passage(t: Carving, i: int) -> (usize, usize) {
    midpoint(t.order[t.parent[i]], t.order[i])
}

/// Whether `c` is a visited cell.
#[verifier::opaque]
pub open spec fn is_node(t: Carving, c: (usize, usize)) -> bool {
    exists|i: int| 0 <= i < t.order.len() && t.order[i] == c
}

/// Whether `c` is the cell between a visited cell and the one it was
/// reached from.
#[verifier::opaque]
pub open spec fn is_passage(t: Carving, c: (usize, usize)) -> bool {
    exists|i: int| 1 <= i < t.order.len() && passage(t, i) == c
}

/// Whether the carving is a tree: no cell was visited twice, and every
/// cell but the root was reached from an earlier one two steps away.
pub open spec fn tree_shaped(t: Carving) -> bool {
    &&& t.order.len() >= 1
    &&& t.parent.len() == t.order.len()
    &&& forall|i: int, j: int| 0 <= i < j < t.order.len() ==> t.order[i] != t.order[j]
    &&& forall|i: int|
        1 <= i < t.order.len() ==> 0 <= #[trigger] t.parent[i] < i && two_apart(
            t.order[t.parent[i]],
            t.order[i],
        )
}

/// Whether the grid shows the carving: the nodes lie in the grid, nodes
/// and passages have the path color, and all other cells the wall color.
pub open spec fn carved(g: Seq<Seq<u32>>, config: MazeConfig, t: Carving) -> bool {
    &&& tree_shaped(t)
    &&& forall|i: int|
        0 <= i < t.order.len() ==> in_grid(g, (#[trigger] t.order[i]).0 as int, t.order[i].1 as int)
    &&& forall|x: int, y: int| #[trigger]
        in_grid(g, x, y) ==> g[y][x] == if is_node(t, (x as usize, y as usize)) || is_passage(
            t,
            (x as usize, y as usize),
        ) {
            config.path_color
        } else {
            config.wall_color
        }
}

/// Whether `(x, y)` lies an even number of steps from `root` in both
/// directions.
pub open spec fn on_lattice(root: (usize, usize), x: int, y: int) -> bool {
    (x - root.0) % 2 == 0 && (y - root.1) % 2 == 0
}

/// Whether the grid shows a perfect maze: a carving whose tree holds every
/// cell of the grid that lies on the lattice of its root.
pub open spec fn perfect(g: Seq<Seq<u32>>, config: MazeConfig, t: Carving) -> bool {
    &&& carved(g, config, t)
    &&& forall|x: int, y: int| #[trigger]
        in_grid(g, x, y) && on_lattice(t.order[0], x, y) ==> is_node(t, (x as usize, y as usize))
}

/// Whether the grid shows a perfect maze carved from some cell.
pub open spec fn is_perfect_maze(g: Seq<Seq<u32>>, config: MazeConfig) -> bool {
    exists|t: Carving| perfect(g, config, t)
}

/// The carving with one more cell, reached from the node of index `from`.
pub open spec fn grown(t: Carving, next: (usize, usize), from: int) -> Carving {
    Carving { order: t.order.push(next), parent: t.parent.push(from) }
}

/// Whether none of the four cells two steps from `c` is still a wall.
pub open spec fn exhausted(g: Seq<Seq<u32>>, wall: u32, c: (usize, usize)) -> bool {
    &&& !is_wall(g, wall, c.0 - 2, c.1 as int)
    &&& !is_wall(g, wall, c.0 + 2, c.1 as int)
    &&& !is_wall(g, wall, c.0 as int, c.1 - 2)
    &&& !is_wall(g, wall, c.0 as int, c.1 + 2)
}

/// Whether every node that still has a wall two steps away is on the
/// stack.
#[verifier::opaque]
pub open spec fn pending_on(
    g: Seq<Seq<u32>>,
    wall: u32,
    t: Carving,
    stack: Seq<(usize, usize)>,
) -> bool {
    forall|i: int|
        0 <= i < t.order.len() ==> exhausted(g, wall, #[trigger] t.order[i]) || stack.contains(
            t.order[i],
        )
}

/// The `i`-th visited cell is a node.
pub proof fn lemma_is_node(t: Carving, i: int)
    requires
        0 <= i < t.order.len(),
    ensures
        is_node(t, t.order[i]),
{
    reveal(is_node);
}

/// A node has an index in the order of discovery.
pub proof fn lemma_node_index(t: Carving, c: (usize, usize)) -> (i: int)
    requires
        is_node(t, c),
    ensures
        0 <= i < t.order.len(),
        t.order[i] == c,
{
    reveal(is_node);
    choose|i: int| 0 <= i < t.order.len() && t.order[i] == c
}

/// The cell between the `i`-th node and its parent is a passage.
pub proof fn lemma_is_passage(t: Carving, i: int)
    requires
        1 <= i < t.order.len(),
    ensures
        is_passage(t, passage(t, i)),
{
    reveal(is_passage);
}

/// A passage belongs to a node other than the root.
pub proof fn lemma_passage_index(t: Carving, c: (usize, usize)) -> (i: int)
    requires
        is_passage(t, c),
    ensures
        1 <= i < t.order.len(),
        passage(t, i) == c,
{
    reveal(is_passage);
    choose|i: int| 1 <= i < t.order.len() && passage(t, i) == c
}

/// The candidates of a cell are the walls two steps away from it.
pub proof fn lemma_unvisited_neighbors(
    g: Seq<Seq<u32>>,
    width: usize,
    height: usize,
    wall: u32,
    c: (usize, usize),
    n: (usize, usize),
)
    requires
        rectangular(g, width as int, height as int),
    ensures
        unvisited_neighbors(g, wall, c).contains(n) <==> two_apart(c, n) && is_wall(
            g,
            wall,
            n.0 as int,
            n.1 as int,
        ),
        unvisited_neighbors(g, wall, c).len() == 0 <==> exhausted(g, wall, c),
{
    let s = unvisited_neighbors(g, wall, c);
    let west = wall_at(g, wall, c.0 - 2, c.1 as int);
    let east = wall_at(g, wall, c.0 + 2, c.1 as int);
    let north = wall_at(g, wall, c.0 as int, c.1 - 2);
    let south = wall_at(g, wall, c.0 as int, c.1 + 2);
    assert(s == west + east + north + south);
    if two_apart(c, n) && is_wall(g, wall, n.0 as int, n.1 as int) {
        let k: int = if n.0 + 2 == c.0 {
            0
        } else if n.0 == c.0 + 2 {
            west.len() as int
        } else if n.1 + 2 == c.1 {
            (west.len() + east.len()) as int
        } else {
            (west.len() + east.len() + north.len()) as int
        };
        assert(s[k] == n);
    }
    if s.contains(n) {
        let k = choose|k: int| 0 <= k < s.len() && s[k] == n;
        if k < west.len() {
            assert(s[k] == west[k]);
        } else if k < west.len() + east.len() {
            assert(s[k] == east[k - west.len()]);
        } else if k < west.len() + east.len() + north.len() {
            assert(s[k] == north[k - west.len() - east.len()]);
        } else {
            assert(s[k] == south[k - west.len() - east.len() - north.len()]);
        }
    }
}

/// Every node lies on the lattice of the root.
pub proof fn lemma_nodes_on_lattice(t: Carving, i: int)
    requires
        tree_shaped(t),
        0 <= i < t.order.len(),
    ensures
        on_lattice(t.order[0], t.order[i].0 as int, t.order[i].1 as int),
    decreases i,
{
    if i > 0 {
        lemma_nodes_on_lattice(t, t.parent[i]);
    }
}

/// No passage lies on the lattice of the root.
pub proof fn lemma_passage_off_lattice(t: Carving, i: int)
    requires
        tree_shaped(t),
        1 <= i < t.order.len(),
    ensures
        !on_lattice(t.order[0], passage(t, i).0 as int, passage(t, i).1 as int),
{
    lemma_nodes_on_lattice(t, i);
    lemma_nodes_on_lattice(t, t.parent[i]);
}

/// A grid of walls with one open cell shows the carving that has only
/// that cell.
pub proof fn lemma_carving_begins(
    width: usize,
    height: usize,
    config: MazeConfig,
    root: (usize, usize),
)
    requires
        root.0 < width,
        root.1 < height,
    ensures
        carved(
            painted(
                uniform(width as int, height as int, config.wall_color),
                root.0 as int,
                root.1 as int,
                config.path_color,
            ),
            config,
            Carving { order: seq![root], parent: seq![0int] },
        ),
{
    let t = Carving { order: seq![root], parent: seq![0int] };
    let g = painted(
        uniform(width as int, height as int, config.wall_color),
        root.0 as int,
        root.1 as int,
        config.path_color,
    );
    assert(t.order[0] == root);
    assert forall|x: int, y: int| #[trigger] in_grid(g, x, y) implies g[y][x] == if is_node(
        t,
        (x as usize, y as usize),
    ) || is_passage(t, (x as usize, y as usize)) {
        config.path_color
    } else {
        config.wall_color
    } by {
        let c = (x as usize, y as usize);
        if x == root.0 && y == root.1 {
            lemma_is_node(t, 0);
        } else {
            if is_node(t, c) {
                let i = lemma_node_index(t, c);
            }
            if is_passage(t, c) {
                let i = lemma_passage_index(t, c);
            }
        }
    }
}

/// Opening a wall two steps from a node, and the cell between the two,
/// shows the carving grown by that wall.
pub proof fn lemma_carving_grows(
    g: Seq<Seq<u32>>,
    width: usize,
    height: usize,
    config: MazeConfig,
    t: Carving,
    from: int,
    next: (usize, usize),
)
    requires
        rectangular(g, width as int, height as int),
        config.wall_color != config.path_color,
        carved(g, config, t),
        0 <= from < t.order.len(),
        two_apart(t.order[from], next),
        is_wall(g, config.wall_color, next.0 as int, next.1 as int),
    ensures
        in_grid(g, midpoint(t.order[from], next).0 as int, midpoint(t.order[from], next).1 as int),
        carved(
            painted(
                painted(g, next.0 as int, next.1 as int, config.path_color),
                midpoint(t.order[from], next).0 as int,
                midpoint(t.order[from], next).1 as int,
                config.path_color,
            ),
            config,
            grown(t, next, from),
        ),
{
    let m = midpoint(t.order[from], next);
    let g1 = painted(g, next.0 as int, next.1 as int, config.path_color);
    let g2 = painted(g1, m.0 as int, m.1 as int, config.path_color);
    let t2 = grown(t, next, from);
    let n = t.order.len() as int;
    assert(in_grid(g, t.order[from].0 as int, t.order[from].1 as int));
    assert(in_grid(g, m.0 as int, m.1 as int));
    assert(t2.order[n] == next);
    assert(passage(t2, n) == m);
    assert forall|i: int| 0 <= i < n implies t.order[i] != next by {
        assert(in_grid(g, t.order[i].0 as int, t.order[i].1 as int));
        lemma_is_node(t, i);
    }
    assert(tree_shaped(t2));
    assert forall|i: int| 1 <= i < n implies passage(t2, i) == passage(t, i) by {
        assert(t2.parent[i] == t.parent[i]);
    }
    assert forall|x: int, y: int| #[trigger] in_grid(g2, x, y) implies g2[y][x] == if is_node(
        t2,
        (x as usize, y as usize),
    ) || is_passage(t2, (x as usize, y as usize)) {
        config.path_color
    } else {
        config.wall_color
    } by {
        let c = (x as usize, y as usize);
        assert(in_grid(g, x, y));
        if c == m {
            lemma_is_passage(t2, n);
        } else if c == next {
            lemma_is_node(t2, n);
        } else {
            assert(g2[y][x] == g[y][x]);
            if is_node(t, c) {
                let i = lemma_node_index(t, c);
                assert(t2.order[i] == c);
                lemma_is_node(t2, i);
            }
            if is_passage(t, c) {
                let i = lemma_passage_index(t, c);
                assert(passage(t2, i) == c);
                lemma_is_passage(t2, i);
            }
            if is_node(t2, c) {
                let i = lemma_node_index(t2, c);
                assert(t.order[i] == c);
                lemma_is_node(t, i);
            }
            if is_passage(t2, c) {
                let i = lemma_passage_index(t2, c);
                assert(passage(t, i) == c);
                lemma_is_passage(t, i);
            }
        }
    }
    assert forall|i: int| 0 <= i < t2.order.len() implies in_grid(
        g2,
        (#[trigger] t2.order[i]).0 as int,
        t2.order[i].1 as int,
    ) by {
        if i < n {
            assert(in_grid(g, t.order[i].0 as int, t.order[i].1 as int));
        }
    }
}

/// A cell on the lattice that lies two steps from a node without walls
/// around it is a node too.
proof fn lemma_neighbor_is_node(
    g: Seq<Seq<u32>>,
    config: MazeConfig,
    t: Carving,
    i: int,
    x: int,
    y: int,
)
    requires
        config.wall_color != config.path_color,
        carved(g, config, t),
        0 <= i < t.order.len(),
        exhausted(g, config.wall_color, t.order[i]),
        in_grid(g, x, y),
        on_lattice(t.order[0], x, y),
        two_apart(t.order[i], (x as usize, y as usize)),
        x == (x as usize),
        y == (y as usize),
    ensures
        is_node(t, (x as usize, y as usize)),
{
    let c = (x as usize, y as usize);
    assert(!is_wall(g, config.wall_color, x, y));
    assert(g[y][x] != config.wall_color);
    if is_passage(t, c) {
        let j = lemma_passage_index(t, c);
        lemma_passage_off_lattice(t, j);
    }
}

/// The cell `a` double steps east and `b` double steps south of the root is
/// a node, if it lies in the grid and no node has a wall two steps away.
proof fn lemma_spans_at(
    g: Seq<Seq<u32>>,
    width: usize,
    height: usize,
    config: MazeConfig,
    t: Carving,
    a: int,
    b: int,
)
    requires
        rectangular(g, width as int, height as int),
        config.wall_color != config.path_color,
        carved(g, config, t),
        pending_on(g, config.wall_color, t, Seq::empty()),
        in_grid(g, t.order[0].0 + 2 * a, t.order[0].1 + 2 * b),
    ensures
        is_node(t, ((t.order[0].0 + 2 * a) as usize, (t.order[0].1 + 2 * b) as usize)),
    decreases vstd::math::abs(a) + vstd::math::abs(b),
{
    let root = t.order[0];
    let x = root.0 + 2 * a;
    let y = root.1 + 2 * b;
    assert(in_grid(g, root.0 as int, root.1 as int));
    if a == 0 && b == 0 {
        lemma_is_node(t, 0);
    } else {
        let pa = if a > 0 {
            a - 1
        } else if a < 0 {
            a + 1
        } else {
            a
        };
        let pb = if a != 0 {
            b
        } else if b > 0 {
            b - 1
        } else {
            b + 1
        };
        let px = root.0 + 2 * pa;
        let py = root.1 + 2 * pb;
        assert(in_grid(g, px, py));
        lemma_spans_at(g, width, height, config, t, pa, pb);
        let i = lemma_node_index(t, (px as usize, py as usize));
        assert(exhausted(g, config.wall_color, t.order[i])) by {
            reveal(pending_on);
        }
        assert(on_lattice(root, x, y)) by {
            assert((2 * a) % 2 == 0);
            assert((2 * b) % 2 == 0);
        }
        lemma_neighbor_is_node(g, config, t, i, x, y);
    }
}

/// Once no node has a wall two steps away, the tree holds every cell of
/// the grid on the lattice of the root.
pub proof fn lemma_carving_spans(
    g: Seq<Seq<u32>>,
    width: usize,
    height: usize,
    config: MazeConfig,
    t: Carving,
)
    requires
        rectangular(g, width as int, height as int),
        config.wall_color != config.path_color,
        carved(g, config, t),
        pending_on(g, config.wall_color, t, Seq::empty()),
    ensures
        perfect(g, config, t),
{
    assert forall|x: int, y: int| #[trigger]
        in_grid(g, x, y) && on_lattice(t.order[0], x, y) implies is_node(
        t,
        (x as usize, y as usize),
    ) by {
        let a = (x - t.order[0].0) / 2;
        let b = (y - t.order[0].1) / 2;
        assert(t.order[0].0 + 2 * a == x);
        assert(t.order[0].1 + 2 * b == y);
        lemma_spans_at(g, width, height, config, t, a, b);
    }
}

/// Growing a carving keeps its nodes and adds the new cell.
pub proof fn lemma_nodes_stay(t: Carving, next: (usize, usize), from: int, c: (usize, usize))
    requires
        is_node(t, c) || c == next,
    ensures
        is_node(grown(t, next, from), c),
{
    let t2 = grown(t, next, from);
    if c == next {
        lemma_is_node(t2, t.order.len() as int);
    } else {
        let i = lemma_node_index(t, c);
        assert(t2.order[i] == c);
        lemma_is_node(t2, i);
    }
}

/// At the start the root alone is on the stack.
pub proof fn lemma_pending_begins(g: Seq<Seq<u32>>, wall: u32, root: (usize, usize))
    ensures
        pending_on(g, wall, Carving { order: seq![root], parent: seq![0int] }, seq![root]),
{
    reveal(pending_on);
    assert(seq![root][0] == root);
}

/// A node without walls around it may leave the stack.
pub proof fn lemma_pending_backtracks(
    g: Seq<Seq<u32>>,
    wall: u32,
    t: Carving,
    stack: Seq<(usize, usize)>,
)
    requires
        pending_on(g, wall, t, stack),
        stack.len() > 0,
        exhausted(g, wall, stack.last()),
    ensures
        pending_on(g, wall, t, stack.drop_last()),
{
    reveal(pending_on);
    assert forall|i: int| 0 <= i < t.order.len() implies exhausted(g, wall, #[trigger] t.order[i])
        || stack.drop_last().contains(t.order[i]) by {
        if !exhausted(g, wall, t.order[i]) {
            let k = choose|k: int| 0 <= k < stack.len() && stack[k] == t.order[i];
            assert(stack.drop_last()[k] == t.order[i]);
        }
    }
}

/// The stack after carving from its top cell towards `next`: the top
/// cell stays only if it had more than one wall to choose from.
pub open spec fn advanced(stack: Seq<(usize, usize)>, stays: bool, next: (usize, usize)) -> Seq<
    (usize, usize),
> {
    if stays {
        stack.push(next)
    } else {
        stack.drop_last().push(next)
    }
}

/// Carving from the top of the stack keeps every node with a wall around
/// it on the stack.
pub proof fn lemma_pending_advances(
    g: Seq<Seq<u32>>,
    width: usize,
    height: usize,
    config: MazeConfig,
    t: Carving,
    from: int,
    stack: Seq<(usize, usize)>,
    next: (usize, usize),
)
    requires
        rectangular(g, width as int, height as int),
        config.wall_color != config.path_color,
        pending_on(g, config.wall_color, t, stack),
        stack.len() > 0,
        0 <= from < t.order.len(),
        t.order[from] == stack.last(),
        unvisited_neighbors(g, config.wall_color, stack.last()).contains(next),
        in_grid(g, midpoint(stack.last(), next).0 as int, midpoint(stack.last(), next).1 as int),
    ensures
        pending_on(
            painted(
                painted(g, next.0 as int, next.1 as int, config.path_color),
                midpoint(stack.last(), next).0 as int,
                midpoint(stack.last(), next).1 as int,
                config.path_color,
            ),
            config.wall_color,
            grown(t, next, from),
            advanced(
                stack,
                unvisited_neighbors(g, config.wall_color, stack.last()).len() > 1,
                next,
            ),
        ),
{
    reveal(pending_on);
    let wall = config.wall_color;
    let top = stack.last();
    let m = midpoint(top, next);
    let g1 = painted(g, next.0 as int, next.1 as int, config.path_color);
    let g2 = painted(g1, m.0 as int, m.1 as int, config.path_color);
    let t2 = grown(t, next, from);
    let found = unvisited_neighbors(g, wall, top);
    let stays = found.len() > 1;
    let stack2 = advanced(stack, stays, next);
    let n = t.order.len() as int;
    lemma_unvisited_neighbors(g, width, height, wall, top, next);
    assert(rectangular(g2, width as int, height as int));
    assert forall|x: int, y: int| is_wall(g2, wall, x, y) implies is_wall(g, wall, x, y) by {
        assert(in_grid(g, x, y));
    }
    assert(stack2.last() == next);
    assert forall|i: int| 0 <= i < t2.order.len() implies exhausted(g2, wall, #[trigger] t2.order[i])
        || stack2.contains(t2.order[i]) by {
        let c = t2.order[i];
        if i == n {
            assert(stack2[stack2.len() - 1] == c);
        } else if !exhausted(g2, wall, c) {
            assert(c == t.order[i]);
            assert(!exhausted(g, wall, t.order[i]));
            let k = choose|k: int| 0 <= k < stack.len() && stack[k] == c;
            if k < stack.len() - 1 {
                assert(stack2[k] == c);
            } else if stays {
                assert(stack2[k] == c);
            } else {
                assert(c == top);
                assert(found.len() == 1);
                assert(found[0] == next);
                let west = wall_at(g, wall, c.0 - 2, c.1 as int);
                let east = wall_at(g, wall, c.0 + 2, c.1 as int);
                let north = wall_at(g, wall, c.0 as int, c.1 - 2);
                let south = wall_at(g, wall, c.0 as int, c.1 + 2);
                assert(found == west + east + north + south);
                assert(!is_wall(g2, wall, next.0 as int, next.1 as int));
                assert(false);
            }
        }
    }
}

/// Whether the carving `t` accounts for the carver `s` on a grid of the
/// given size: the grid shows the carving, the stack holds nodes only,
/// and among them every node that still has a wall two steps away.
pub open spec fn accounts_for(
    width: usize,
    height: usize,
    config: MazeConfig,
    s: Carver,
    t: Carving,
) -> bool {
    &&& rectangular(s.grid, width as int, height as int)
    &&& carved(s.grid, config, t)
    &&& pending_on(s.grid, config.wall_color, t, s.stack)
    &&& forall|k: int| 0 <= k < s.stack.len() ==> is_node(t, #[trigger] s.stack[k])
}

/// The carving of the start cell alone accounts for the carver before its
/// first move.
pub proof fn lemma_carver_begins(
    width: usize,
    height: usize,
    config: MazeConfig,
    root: (usize, usize),
)
    requires
        root.0 < width,
        root.1 < height,
    ensures
        accounts_for(
            width,
            height,
            config,
            begun(width as int, height as int, config, root),
            Carving { order: seq![root], parent: seq![0int] },
        ),
{
    let s = begun(width as int, height as int, config, root);
    let t = Carving { order: seq![root], parent: seq![0int] };
    lemma_carving_begins(width, height, config, root);
    lemma_pending_begins(s.grid, config.wall_color, root);
    lemma_is_node(t, 0);
}

/// A move of the carver on a choosable choice keeps its state accounted
/// for, by the same carving or by the carving grown by the chosen cell.
/// The move either opens a wall or shortens the stack.
pub proof fn lemma_carver_moves(
    width: usize,
    height: usize,
    config: MazeConfig,
    s: Carver,
    t: Carving,
    chosen: Option<(usize, usize)>,
) -> (t_after: Carving)
    requires
        config.wall_color != config.path_color,
        accounts_for(width, height, config, s, t),
        choosable(config, s, chosen),
    ensures
        accounts_for(width, height, config, moved(config, s, chosen), t_after),
        t_after.order[0] == t.order[0],
        chosen matches Some(next) ==> {
            &&& in_grid(s.grid, next.0 as int, next.1 as int)
            &&& in_grid(
                s.grid,
                midpoint(s.stack.last(), next).0 as int,
                midpoint(s.stack.last(), next).1 as int,
            )
            &&& grid_count(moved(config, s, chosen).grid, config.wall_color) < grid_count(
                s.grid,
                config.wall_color,
            )
        },
        chosen is None ==> moved(config, s, chosen) == (Carver {
            grid: s.grid,
            stack: s.stack.drop_last(),
        }),
{
    let cell = s.stack.last();
    let wall = config.wall_color;
    assert(is_node(t, s.stack[s.stack.len() - 1]));
    let from = lemma_node_index(t, cell);
    match chosen {
        Some(next) => {
            let after = moved(config, s, chosen);
            let m = midpoint(cell, next);
            lemma_unvisited_neighbors(s.grid, width, height, wall, cell, next);
            lemma_carving_grows(s.grid, width, height, config, t, from, next);
            lemma_pending_advances(s.grid, width, height, config, t, from, s.stack, next);
            lemma_grid_count_painted(s.grid, next.0 as int, next.1 as int, config.path_color, wall);
            lemma_grid_count_painted(
                painted(s.grid, next.0 as int, next.1 as int, config.path_color),
                m.0 as int,
                m.1 as int,
                config.path_color,
                wall,
            );
            let t_after = grown(t, next, from);
            assert forall|k: int| 0 <= k < after.stack.len() implies is_node(
                t_after,
                #[trigger] after.stack[k],
            ) by {
                if k < after.stack.len() - 1 {
                    assert(after.stack[k] == s.stack[k]);
                }
                lemma_nodes_stay(t, next, from, after.stack[k]);
            }
            assert(t_after.order[0] == t.order[0]);
            t_after
        },
        None => {
            lemma_unvisited_neighbors(s.grid, width, height, wall, cell, cell);
            lemma_pending_backtracks(s.grid, wall, t, s.stack);
            assert forall|k: int| 0 <= k < s.stack.drop_last().len() implies is_node(
                t,
                #[trigger] s.stack.drop_last()[k],
            ) by {
                assert(s.stack.drop_last()[k] == s.stack[k]);
            }
            t
        },
    }
}

/// Some carving accounts for the carver after any run of choosable
/// choices.
pub proof fn lemma_carver_runs(
    width: usize,
    height: usize,
    config: MazeConfig,
    root: (usize, usize),
    choices: Seq<Option<(usize, usize)>>,
) -> (t: Carving)
    requires
        config.wall_color != config.path_color,
        root.0 < width,
        root.1 < height,
        all_choosable(config, begun(width as int, height as int, config, root), choices),
    ensures
        accounts_for(
            width,
            height,
            config,
            carver_after(config, begun(width as int, height as int, config, root), choices),
            t,
        ),
    decreases choices.len(),
{
    let start = begun(width as int, height as int, config, root);
    if choices.len() == 0 {
        lemma_carver_begins(width, height, config, root);
        Carving { order: seq![root], parent: seq![0int] }
    } else {
        let t = lemma_carver_runs(width, height, config, root, choices.drop_last());
        lemma_carver_moves(
            width,
            height,
            config,
            carver_after(config, start, choices.drop_last()),
            t,
            choices.last(),
        )
    }
}

/// What the depth-first carver leaves is a perfect maze, whatever it
/// chose on its way.
pub proof fn lemma_carver_leaves_a_perfect_maze(
    width: usize,
    height: usize,
    config: MazeConfig,
    g: Seq<Seq<u32>>,
)
    requires
        config.wall_color != config.path_color,
        carver_leaves(width as int, height as int, config, g),
    ensures
        is_perfect_maze(g, config),
{
    let (root, choices) = choose|root: (usize, usize), choices: Seq<Option<(usize, usize)>>|
        {
            &&& root.0 < width
            &&& root.1 < height
            &&& all_choosable(config, begun(width as int, height as int, config, root), choices)
            &&& #[trigger] carver_after(
                config,
                begun(width as int, height as int, config, root),
                choices,
            ) == (Carver { grid: g, stack: Seq::empty() })
        };
    let t = lemma_carver_runs(width, height, config, root, choices);
    lemma_carving_spans(g, width, height, config, t);
    assert(perfect(g, config, t));
}

} // verus!
