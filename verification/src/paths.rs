//! Walks through the open cells of a carved maze.
//!
//! A grid that shows a carving is a tree of open cells: any two of them
//! are joined by a walk, and no walk closes to a cycle.

use crate::buffer::{in_grid, rectangular};
use crate::carving::{
    carved, is_perfect_maze, perfect, is_node, is_passage, lemma_is_node, lemma_is_passage, lemma_node_index,
    lemma_nodes_on_lattice, lemma_passage_index, on_lattice, passage, tree_shaped, two_apart,
    Carving,
};
use crate::maze::{midpoint, MazeConfig};
use vstd::prelude::*;

verus! {

/// Whether `c` is a cell of the grid with the path color.
pub open spec fn is_path(g: Seq<Seq<u32>>, path: u32, c: (usize, usize)) -> bool {
    in_grid(g, c.0 as int, c.1 as int) && g[c.1 as int][c.0 as int] == path
}

/// Whether `a` and `b` are neighbors in a row or a column.
pub open spec fn adjacent(a: (usize, usize), b: (usize, usize)) -> bool {
    ||| a.1 == b.1 && (a.0 - b.0 == 1 || b.0 - a.0 == 1)
    ||| a.0 == b.0 && (a.1 - b.1 == 1 || b.1 - a.1 == 1)
}

/// Whether `w` is a walk: a list of path cells, each next to the one
/// before it.
pub open spec fn walk(g: Seq<Seq<u32>>, path: u32, w: Seq<(usize, usize)>) -> bool {
    &&& w.len() >= 1
    &&& forall|k: int| 0 <= k < w.len() ==> is_path(g, path, #[trigger] w[k])
    &&& forall|k: int| 0 <= k < w.len() - 1 ==> adjacent(#[trigger] w[k], w[k + 1])
}

/// Whether a walk leads from `a` to `b`.
pub open spec fn joined(g: Seq<Seq<u32>>, path: u32, a: (usize, usize), b: (usize, usize)) -> bool {
    exists|w: Seq<(usize, usize)>| walk(g, path, w) && w[0] == a && #[trigger] w.last() == b
}

/// Whether `w` is a cycle: a walk of three or more cells, none of them
/// met twice, whose last cell is next to its first.
pub open spec fn cycle(g: Seq<Seq<u32>>, path: u32, w: Seq<(usize, usize)>) -> bool {
    &&& walk(g, path, w)
    &&& w.len() >= 3
    &&& forall|i: int, j: int| 0 <= i < j < w.len() ==> w[i] != w[j]
    &&& adjacent(w.last(), w[0])
}

/// Whether `w` is a simple path from `a` to `b`: a walk between the two
/// that meets no cell twice.
pub open spec fn simple_path(
    g: Seq<Seq<u32>>,
    path: u32,
    w: Seq<(usize, usize)>,
    a: (usize, usize),
    b: (usize, usize),
) -> bool {
    &&& walk(g, path, w)
    &&& forall|i: int, j: int| 0 <= i < j < w.len() ==> w[i] != w[j]
    &&& w[0] == a
    &&& w.last() == b
}

/// The walk in the other direction.
pub open spec fn reversed(w: Seq<(usize, usize)>) -> Seq<(usize, usize)> {
    Seq::new(w.len(), |k: int| w[w.len() - 1 - k])
}

/// A walk read backwards is a walk.
proof fn lemma_walk_reversed(g: Seq<Seq<u32>>, path: u32, w: Seq<(usize, usize)>)
    requires
        walk(g, path, w),
    ensures
        walk(g, path, reversed(w)),
        reversed(w)[0] == w.last(),
        reversed(w).last() == w[0],
{
    let r = reversed(w);
    assert forall|k: int| 0 <= k < r.len() implies is_path(g, path, #[trigger] r[k]) by {
        assert(r[k] == w[w.len() - 1 - k]);
    }
    assert forall|k: int| 0 <= k < r.len() - 1 implies adjacent(#[trigger] r[k], r[k + 1]) by {
        let j = w.len() - 2 - k;
        assert(adjacent(w[j], w[j + 1]));
    }
}

/// Two walks, the second starting where the first ends, join to one.
proof fn lemma_walk_joined(
    g: Seq<Seq<u32>>,
    path: u32,
    first: Seq<(usize, usize)>,
    second: Seq<(usize, usize)>,
)
    requires
        walk(g, path, first),
        walk(g, path, second),
        first.last() == second[0],
    ensures
        walk(g, path, first.drop_last() + second),
        (first.drop_last() + second)[0] == first[0],
        (first.drop_last() + second).last() == second.last(),
{
    let head = first.drop_last();
    let w = head + second;
    assert forall|k: int| 0 <= k < w.len() implies is_path(g, path, #[trigger] w[k]) by {
        if k < head.len() {
            assert(w[k] == first[k]);
        } else {
            assert(w[k] == second[k - head.len()]);
        }
    }
    assert forall|k: int| 0 <= k < w.len() - 1 implies adjacent(#[trigger] w[k], w[k + 1]) by {
        if k + 1 < head.len() {
            assert(adjacent(first[k], first[k + 1]));
        } else if k + 1 == head.len() {
            assert(adjacent(first[k], first[k + 1]));
            assert(w[k + 1] == second[0]);
        } else {
            assert(adjacent(second[k - head.len()], second[k - head.len() + 1]));
        }
    }
}

/// From every node a walk leads to the root.
pub proof fn lemma_node_walks_to_root(
    g: Seq<Seq<u32>>,
    width: usize,
    height: usize,
    config: MazeConfig,
    t: Carving,
    i: int,
) -> (w: Seq<(usize, usize)>)
    requires
        rectangular(g, width as int, height as int),
        carved(g, config, t),
        0 <= i < t.order.len(),
    ensures
        walk(g, config.path_color, w),
        w[0] == t.order[i],
        w.last() == t.order[0],
    decreases i,
{
    let c = t.order[i];
    assert(in_grid(g, c.0 as int, c.1 as int));
    lemma_is_node(t, i);
    if i == 0 {
        seq![c]
    } else {
        let p = t.order[t.parent[i]];
        let m = passage(t, i);
        lemma_is_passage(t, i);
        assert(in_grid(g, p.0 as int, p.1 as int));
        assert(in_grid(g, m.0 as int, m.1 as int));
        let rest = lemma_node_walks_to_root(g, width, height, config, t, t.parent[i]);
        let step = seq![c, m, p];
        assert(walk(g, config.path_color, step));
        lemma_walk_joined(g, config.path_color, step, rest);
        step.drop_last() + rest
    }
}

/// From every path cell a walk leads to the root.
pub proof fn lemma_walks_to_root(
    g: Seq<Seq<u32>>,
    width: usize,
    height: usize,
    config: MazeConfig,
    t: Carving,
    c: (usize, usize),
) -> (w: Seq<(usize, usize)>)
    requires
        rectangular(g, width as int, height as int),
        carved(g, config, t),
        config.wall_color != config.path_color,
        is_path(g, config.path_color, c),
    ensures
        walk(g, config.path_color, w),
        w[0] == c,
        w.last() == t.order[0],
{
    assert(in_grid(g, c.0 as int, c.1 as int));
    assert((c.0 as int as usize, c.1 as int as usize) == c);
    if is_node(t, c) {
        let i = lemma_node_index(t, c);
        lemma_node_walks_to_root(g, width, height, config, t, i)
    } else {
        let i = lemma_passage_index(t, c);
        let rest = lemma_node_walks_to_root(g, width, height, config, t, i);
        let step = seq![c, t.order[i]];
        assert(in_grid(g, t.order[i].0 as int, t.order[i].1 as int));
        lemma_is_node(t, i);
        assert(walk(g, config.path_color, step));
        lemma_walk_joined(g, config.path_color, step, rest);
        step.drop_last() + rest
    }
}

/// The path cells of a carved grid are connected: a walk through path
/// cells leads from any one of them to any other.
pub proof fn lemma_carved_is_connected(
    g: Seq<Seq<u32>>,
    width: usize,
    height: usize,
    config: MazeConfig,
    t: Carving,
    a: (usize, usize),
    b: (usize, usize),
)
    requires
        rectangular(g, width as int, height as int),
        carved(g, config, t),
        config.wall_color != config.path_color,
        is_path(g, config.path_color, a),
        is_path(g, config.path_color, b),
    ensures
        joined(g, config.path_color, a, b),
{
    let up = lemma_walks_to_root(g, width, height, config, t, a);
    let back = lemma_walks_to_root(g, width, height, config, t, b);
    lemma_walk_reversed(g, config.path_color, back);
    lemma_walk_joined(g, config.path_color, up, reversed(back));
    let w = up.drop_last() + reversed(back);
    assert(walk(g, config.path_color, w) && w[0] == a && w.last() == b);
}

/// The index of a node in the order of discovery.
spec fn node_index(t: Carving, c: (usize, usize)) -> int {
    choose|i: int| 0 <= i < t.order.len() && t.order[i] == c
}

/// The index of the node that a passage was opened for.
spec fn passage_index(t: Carving, c: (usize, usize)) -> int {
    choose|i: int| 1 <= i < t.order.len() && passage(t, i) == c
}

/// The place of an open cell in the order of carving: every node comes
/// right after its passage, and both after the node they were reached
/// from.
spec fn rank(t: Carving, c: (usize, usize)) -> int {
    if is_node(t, c) {
        2 * node_index(t, c)
    } else {
        2 * passage_index(t, c) - 1
    }
}

/// The open cell through which `c` was reached.
spec fn way_up(t: Carving, c: (usize, usize)) -> (usize, usize) {
    if is_node(t, c) {
        passage(t, node_index(t, c))
    } else {
        t.order[t.parent[passage_index(t, c)]]
    }
}

/// Whether exactly one coordinate of `c` lies an odd number of steps
/// from the root.
spec fn half_off(root: (usize, usize), c: (usize, usize)) -> bool {
    ((c.0 - root.0) % 2 == 0) != ((c.1 - root.1) % 2 == 0)
}

/// The cell between two lattice cells two steps apart is next to both,
/// lies off the lattice in one direction only, and has no other lattice
/// cell next to it.
proof fn lemma_between(root: (usize, usize), p: (usize, usize), c: (usize, usize))
    requires
        on_lattice(root, p.0 as int, p.1 as int),
        on_lattice(root, c.0 as int, c.1 as int),
        two_apart(p, c),
    ensures
        half_off(root, midpoint(p, c)),
        adjacent(midpoint(p, c), p),
        adjacent(midpoint(p, c), c),
        forall|d: (usize, usize)|
            on_lattice(root, d.0 as int, d.1 as int) && #[trigger] adjacent(d, midpoint(p, c)) ==> d
                == p || d == c,
{
}

/// Two pairs of lattice cells with the same cell between them are the
/// same pair.
proof fn lemma_same_passage(
    root: (usize, usize),
    p: (usize, usize),
    c: (usize, usize),
    q: (usize, usize),
    d: (usize, usize),
)
    requires
        on_lattice(root, p.0 as int, p.1 as int),
        on_lattice(root, c.0 as int, c.1 as int),
        on_lattice(root, q.0 as int, q.1 as int),
        on_lattice(root, d.0 as int, d.1 as int),
        two_apart(p, c),
        two_apart(q, d),
        midpoint(p, c) == midpoint(q, d),
    ensures
        (q == p && d == c) || (q == c && d == p),
{
}

/// Of two cells next to each other at most one lies on the lattice, and
/// at most one lies off it in one direction only.
proof fn lemma_neighbors_differ(root: (usize, usize), a: (usize, usize), b: (usize, usize))
    requires
        adjacent(a, b),
    ensures
        !(on_lattice(root, a.0 as int, a.1 as int) && on_lattice(root, b.0 as int, b.1 as int)),
        !(half_off(root, a) && half_off(root, b)),
{
}

/// The `i`-th node has rank `2 i`.
proof fn lemma_rank_of_node(t: Carving, i: int)
    requires
        tree_shaped(t),
        0 <= i < t.order.len(),
    ensures
        is_node(t, t.order[i]),
        node_index(t, t.order[i]) == i,
        rank(t, t.order[i]) == 2 * i,
{
    reveal(is_node);
    let k = node_index(t, t.order[i]);
    assert(0 <= k < t.order.len() && t.order[k] == t.order[i]);
    if k < i {
        assert(t.order[k] != t.order[i]);
    } else if i < k {
        assert(t.order[i] != t.order[k]);
    }
}

/// The passage of the `j`-th node is no node and has rank `2 j - 1`.
proof fn lemma_rank_of_passage(t: Carving, j: int)
    requires
        tree_shaped(t),
        1 <= j < t.order.len(),
    ensures
        !is_node(t, passage(t, j)),
        is_passage(t, passage(t, j)),
        passage_index(t, passage(t, j)) == j,
        rank(t, passage(t, j)) == 2 * j - 1,
{
    let m = passage(t, j);
    let root = t.order[0];
    lemma_nodes_on_lattice(t, j);
    lemma_nodes_on_lattice(t, t.parent[j]);
    lemma_between(root, t.order[t.parent[j]], t.order[j]);
    if is_node(t, m) {
        let i = lemma_node_index(t, m);
        lemma_nodes_on_lattice(t, i);
    }
    lemma_is_passage(t, j);
    reveal(is_passage);
    let k = passage_index(t, m);
    assert(1 <= k < t.order.len() && passage(t, k) == m);
    lemma_nodes_on_lattice(t, k);
    lemma_nodes_on_lattice(t, t.parent[k]);
    lemma_same_passage(root, t.order[t.parent[j]], t.order[j], t.order[t.parent[k]], t.order[k]);
    lemma_rank_of_node(t, j);
    lemma_rank_of_node(t, k);
    lemma_rank_of_node(t, t.parent[j]);
    lemma_rank_of_node(t, t.parent[k]);
}

/// Of the open cells next to an open cell, only the one it was reached
/// through comes before it in the order of carving.
proof fn lemma_one_way_up(
    g: Seq<Seq<u32>>,
    config: MazeConfig,
    t: Carving,
    c: (usize, usize),
    d: (usize, usize),
)
    requires
        carved(g, config, t),
        config.wall_color != config.path_color,
        is_path(g, config.path_color, c),
        is_path(g, config.path_color, d),
        adjacent(c, d),
        rank(t, d) < rank(t, c),
    ensures
        d == way_up(t, c),
{
    let root = t.order[0];
    assert(in_grid(g, c.0 as int, c.1 as int));
    assert(in_grid(g, d.0 as int, d.1 as int));
    assert((c.0 as int as usize, c.1 as int as usize) == c);
    assert((d.0 as int as usize, d.1 as int as usize) == d);
    lemma_neighbors_differ(root, c, d);
    if is_node(t, c) {
        let i = lemma_node_index(t, c);
        lemma_rank_of_node(t, i);
        lemma_nodes_on_lattice(t, i);
        if is_node(t, d) {
            let k = lemma_node_index(t, d);
            lemma_nodes_on_lattice(t, k);
        } else {
            let j = lemma_passage_index(t, d);
            lemma_rank_of_passage(t, j);
            lemma_nodes_on_lattice(t, j);
            lemma_nodes_on_lattice(t, t.parent[j]);
            lemma_between(root, t.order[t.parent[j]], t.order[j]);
            assert(adjacent(c, midpoint(t.order[t.parent[j]], t.order[j])));
            if c == t.order[j] {
                lemma_rank_of_node(t, j);
            } else {
                lemma_rank_of_node(t, t.parent[j]);
            }
        }
    } else {
        let j = lemma_passage_index(t, c);
        lemma_rank_of_passage(t, j);
        lemma_nodes_on_lattice(t, j);
        lemma_nodes_on_lattice(t, t.parent[j]);
        lemma_between(root, t.order[t.parent[j]], t.order[j]);
        if is_node(t, d) {
            let k = lemma_node_index(t, d);
            lemma_rank_of_node(t, k);
            lemma_nodes_on_lattice(t, k);
            assert(adjacent(d, midpoint(t.order[t.parent[j]], t.order[j])));
            lemma_rank_of_node(t, j);
            lemma_rank_of_node(t, t.parent[j]);
        } else {
            let k = lemma_passage_index(t, d);
            lemma_nodes_on_lattice(t, k);
            lemma_nodes_on_lattice(t, t.parent[k]);
            lemma_between(root, t.order[t.parent[k]], t.order[k]);
        }
    }
}

/// Two open cells with the same place in the order of carving are one.
proof fn lemma_rank_tells_apart(
    g: Seq<Seq<u32>>,
    config: MazeConfig,
    t: Carving,
    a: (usize, usize),
    b: (usize, usize),
)
    requires
        carved(g, config, t),
        config.wall_color != config.path_color,
        is_path(g, config.path_color, a),
        is_path(g, config.path_color, b),
        rank(t, a) == rank(t, b),
    ensures
        a == b,
{
    assert(in_grid(g, a.0 as int, a.1 as int));
    assert(in_grid(g, b.0 as int, b.1 as int));
    assert((a.0 as int as usize, a.1 as int as usize) == a);
    assert((b.0 as int as usize, b.1 as int as usize) == b);
    if is_node(t, a) {
        let i = lemma_node_index(t, a);
        lemma_rank_of_node(t, i);
    } else {
        let i = lemma_passage_index(t, a);
        lemma_rank_of_passage(t, i);
    }
    if is_node(t, b) {
        let i = lemma_node_index(t, b);
        lemma_rank_of_node(t, i);
    } else {
        let i = lemma_passage_index(t, b);
        lemma_rank_of_passage(t, i);
    }
}

/// The cell between two nodes that lie two steps apart is open if and
/// only if the later of the two was reached from the earlier one.
pub proof fn lemma_open_between_means_carved(
    g: Seq<Seq<u32>>,
    width: usize,
    height: usize,
    config: MazeConfig,
    t: Carving,
    i: int,
    j: int,
)
    requires
        rectangular(g, width as int, height as int),
        carved(g, config, t),
        config.wall_color != config.path_color,
        0 <= i < j < t.order.len(),
        two_apart(t.order[i], t.order[j]),
    ensures
        is_path(g, config.path_color, midpoint(t.order[i], t.order[j])) <==> t.parent[j] == i,
        !is_path(g, config.path_color, midpoint(t.order[i], t.order[j])) ==> g[midpoint(
            t.order[i],
            t.order[j],
        ).1 as int][midpoint(t.order[i], t.order[j]).0 as int] == config.wall_color,
{
    let root = t.order[0];
    let m = midpoint(t.order[i], t.order[j]);
    assert(in_grid(g, t.order[i].0 as int, t.order[i].1 as int));
    assert(in_grid(g, t.order[j].0 as int, t.order[j].1 as int));
    assert(in_grid(g, m.0 as int, m.1 as int));
    assert((m.0 as int as usize, m.1 as int as usize) == m);
    lemma_nodes_on_lattice(t, i);
    lemma_nodes_on_lattice(t, j);
    lemma_between(root, t.order[i], t.order[j]);
    if t.parent[j] == i {
        lemma_is_passage(t, j);
    }
    if is_node(t, m) {
        let k = lemma_node_index(t, m);
        lemma_nodes_on_lattice(t, k);
    }
    if is_passage(t, m) {
        let k = lemma_passage_index(t, m);
        lemma_nodes_on_lattice(t, k);
        lemma_nodes_on_lattice(t, t.parent[k]);
        lemma_same_passage(root, t.order[i], t.order[j], t.order[t.parent[k]], t.order[k]);
        lemma_rank_of_node(t, i);
        lemma_rank_of_node(t, j);
        lemma_rank_of_node(t, k);
        lemma_rank_of_node(t, t.parent[k]);
    }
}

/// The index of a cell of `w` that no other comes after in the order of
/// carving.
proof fn lemma_latest(t: Carving, w: Seq<(usize, usize)>) -> (k: int)
    requires
        w.len() >= 1,
    ensures
        0 <= k < w.len(),
        forall|j: int| 0 <= j < w.len() ==> rank(t, #[trigger] w[j]) <= rank(t, w[k]),
    decreases w.len(),
{
    if w.len() == 1 {
        0
    } else {
        let k = lemma_latest(t, w.drop_last());
        let last = w.len() - 1;
        assert forall|j: int| 0 <= j < last implies w[j] == w.drop_last()[j] by {}
        if rank(t, w[last]) > rank(t, w[k]) {
            last
        } else {
            k
        }
    }
}

/// The path cells of a carved grid hold no cycle.
pub proof fn lemma_carved_is_acyclic(
    g: Seq<Seq<u32>>,
    config: MazeConfig,
    t: Carving,
    w: Seq<(usize, usize)>,
)
    requires
        carved(g, config, t),
        config.wall_color != config.path_color,
    ensures
        !cycle(g, config.path_color, w),
{
    if cycle(g, config.path_color, w) {
        let n = w.len() as int;
        let k = lemma_latest(t, w);
        let before = if k == 0 {
            n - 1
        } else {
            k - 1
        };
        let after = if k == n - 1 {
            0
        } else {
            k + 1
        };
        let c = w[k];
        let a = w[before];
        let b = w[after];
        assert(is_path(g, config.path_color, c));
        assert(is_path(g, config.path_color, a));
        assert(is_path(g, config.path_color, b));
        assert(adjacent(a, c)) by {
            if k > 0 {
                assert(adjacent(w[k - 1], w[k - 1 + 1]));
            }
        }
        assert(adjacent(c, b)) by {
            if k < n - 1 {
                assert(adjacent(w[k], w[k + 1]));
            }
        }
        assert(a != c && b != c && a != b) by {
            if before < k {
                assert(w[before] != w[k]);
            } else {
                assert(w[k] != w[before]);
            }
            if after < k {
                assert(w[after] != w[k]);
            } else {
                assert(w[k] != w[after]);
            }
            if before < after {
                assert(w[before] != w[after]);
            } else {
                assert(w[after] != w[before]);
            }
        }
        assert(rank(t, a) <= rank(t, c));
        assert(rank(t, b) <= rank(t, c));
        if rank(t, a) == rank(t, c) {
            lemma_rank_tells_apart(g, config, t, a, c);
        }
        if rank(t, b) == rank(t, c) {
            lemma_rank_tells_apart(g, config, t, b, c);
        }
        lemma_one_way_up(g, config, t, c, a);
        lemma_one_way_up(g, config, t, c, b);
    }
}

/// A walk can be cut down to a simple path between the same two cells.
proof fn lemma_shortcut(g: Seq<Seq<u32>>, path: u32, w: Seq<(usize, usize)>) -> (p: Seq<
    (usize, usize),
>)
    requires
        walk(g, path, w),
    ensures
        simple_path(g, path, p, w[0], w.last()),
    decreases w.len(),
{
    if exists|i: int, j: int| 0 <= i < j < w.len() && w[i] == w[j] {
        let (i, j) = choose|i: int, j: int| 0 <= i < j < w.len() && w[i] == w[j];
        let head = w.subrange(0, i);
        let tail = w.subrange(j, w.len() as int);
        let cut = head + tail;
        assert forall|k: int| 0 <= k < cut.len() implies is_path(g, path, #[trigger] cut[k]) by {
            if k < i {
                assert(cut[k] == w[k]);
            } else {
                assert(cut[k] == w[k - i + j]);
            }
        }
        assert forall|k: int| 0 <= k < cut.len() - 1 implies adjacent(#[trigger] cut[k], cut[k + 1]) by {
            if k + 1 < i {
                assert(adjacent(w[k], w[k + 1]));
            } else if k + 1 == i {
                assert(adjacent(w[k], w[k + 1]));
                assert(cut[k + 1] == w[j]);
            } else {
                assert(adjacent(w[k - i + j], w[k - i + j + 1]));
            }
        }
        assert(cut[0] == w[0]);
        assert(cut.last() == w.last());
        lemma_shortcut(g, path, cut)
    } else {
        w
    }
}

/// Along a simple path the cells never come earlier in the order of
/// carving again once they have started to come later.
proof fn lemma_rises_on(
    g: Seq<Seq<u32>>,
    config: MazeConfig,
    t: Carving,
    w: Seq<(usize, usize)>,
    k: int,
)
    requires
        carved(g, config, t),
        config.wall_color != config.path_color,
        simple_path(g, config.path_color, w, w[0], w.last()),
        0 <= k < w.len() - 1,
        rank(t, w[k]) < rank(t, w[k + 1]),
    ensures
        rank(t, w[k]) < rank(t, w.last()),
    decreases w.len() - k,
{
    if k + 1 < w.len() - 1 {
        let a = w[k];
        let c = w[k + 1];
        let b = w[k + 2];
        assert(is_path(g, config.path_color, a));
        assert(is_path(g, config.path_color, c));
        assert(is_path(g, config.path_color, b));
        assert(adjacent(w[k], w[k + 1]));
        assert(adjacent(w[k + 1], w[k + 1 + 1]));
        assert(w[k] != w[k + 2]);
        assert(w[k + 1] != w[k + 2]);
        if rank(t, b) == rank(t, c) {
            lemma_rank_tells_apart(g, config, t, b, c);
        }
        if rank(t, b) < rank(t, c) {
            lemma_one_way_up(g, config, t, c, a);
            lemma_one_way_up(g, config, t, c, b);
        }
        lemma_rises_on(g, config, t, w, k + 1);
    }
}

/// Along a simple path the cells have come later and later in the order
/// of carving before they start to come earlier.
proof fn lemma_falls_on(
    g: Seq<Seq<u32>>,
    config: MazeConfig,
    t: Carving,
    w: Seq<(usize, usize)>,
    k: int,
)
    requires
        carved(g, config, t),
        config.wall_color != config.path_color,
        simple_path(g, config.path_color, w, w[0], w.last()),
        0 <= k < w.len() - 1,
        rank(t, w[k]) > rank(t, w[k + 1]),
    ensures
        rank(t, w[0]) > rank(t, w[k + 1]),
    decreases k,
{
    if k > 0 {
        let a = w[k - 1];
        let c = w[k];
        let b = w[k + 1];
        assert(is_path(g, config.path_color, a));
        assert(is_path(g, config.path_color, c));
        assert(is_path(g, config.path_color, b));
        assert(adjacent(w[k - 1], w[k - 1 + 1]));
        assert(adjacent(w[k], w[k + 1]));
        assert(w[k - 1] != w[k + 1]);
        assert(w[k - 1] != w[k]);
        if rank(t, a) == rank(t, c) {
            lemma_rank_tells_apart(g, config, t, a, c);
        }
        if rank(t, a) < rank(t, c) {
            lemma_one_way_up(g, config, t, c, a);
            lemma_one_way_up(g, config, t, c, b);
        }
        lemma_falls_on(g, config, t, w, k - 1);
    }
}

/// A simple path that starts on the later of its two ends starts with
/// the step back to where that end was reached from.
proof fn lemma_first_step(
    g: Seq<Seq<u32>>,
    config: MazeConfig,
    t: Carving,
    w: Seq<(usize, usize)>,
)
    requires
        carved(g, config, t),
        config.wall_color != config.path_color,
        simple_path(g, config.path_color, w, w[0], w.last()),
        w.len() >= 2,
        rank(t, w[0]) > rank(t, w.last()),
    ensures
        w[1] == way_up(t, w[0]),
{
    assert(is_path(g, config.path_color, w[0]));
    assert(is_path(g, config.path_color, w[1]));
    assert(adjacent(w[0], w[0int + 1]));
    assert(w[0] != w[1]);
    if rank(t, w[1]) == rank(t, w[0]) {
        lemma_rank_tells_apart(g, config, t, w[1], w[0]);
    }
    if rank(t, w[0]) < rank(t, w[1]) {
        lemma_rises_on(g, config, t, w, 0);
    }
    lemma_one_way_up(g, config, t, w[0], w[1]);
}

/// A simple path that ends on the later of its two ends ends with the
/// step from where that end was reached from.
proof fn lemma_last_step(g: Seq<Seq<u32>>, config: MazeConfig, t: Carving, w: Seq<(usize, usize)>)
    requires
        carved(g, config, t),
        config.wall_color != config.path_color,
        simple_path(g, config.path_color, w, w[0], w.last()),
        w.len() >= 2,
        rank(t, w[0]) < rank(t, w.last()),
    ensures
        w[w.len() - 2] == way_up(t, w.last()),
{
    let k = w.len() - 2;
    assert(is_path(g, config.path_color, w[k]));
    assert(is_path(g, config.path_color, w[k + 1]));
    assert(adjacent(w[k], w[k + 1]));
    assert(w[k] != w[k + 1]);
    if rank(t, w[k]) == rank(t, w[k + 1]) {
        lemma_rank_tells_apart(g, config, t, w[k], w[k + 1]);
    }
    if rank(t, w[k]) > rank(t, w[k + 1]) {
        lemma_falls_on(g, config, t, w, k);
    }
    lemma_one_way_up(g, config, t, w[k + 1], w[k]);
}

/// A stretch of a simple path is a simple path.
proof fn lemma_simple_part(
    g: Seq<Seq<u32>>,
    path: u32,
    w: Seq<(usize, usize)>,
    from: int,
    to: int,
)
    requires
        simple_path(g, path, w, w[0], w.last()),
        0 <= from < to <= w.len(),
    ensures
        simple_path(g, path, w.subrange(from, to), w[from], w[to - 1]),
{
    let part = w.subrange(from, to);
    assert forall|k: int| 0 <= k < part.len() implies is_path(g, path, #[trigger] part[k]) by {
        assert(part[k] == w[from + k]);
    }
    assert forall|k: int| 0 <= k < part.len() - 1 implies adjacent(#[trigger] part[k], part[k + 1]) by {
        assert(adjacent(w[from + k], w[from + k + 1]));
    }
    assert forall|i: int, j: int| 0 <= i < j < part.len() implies part[i] != part[j] by {
        assert(w[from + i] != w[from + j]);
    }
}

/// Two simple paths between the same two cells of a carved grid are the
/// same path.
pub proof fn lemma_simple_path_is_unique(
    g: Seq<Seq<u32>>,
    config: MazeConfig,
    t: Carving,
    a: (usize, usize),
    b: (usize, usize),
    p: Seq<(usize, usize)>,
    q: Seq<(usize, usize)>,
)
    requires
        carved(g, config, t),
        config.wall_color != config.path_color,
        simple_path(g, config.path_color, p, a, b),
        simple_path(g, config.path_color, q, a, b),
    ensures
        p == q,
    decreases p.len(),
{
    if p.len() == 1 || q.len() == 1 {
        if p.len() > 1 {
            assert(p[0] != p[p.len() - 1]);
        }
        if q.len() > 1 {
            assert(q[0] != q[q.len() - 1]);
        }
        assert(p =~= q);
    } else {
        assert(p[0] != p[p.len() - 1]);
        assert(is_path(g, config.path_color, p[0]));
        assert(is_path(g, config.path_color, p[p.len() - 1]));
        if rank(t, a) == rank(t, b) {
            lemma_rank_tells_apart(g, config, t, a, b);
        }
        if rank(t, a) > rank(t, b) {
            lemma_first_step(g, config, t, p);
            lemma_first_step(g, config, t, q);
            let p_rest = p.subrange(1, p.len() as int);
            let q_rest = q.subrange(1, q.len() as int);
            lemma_simple_part(g, config.path_color, p, 1, p.len() as int);
            lemma_simple_part(g, config.path_color, q, 1, q.len() as int);
            lemma_simple_path_is_unique(g, config, t, p[1], b, p_rest, q_rest);
            assert(p =~= seq![a] + p_rest);
            assert(q =~= seq![a] + q_rest);
        } else {
            lemma_last_step(g, config, t, p);
            lemma_last_step(g, config, t, q);
            let p_rest = p.subrange(0, p.len() - 1);
            let q_rest = q.subrange(0, q.len() - 1);
            lemma_simple_part(g, config.path_color, p, 0, p.len() - 1);
            lemma_simple_part(g, config.path_color, q, 0, q.len() - 1);
            lemma_simple_path_is_unique(g, config, t, a, p[p.len() - 2], p_rest, q_rest);
            assert(p =~= p_rest.push(b));
            assert(q =~= q_rest.push(b));
        }
    }
}

/// Between any two path cells of a carved grid there is exactly one
/// simple path through path cells.
pub proof fn lemma_exactly_one_simple_path(
    g: Seq<Seq<u32>>,
    width: usize,
    height: usize,
    config: MazeConfig,
    t: Carving,
    a: (usize, usize),
    b: (usize, usize),
)
    requires
        rectangular(g, width as int, height as int),
        carved(g, config, t),
        config.wall_color != config.path_color,
        is_path(g, config.path_color, a),
        is_path(g, config.path_color, b),
    ensures
        exists|p: Seq<(usize, usize)>| simple_path(g, config.path_color, p, a, b),
        forall|p: Seq<(usize, usize)>, q: Seq<(usize, usize)>|
            simple_path(g, config.path_color, p, a, b) && simple_path(g, config.path_color, q, a, b)
                ==> p == q,
{
    lemma_carved_is_connected(g, width, height, config, t, a, b);
    let w = choose|w: Seq<(usize, usize)>|
        walk(g, config.path_color, w) && w[0] == a && #[trigger] w.last() == b;
    let p = lemma_shortcut(g, config.path_color, w);
    assert(simple_path(g, config.path_color, p, a, b));
    assert forall|p: Seq<(usize, usize)>, q: Seq<(usize, usize)>|
        simple_path(g, config.path_color, p, a, b) && simple_path(
            g,
            config.path_color,
            q,
            a,
            b,
        ) implies p == q by {
        lemma_simple_path_is_unique(g, config, t, a, b, p, q);
    }
}

/// In a perfect maze any two path cells are joined by exactly one simple
/// path through path cells: the path cells are connected and hold no
/// cycle.
pub proof fn lemma_perfect_maze_is_a_tree(
    g: Seq<Seq<u32>>,
    width: usize,
    height: usize,
    config: MazeConfig,
    a: (usize, usize),
    b: (usize, usize),
)
    requires
        rectangular(g, width as int, height as int),
        is_perfect_maze(g, config),
        config.wall_color != config.path_color,
        is_path(g, config.path_color, a),
        is_path(g, config.path_color, b),
    ensures
        exists|p: Seq<(usize, usize)>| simple_path(g, config.path_color, p, a, b),
        forall|p: Seq<(usize, usize)>, q: Seq<(usize, usize)>|
            simple_path(g, config.path_color, p, a, b) && simple_path(g, config.path_color, q, a, b)
                ==> p == q,
        forall|w: Seq<(usize, usize)>| !cycle(g, config.path_color, w),
{
    let t = choose|t: Carving| perfect(g, config, t);
    lemma_exactly_one_simple_path(g, width, height, config, t, a, b);
    assert forall|w: Seq<(usize, usize)>| !cycle(g, config.path_color, w) by {
        lemma_carved_is_acyclic(g, config, t, w);
    }
}

} // verus!
