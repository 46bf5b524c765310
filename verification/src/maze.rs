//! The maze carver: a randomized depth-first walk over every second cell
//! of the grid, opening the wall between each cell and the one it was
//! reached from.

use crate::buffer::{in_grid, lookup, painted, uniform, WindowBuffer};
use crate::carving::{
    accounts_for, advanced, is_perfect_maze, lemma_carver_begins, lemma_carver_moves,
    lemma_carving_spans, perfect, Carving,
};
use crate::random::{choose_cell, gen_below};
use rand::rngs::StdRng;
use vstd::prelude::*;

verus! {

/// The two colors that give a buffer its meaning as a maze.
#[derive(PartialEq, Eq, Debug, Structural)]
pub struct MazeConfig {
    /// The color used for the path
    pub path_color: u32,
    /// The color used for the walls
    pub wall_color: u32,
}

impl Clone for MazeConfig {
    fn clone(&self) -> (copy: Self)
        ensures
            copy == *self,
    {
        Self { path_color: self.path_color, wall_color: self.wall_color }
    }
}

impl Default for MazeConfig {
    fn default() -> (config: Self)
        ensures
            config.path_color == 0,
            config.wall_color == u32::MAX,
    {
        Self { path_color: 0, wall_color: u32::MAX }
    }
}

/// The cell halfway between `a` and `b`: along the row of `a` when the
/// columns differ, otherwise along its column.
pub open spec fn midpoint(a: (usize, usize), b: (usize, usize)) -> (usize, usize) {
    if a.0 != b.0 {
        (((a.0 + b.0) / 2) as usize, a.1)
    } else {
        (a.0, ((a.1 + b.1) / 2) as usize)
    }
}

/// The cell halfway between `a` and `b`, rounded towards the smaller
/// coordinate: for two cells two steps apart, the one between them.
pub fn middle_point(a: (usize, usize), b: (usize, usize)) -> (m: (usize, usize))
    ensures
        m == midpoint(a, b),
{
    if a.0 != b.0 {
        let (min, max) = if a.0 < b.0 {
            (a.0, b.0)
        } else {
            (b.0, a.0)
        };
        (min + (max - min) / 2, a.1)
    } else if a.1 != b.1 {
        let (min, max) = if a.1 < b.1 {
            (a.1, b.1)
        } else {
            (b.1, a.1)
        };
        (a.0, min + (max - min) / 2)
    } else {
        a
    }
}

/// Whether `(x, y)` is a cell of the grid that still has the wall color.
pub open spec fn is_wall(g: Seq<Seq<u32>>, wall: u32, x: int, y: int) -> bool {
    lookup(g, x, y) == Some(wall)
}

/// The cell `(x, y)` as a one-element list if it is still a wall of the
/// grid, the empty list otherwise.
pub open spec fn wall_at(g: Seq<Seq<u32>>, wall: u32, x: int, y: int) -> Seq<(usize, usize)> {
    if is_wall(g, wall, x, y) {
        seq![(x as usize, y as usize)]
    } else {
        seq![]
    }
}

/// The cells two steps west, east, north and south of `cell`, in that
/// order, that lie inside the grid and still have the wall color.
pub open spec fn unvisited_neighbors(g: Seq<Seq<u32>>, wall: u32, cell: (usize, usize)) -> Seq<
    (usize, usize),
> {
    wall_at(g, wall, cell.0 - 2, cell.1 as int) + wall_at(g, wall, cell.0 + 2, cell.1 as int)
        + wall_at(g, wall, cell.0 as int, cell.1 - 2) + wall_at(
        g,
        wall,
        cell.0 as int,
        cell.1 + 2,
    )
}

/// The carver between two moves: the grid as it stands, and the stack of
/// cells it may still come back to, the current cell on top.
pub struct Carver {
    pub grid: Seq<Seq<u32>>,
    pub stack: Seq<(usize, usize)>,
}

/// The carver before its first move: a grid of walls in which the start
/// cell is open, and the start cell alone on the stack.
pub open spec fn begun(width: int, height: int, config: MazeConfig, root: (usize, usize)) -> Carver {
    Carver {
        grid: painted(
            uniform(width, height, config.wall_color),
            root.0 as int,
            root.1 as int,
            config.path_color,
        ),
        stack: seq![root],
    }
}

/// Whether the random choice among the candidates of the current cell may
/// come out as `chosen`: nothing if there is no candidate, otherwise one
/// of them.
pub open spec fn choosable(config: MazeConfig, s: Carver, chosen: Option<(usize, usize)>) -> bool {
    let found = unvisited_neighbors(s.grid, config.wall_color, s.stack.last());
    &&& s.stack.len() > 0
    &&& match chosen {
        Some(next) => found.contains(next),
        None => found.len() == 0,
    }
}

/// One move of the carver. Without a candidate it drops the current cell
/// and goes back to the one below. Otherwise it opens the chosen
/// candidate and the cell between, and goes on from the candidate; the
/// current cell stays on the stack only if it had other candidates.
pub open spec fn moved(config: MazeConfig, s: Carver, chosen: Option<(usize, usize)>) -> Carver {
    let cell = s.stack.last();
    match chosen {
        Some(next) => Carver {
            grid: painted(
                painted(s.grid, next.0 as int, next.1 as int, config.path_color),
                midpoint(cell, next).0 as int,
                midpoint(cell, next).1 as int,
                config.path_color,
            ),
            stack: advanced(
                s.stack,
                unvisited_neighbors(s.grid, config.wall_color, cell).len() > 1,
                next,
            ),
        },
        None => Carver { grid: s.grid, stack: s.stack.drop_last() },
    }
}

/// The carver after a run of moves, one for each choice.
pub open spec fn carver_after(
    config: MazeConfig,
    start: Carver,
    choices: Seq<Option<(usize, usize)>>,
) -> Carver
    decreases choices.len(),
{
    if choices.len() == 0 {
        start
    } else {
        moved(config, carver_after(config, start, choices.drop_last()), choices.last())
    }
}

/// Whether each choice of the run was open to the carver when it made it.
pub open spec fn all_choosable(
    config: MazeConfig,
    start: Carver,
    choices: Seq<Option<(usize, usize)>>,
) -> bool
    decreases choices.len(),
{
    choices.len() == 0 || (all_choosable(config, start, choices.drop_last()) && choosable(
        config,
        carver_after(config, start, choices.drop_last()),
        choices.last(),
    ))
}

/// Whether `g` is what the depth-first carver leaves on a grid of the
/// given size: it started on a cell of the grid, made one choosable choice
/// after the other, and stopped when its stack was empty.
pub open spec fn carver_leaves(width: int, height: int, config: MazeConfig, g: Seq<Seq<u32>>) -> bool {
    exists|root: (usize, usize), choices: Seq<Option<(usize, usize)>>|
        {
            &&& root.0 < width
            &&& root.1 < height
            &&& all_choosable(config, begun(width, height, config, root), choices)
            &&& #[trigger] carver_after(config, begun(width, height, config, root), choices) == (Carver {
                grid: g,
                stack: Seq::empty(),
            })
        }
}

/// How many cells of a row have the given color.
pub open spec fn row_count(row: Seq<u32>, color: u32) -> nat
    decreases row.len(),
{
    if row.len() == 0 {
        0
    } else {
        row_count(row.drop_last(), color) + if row.last() == color {
            1nat
        } else {
            0nat
        }
    }
}

/// How many cells of a grid have the given color.
pub open spec fn grid_count(g: Seq<Seq<u32>>, color: u32) -> nat
    decreases g.len(),
{
    if g.len() == 0 {
        0
    } else {
        grid_count(g.drop_last(), color) + row_count(g.last(), color)
    }
}

/// Changing one cell of a row changes the count of a color by what the
/// cell lost and what it gained.
proof fn lemma_row_count_update(row: Seq<u32>, x: int, c: u32, color: u32)
    requires
        0 <= x < row.len(),
    ensures
        row_count(row.update(x, c), color) + (if row[x] == color {
            1nat
        } else {
            0nat
        }) == row_count(row, color) + (if c == color {
            1nat
        } else {
            0nat
        }),
    decreases row.len(),
{
    if x == row.len() - 1 {
        assert(row.update(x, c).drop_last() =~= row.drop_last());
    } else {
        assert(row.update(x, c).drop_last() =~= row.drop_last().update(x, c));
        lemma_row_count_update(row.drop_last(), x, c, color);
    }
}

/// Painting one cell changes the count of a color by what the cell lost
/// and what it gained.
pub proof fn lemma_grid_count_painted(g: Seq<Seq<u32>>, x: int, y: int, c: u32, color: u32)
    requires
        in_grid(g, x, y),
    ensures
        grid_count(painted(g, x, y, c), color) + (if g[y][x] == color {
            1nat
        } else {
            0nat
        }) == grid_count(g, color) + (if c == color {
            1nat
        } else {
            0nat
        }),
    decreases g.len(),
{
    let p = painted(g, x, y, c);
    if y == g.len() - 1 {
        assert(p.drop_last() =~= g.drop_last());
        lemma_row_count_update(g[y], x, c, color);
    } else {
        assert(p.drop_last() =~= painted(g.drop_last(), x, y, c));
        lemma_grid_count_painted(g.drop_last(), x, y, c, color);
    }
}

impl MazeConfig {
    /// Whether `(x, y)` is a cell of the buffer that still has the wall
    /// color.
    fn wall_cell(&self, buffer: &WindowBuffer, x: usize, y: usize) -> (wall: bool)
        ensures
            wall == is_wall(buffer@, self.wall_color, x as int, y as int),
    {
        proof {
            buffer.lemma_rectangular();
        }
        x < buffer.width() && y < buffer.height() && buffer.at((x, y)) == self.wall_color
    }

    /// The unvisited cells two steps away from `cell`, west, east, north
    /// and south in that order. Cells outside the buffer are never among
    /// them.
    pub fn candidates(&self, buffer: &WindowBuffer, cell: (usize, usize)) -> (found: Vec<
        (usize, usize),
    >)
        ensures
            found@ == unvisited_neighbors(buffer@, self.wall_color, cell),
    {
        proof {
            buffer.lemma_rectangular();
        }
        let (x, y) = cell;
        let ghost west = wall_at(buffer@, self.wall_color, x - 2, y as int);
        let ghost east = wall_at(buffer@, self.wall_color, x + 2, y as int);
        let ghost north = wall_at(buffer@, self.wall_color, x as int, y - 2);
        let ghost south = wall_at(buffer@, self.wall_color, x as int, y + 2);
        let mut found: Vec<(usize, usize)> = Vec::new();
        if x >= 2 && self.wall_cell(buffer, x - 2, y) {
            found.push((x - 2, y));
        }
        assert(found@ =~= west);
        if x <= usize::MAX - 2 && self.wall_cell(buffer, x + 2, y) {
            found.push((x + 2, y));
        }
        assert(found@ =~= west + east);
        if y >= 2 && self.wall_cell(buffer, x, y - 2) {
            found.push((x, y - 2));
        }
        assert(found@ =~= west + east + north);
        if y <= usize::MAX - 2 && self.wall_cell(buffer, x, y + 2) {
            found.push((x, y + 2));
        }
        assert(found@ =~= west + east + north + south);
        found
    }

    /// Opens the way from `cell` to the candidate `next`: both `next` and
    /// the cell between the two get the path color, and `next` goes on
    /// the stack, on top of `cell` if the carver has to come back to it.
    pub fn carve(
        &self,
        buffer: &mut WindowBuffer,
        stack: &mut Vec<(usize, usize)>,
        cell: (usize, usize),
        next: (usize, usize),
        comes_back: bool,
    )
        requires
            in_grid(old(buffer)@, next.0 as int, next.1 as int),
            in_grid(old(buffer)@, midpoint(cell, next).0 as int, midpoint(cell, next).1 as int),
        ensures
            final(buffer).width() == old(buffer).width(),
            final(buffer).height() == old(buffer).height(),
            final(buffer)@ == painted(
                painted(old(buffer)@, next.0 as int, next.1 as int, self.path_color),
                midpoint(cell, next).0 as int,
                midpoint(cell, next).1 as int,
                self.path_color,
            ),
            final(stack)@ == if comes_back {
                old(stack)@.push(cell).push(next)
            } else {
                old(stack)@.push(next)
            },
    {
        if comes_back {
            stack.push(cell);
        }
        stack.push(next);
        buffer.set(next, self.path_color);
        proof {
            buffer.lemma_rectangular();
            old(buffer).lemma_rectangular();
        }
        let wall = middle_point(cell, next);
        buffer.set(wall, self.path_color);
    }

    /// Fills the buffer with walls and carves a perfect maze into it.
    ///
    /// The carver starts on a randomly drawn cell and walks depth first
    /// over the cells two steps apart, opening the cell in between at
    /// each move, until every cell on the lattice of the start has been
    /// visited. The buffer then shows a tree that spans that lattice.
    ///
    /// The buffer needs at least one cell, and the two colors must differ:
    /// the carver knows a visited cell by its color.
    pub fn generate(&self, buffer: &mut WindowBuffer, rng: &mut StdRng)
        requires
            old(buffer).width() >= 1,
            old(buffer).height() >= 1,
            self.wall_color != self.path_color,
        ensures
            final(buffer).width() == old(buffer).width(),
            final(buffer).height() == old(buffer).height(),
            carver_leaves(
                old(buffer).width() as int,
                old(buffer).height() as int,
                *self,
                final(buffer)@,
            ),
            is_perfect_maze(final(buffer)@, *self),
    {
        buffer.fill(self.wall_color);
        proof {
            buffer.lemma_rectangular();
        }
        let x = gen_below(rng, buffer.width());
        let y = gen_below(rng, buffer.height());

        let mut stack: Vec<(usize, usize)> = Vec::new();
        stack.push((x, y));
        buffer.set((x, y), self.path_color);

        let ghost start = begun(buffer.width() as int, buffer.height() as int, *self, (x, y));
        let ghost mut choices: Seq<Option<(usize, usize)>> = Seq::empty();
        let ghost mut t = Carving { order: seq![(x, y)], parent: seq![0int] };
        proof {
            lemma_carver_begins(buffer.width(), buffer.height(), *self, (x, y));
            assert(stack@ =~= seq![(x, y)]);
        }

        while stack.len() > 0
            invariant
                buffer.width() == old(buffer).width(),
                buffer.height() == old(buffer).height(),
                self.wall_color != self.path_color,
                all_choosable(*self, start, choices),
                carver_after(*self, start, choices) == (Carver { grid: buffer@, stack: stack@ }),
                accounts_for(
                    buffer.width(),
                    buffer.height(),
                    *self,
                    Carver { grid: buffer@, stack: stack@ },
                    t,
                ),
            decreases grid_count(buffer@, self.wall_color), stack@.len(),
        {
            let ghost now = Carver { grid: buffer@, stack: stack@ };
            let cell = stack.pop().unwrap();
            let to_explore = self.candidates(buffer, cell);
            let chosen = choose_cell(&to_explore, rng);
            proof {
                assert(choices.push(chosen).drop_last() =~= choices);
                choices = choices.push(chosen);
                t = lemma_carver_moves(buffer.width(), buffer.height(), *self, now, t, chosen);
            }
            if let Some(next) = chosen {
                self.carve(buffer, &mut stack, cell, next, to_explore.len() > 1);
            }
            assert(stack@ =~= moved(*self, now, chosen).stack);
        }
        proof {
            buffer.lemma_rectangular();
            assert(stack@ =~= Seq::empty());
            lemma_carving_spans(buffer@, buffer.width(), buffer.height(), *self, t);
            assert(perfect(buffer@, *self, t));
        }
    }
}

} // verus!
