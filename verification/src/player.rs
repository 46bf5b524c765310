//! The agent that walks the maze: where it stands, where it came from,
//! where it has to go, and the rule that moves it one cell per input.

use crate::buffer::{in_grid, painted, rectangular, WindowBuffer};
use crate::maze::MazeConfig;
use crate::random::gen_below;
use rand::rngs::StdRng;
use vstd::prelude::*;

verus! {

/// The way the agent has been asked to go.
#[derive(Copy, Clone, PartialEq, Eq, PartialOrd, Ord, Debug, Structural)]
pub enum Direction {
    North,
    South,
    East,
    West,
    Still,
}

/// Which of the five controls are active in one frame.
#[derive(Copy, Clone, PartialEq, Eq, Debug, Structural)]
pub struct Controls {
    /// Snap the agent back to the start.
    pub reset: bool,
    pub up: bool,
    pub down: bool,
    pub left: bool,
    pub right: bool,
}

/// The agent's state as plain values, as the contracts see it.
pub struct PlayerState {
    pub player_color: u32,
    pub position: (usize, usize),
    pub finish_color: u32,
    pub end_point: (usize, usize),
    pub direction: Direction,
    pub previous_spot: (usize, usize),
    pub maze_config: MazeConfig,
    pub game_over: bool,
}

/// The agent: its cell, the cell it left last, the cell it has to reach,
/// its pending move and the colors it sees and is painted with.
#[derive(PartialEq, Eq, Debug)]
pub struct Player {
    player_color: u32,
    position: (usize, usize),
    finish_color: u32,
    end_point: (usize, usize),
    /// The pending move; `Still` when no input waits to be served.
    pub direction: Direction,
    previous_spot: (usize, usize),
    maze_config: MazeConfig,
    /// Set once the agent has reached the end point.
    pub game_over: bool,
}

impl View for Player {
    type V = PlayerState;

    closed spec fn view(&self) -> PlayerState {
        PlayerState {
            player_color: self.player_color,
            position: self.position,
            finish_color: self.finish_color,
            end_point: self.end_point,
            direction: self.direction,
            previous_spot: self.previous_spot,
            maze_config: self.maze_config,
            game_over: self.game_over,
        }
    }
}

impl Clone for Player {
    fn clone(&self) -> (copy: Self)
        ensures
            copy@ == self@,
    {
        Player {
            player_color: self.player_color,
            position: self.position,
            finish_color: self.finish_color,
            end_point: self.end_point,
            direction: self.direction,
            previous_spot: self.previous_spot,
            maze_config: self.maze_config.clone(),
            game_over: self.game_over,
        }
    }
}

/// The color that marks the agent's cell.
pub const PLAYER_COLOR: u32 = 0x00FF00;

/// The color that marks the end point.
pub const FINISH_COLOR: u32 = 0xFF00FF;

/// The coordinates one step from `position` in the given direction; they
/// may fall outside every grid.
pub open spec fn neighbor(position: (usize, usize), direction: Direction) -> (int, int) {
    match direction {
        Direction::North => (position.0 as int, position.1 - 1),
        Direction::South => (position.0 as int, position.1 + 1),
        Direction::East => (position.0 + 1, position.1 as int),
        Direction::West => (position.0 - 1, position.1 as int),
        Direction::Still => (position.0 as int, position.1 as int),
    }
}

/// Whether the agent may enter `(x, y)`: the cell lies in the grid and
/// does not have the wall color.
pub open spec fn passable(g: Seq<Seq<u32>>, wall: u32, x: int, y: int) -> bool {
    in_grid(g, x, y) && g[y][x] != wall
}

/// The state with the pending move served and nothing else changed.
pub open spec fn halted(p: PlayerState) -> PlayerState {
    PlayerState { direction: Direction::Still, ..p }
}

/// One step of the agent on the grid `g`.
///
/// Without a pending move nothing changes. Otherwise the agent enters the
/// neighboring cell in its direction if that cell is passable, and the
/// game is over from the move on which that cell is the end point. A
/// pending move is always used up.
pub open spec fn stepped(p: PlayerState, g: Seq<Seq<u32>>) -> PlayerState {
    let target = neighbor(p.position, p.direction);
    if p.direction == Direction::Still {
        p
    } else if passable(g, p.maze_config.wall_color, target.0, target.1) {
        let arrived = (target.0 as usize, target.1 as usize);
        PlayerState {
            position: arrived,
            previous_spot: p.position,
            direction: Direction::Still,
            game_over: p.game_over || arrived == p.end_point,
            ..p
        }
    } else {
        halted(p)
    }
}

/// The state after a run of frames, each a requested direction and the
/// grid on which it is served.
pub open spec fn walked(p: PlayerState, frames: Seq<(Direction, Seq<Seq<u32>>)>) -> PlayerState
    decreases frames.len(),
{
    if frames.len() == 0 {
        p
    } else {
        let reached = walked(p, frames.drop_last());
        stepped(PlayerState { direction: frames.last().0, ..reached }, frames.last().1)
    }
}

/// A step never puts the agent on a wall or outside the grid: where it
/// moves, the cell it enters is passable, and an agent inside the grid
/// stays inside.
pub proof fn lemma_step_is_legal(p: PlayerState, g: Seq<Seq<u32>>, width: usize, height: usize)
    requires
        rectangular(g, width as int, height as int),
    ensures
        stepped(p, g).position == p.position || passable(
            g,
            p.maze_config.wall_color,
            stepped(p, g).position.0 as int,
            stepped(p, g).position.1 as int,
        ),
        in_grid(g, p.position.0 as int, p.position.1 as int) ==> in_grid(
            g,
            stepped(p, g).position.0 as int,
            stepped(p, g).position.1 as int,
        ),
        stepped(p, g).position != p.position ==> stepped(p, g).previous_spot == p.position,
{
}

/// However many steps the agent takes on grids of one size, it stays
/// inside them.
pub proof fn lemma_walk_stays_inside(
    p: PlayerState,
    frames: Seq<(Direction, Seq<Seq<u32>>)>,
    width: usize,
    height: usize,
)
    requires
        p.position.0 < width,
        p.position.1 < height,
        forall|k: int|
            0 <= k < frames.len() ==> rectangular((#[trigger] frames[k]).1, width as int, height as int),
    ensures
        walked(p, frames).position.0 < width,
        walked(p, frames).position.1 < height,
    decreases frames.len(),
{
    if frames.len() > 0 {
        let earlier = frames.drop_last();
        assert forall|k: int| 0 <= k < earlier.len() implies rectangular(
            (#[trigger] earlier[k]).1,
            width as int,
            height as int,
        ) by {
            assert(earlier[k] == frames[k]);
        }
        lemma_walk_stays_inside(p, earlier, width, height);
        let reached = walked(p, earlier);
        let g = frames.last().1;
        assert(rectangular(frames[frames.len() - 1].1, width as int, height as int));
        lemma_step_is_legal(
            PlayerState { direction: frames.last().0, ..reached },
            g,
            width,
            height,
        );
    }
}

/// Once the game is over it stays over, whatever steps follow.
pub proof fn lemma_win_is_kept(p: PlayerState, frames: Seq<(Direction, Seq<Seq<u32>>)>)
    requires
        p.game_over,
    ensures
        walked(p, frames).game_over,
    decreases frames.len(),
{
    if frames.len() > 0 {
        lemma_win_is_kept(p, frames.drop_last());
    }
}

/// The direction after one frame of input: the last active control in
/// the order up, down, right, left wins, and a reset alone stops the
/// agent.
pub open spec fn steered(direction: Direction, controls: Controls) -> Direction {
    if controls.left {
        Direction::West
    } else if controls.right {
        Direction::East
    } else if controls.down {
        Direction::South
    } else if controls.up {
        Direction::North
    } else if controls.reset {
        Direction::Still
    } else {
        direction
    }
}

/// The state after one frame of input.
pub open spec fn instructed(p: PlayerState, controls: Controls, start_point: (usize, usize))
    -> PlayerState {
    PlayerState {
        position: if controls.reset {
            start_point
        } else {
            p.position
        },
        direction: steered(p.direction, controls),
        ..p
    }
}

impl Player {
    /// An agent with the given state and the standard marker colors.
    pub fn new(
        position: (usize, usize),
        end_point: (usize, usize),
        direction: Direction,
        previous_spot: (usize, usize),
        maze_config: MazeConfig,
        game_over: bool,
    ) -> (player: Self)
        ensures
            player@ == (PlayerState {
                player_color: PLAYER_COLOR,
                position,
                finish_color: FINISH_COLOR,
                end_point,
                direction,
                previous_spot,
                maze_config,
                game_over,
            }),
    {
        Self {
            player_color: PLAYER_COLOR,
            finish_color: FINISH_COLOR,
            position,
            end_point,
            direction,
            previous_spot,
            maze_config,
            game_over,
        }
    }

    /// Takes one frame of input: a reset puts the agent back on
    /// `start_point`, and the arrow controls set the pending move.
    pub fn handle_user_input(&mut self, controls: &Controls, start_point: &(usize, usize))
        ensures
            final(self)@ == instructed(old(self)@, *controls, *start_point),
    {
        if controls.reset {
            self.reset(*start_point);
        }
        if controls.up {
            self.direction = Direction::North;
        }
        if controls.down {
            self.direction = Direction::South;
        }
        if controls.right {
            self.direction = Direction::East;
        }
        if controls.left {
            self.direction = Direction::West;
        }
    }

    /// Puts the agent back on `start_point` and drops its pending move.
    pub fn reset(&mut self, start_point: (usize, usize))
        ensures
            final(self)@ == (PlayerState {
                position: start_point,
                direction: Direction::Still,
                ..old(self)@
            }),
    {
        self.position = start_point;
        self.direction = Direction::Still;
    }

    /// Serves the pending move on the given buffer: the agent enters the
    /// neighboring cell in its direction unless that cell is a wall or
    /// lies outside the buffer. Entering the end point ends the game, and
    /// a game that is over stays over. The pending move is used up either
    /// way.
    pub fn direction(&mut self, buffer: &WindowBuffer)
        ensures
            final(self)@ == stepped(old(self)@, buffer@),
    {
        proof {
            buffer.lemma_rectangular();
        }
        let (x, y) = self.position;
        let (width, height) = (buffer.width(), buffer.height());
        let target: Option<(usize, usize)> = match self.direction {
            Direction::Still => {
                return ;
            },
            Direction::North => if y >= 1 && y - 1 < height && x < width {
                Some((x, y - 1))
            } else {
                None
            },
            Direction::South => if y < height && height - y > 1 && x < width {
                Some((x, y + 1))
            } else {
                None
            },
            Direction::East => if x < width && width - x > 1 && y < height {
                Some((x + 1, y))
            } else {
                None
            },
            Direction::West => if x >= 1 && x - 1 < width && y < height {
                Some((x - 1, y))
            } else {
                None
            },
        };
        self.direction = Direction::Still;
        if let Some(cell) = target {
            if buffer.at(cell) != self.maze_config.wall_color {
                self.previous_spot = self.position;
                self.position = cell;
                self.game_over = self.game_over || (cell.0 == self.end_point.0 && cell.1
                    == self.end_point.1);
            }
        }
    }

    /// Where the agent stands.
    pub fn position(&self) -> (position: (usize, usize))
        ensures
            position == self@.position,
    {
        self.position
    }

    /// The cell the agent left last.
    pub fn previous_spot(&self) -> (spot: (usize, usize))
        ensures
            spot == self@.previous_spot,
    {
        self.previous_spot
    }

    /// The cell the agent has to reach.
    pub fn end_point(&self) -> (end: (usize, usize))
        ensures
            end == self@.end_point,
    {
        self.end_point
    }

    /// Whether the agent has reached the end point.
    pub fn game_over(&self) -> (over: bool)
        ensures
            over == self@.game_over,
    {
        self.game_over
    }

    /// The move that waits to be served, `Still` if none does.
    pub fn pending_move(&self) -> (pending: Direction)
        ensures
            pending == self@.direction,
    {
        self.direction
    }
}

/// The grid with the agent's move painted in: the cell it left has the
/// path color again, the cell it stands on has the agent's color.
pub open spec fn shown(g: Seq<Seq<u32>>, p: PlayerState) -> Seq<Seq<u32>> {
    painted(
        painted(g, p.previous_spot.0 as int, p.previous_spot.1 as int, p.maze_config.path_color),
        p.position.0 as int,
        p.position.1 as int,
        p.player_color,
    )
}

/// Painting the same move a second time changes nothing.
pub proof fn lemma_shown_twice(g: Seq<Seq<u32>>, p: PlayerState)
    requires
        in_grid(g, p.previous_spot.0 as int, p.previous_spot.1 as int),
        in_grid(g, p.position.0 as int, p.position.1 as int),
    ensures
        shown(shown(g, p), p) == shown(g, p),
{
    assert(shown(shown(g, p), p) =~~= shown(g, p));
}

/// Paints the agent's move into the buffer: the cell it left gets the
/// path color back, the cell it stands on gets the agent's color.
pub fn display(player: &Player, buffer: &mut WindowBuffer)
    requires
        in_grid(old(buffer)@, player@.previous_spot.0 as int, player@.previous_spot.1 as int),
        in_grid(old(buffer)@, player@.position.0 as int, player@.position.1 as int),
    ensures
        final(buffer).width() == old(buffer).width(),
        final(buffer).height() == old(buffer).height(),
        final(buffer)@ == shown(old(buffer)@, player@),
{
    buffer.set(player.previous_spot, player.maze_config.path_color);
    proof {
        buffer.lemma_rectangular();
        old(buffer).lemma_rectangular();
    }
    buffer.set(player.position, player.player_color);
}

/// The rows on which the start and the end marker have been placed so far.
#[derive(Copy, Clone, Debug)]
pub struct Placement {
    pub start: Option<usize>,
    pub end: Option<usize>,
}

/// How many pairs of rows `start_end_generator` draws for each row of the
/// buffer before it gives up.
pub const ATTEMPTS_PER_ROW: usize = 64;

/// Whether every row of a grid of three or more columns is open for both
/// markers: the cells next to the left and to the right edge all have the
/// path color.
pub open spec fn open_everywhere(g: Seq<Seq<u32>>, p: PlayerState) -> bool {
    &&& columns(g) >= 3
    &&& forall|row: int|
        0 <= row < g.len() ==> (#[trigger] g[row])[1] == p.maze_config.path_color && g[row][columns(
            g,
        ) - 2] == p.maze_config.path_color
}

/// The number of columns of a grid that has at least one row.
pub open spec fn columns(g: Seq<Seq<u32>>) -> int {
    g[0].len() as int
}

/// The grid and the progress after one attempt with the drawn rows.
///
/// A marker that is still missing is placed on its edge cell of the drawn
/// row if the cell next to it, one step towards the inside, has the path
/// color: the start marker on the left edge first, then the end marker on
/// the right edge.
pub open spec fn attempted(
    g: Seq<Seq<u32>>,
    p: PlayerState,
    progress: Placement,
    start_row: usize,
    end_row: usize,
) -> (Seq<Seq<u32>>, Placement) {
    let path = p.maze_config.path_color;
    let last = columns(g) - 1;
    let (g1, start) = if progress.start is None && g[start_row as int][1] == path {
        (painted(g, 0, start_row as int, p.player_color), Some(start_row))
    } else {
        (g, progress.start)
    };
    let (g2, end) = if progress.end is None && g1[end_row as int][last - 1] == path {
        (painted(g1, last, end_row as int, p.finish_color), Some(end_row))
    } else {
        (g1, progress.end)
    };
    (g2, Placement { start, end })
}

/// The grid `g` with the markers that `progress` records.
pub open spec fn marked(g: Seq<Seq<u32>>, p: PlayerState, progress: Placement) -> Seq<Seq<u32>> {
    let g1 = match progress.start {
        Some(row) => painted(g, 0, row as int, p.player_color),
        None => g,
    };
    match progress.end {
        Some(row) => painted(g1, columns(g) - 1, row as int, p.finish_color),
        None => g1,
    }
}

/// Whether the rows that `progress` records were open for a marker on the
/// grid `g`: they lie in the grid, and on a grid of three or more columns
/// the cell next to each marker has the path color.
pub open spec fn well_placed(g: Seq<Seq<u32>>, p: PlayerState, progress: Placement) -> bool {
    &&& progress.start matches Some(row) ==> row < g.len() && (columns(g) >= 3 ==> g[row as int][1]
        == p.maze_config.path_color)
    &&& progress.end matches Some(row) ==> row < g.len() && (columns(g) >= 3 ==> g[row as int][columns(
        g,
    ) - 2] == p.maze_config.path_color)
}

/// How a round of placement with the markers `progress` ends: the grid is
/// the old one with those markers, which were placed on open rows; when
/// both are there the agent stands on the start, in the left column, with
/// the end point in the right column, and the start is returned;
/// otherwise the agent is left as it was and nothing is returned.
pub open spec fn settled(
    g: Seq<Seq<u32>>,
    p: PlayerState,
    progress: Placement,
    g_after: Seq<Seq<u32>>,
    p_after: PlayerState,
    start: Option<(usize, usize)>,
) -> bool {
    &&& well_placed(g, p, progress)
    &&& g_after == marked(g, p, progress)
    &&& match (progress.start, progress.end) {
        (Some(start_row), Some(end_row)) => {
            &&& start == Some((0usize, start_row))
            &&& p_after == (PlayerState {
                position: (0, start_row),
                previous_spot: (0, start_row),
                end_point: ((columns(g) - 1) as usize, end_row),
                ..p
            })
        },
        _ => start is None && p_after == p,
    }
}

/// How many pairs of rows are drawn at most on a buffer of the given
/// height: `ATTEMPTS_PER_ROW` for each row, as far as that can be counted.
pub open spec fn attempt_limit(height: usize) -> usize {
    if height <= usize::MAX / ATTEMPTS_PER_ROW {
        (height * ATTEMPTS_PER_ROW) as usize
    } else {
        usize::MAX
    }
}

/// Whether both markers have been placed.
pub open spec fn both_placed(progress: Placement) -> bool {
    progress.start is Some && progress.end is Some
}

/// The grid and the progress after one attempt for each drawn pair of
/// rows, the first number of a pair for the start and the second for the
/// end, starting with no marker placed.
pub open spec fn attempts_after(g: Seq<Seq<u32>>, p: PlayerState, draws: Seq<(usize, usize)>) -> (
    Seq<Seq<u32>>,
    Placement,
)
    decreases draws.len(),
{
    if draws.len() == 0 {
        (g, Placement { start: None, end: None })
    } else {
        let before = attempts_after(g, p, draws.drop_last());
        attempted(before.0, p, before.1, draws.last().0, draws.last().1)
    }
}

/// Whether a round of placement on the grid `g` went by the drawn pairs
/// of rows: rows of the grid were drawn, at least once and no more often
/// than the limit allows; drawing went on as long as a marker was missing;
/// the grid is what the attempts made of it; the round ended as `settled`
/// says; and nothing is returned only after the last draw that the limit
/// allows.
pub open spec fn drawn_out(
    g: Seq<Seq<u32>>,
    p: PlayerState,
    draws: Seq<(usize, usize)>,
    g_after: Seq<Seq<u32>>,
    p_after: PlayerState,
    start: Option<(usize, usize)>,
) -> bool {
    &&& 1 <= draws.len() <= attempt_limit(g.len() as usize)
    &&& forall|k: int|
        0 <= k < draws.len() ==> (#[trigger] draws[k]).0 < g.len() && draws[k].1 < g.len()
    &&& forall|k: int|
        0 <= k < draws.len() ==> !both_placed(attempts_after(g, p, #[trigger] draws.take(k)).1)
    &&& g_after == attempts_after(g, p, draws).0
    &&& settled(g, p, attempts_after(g, p, draws).1, g_after, p_after, start)
    &&& start is None ==> draws.len() == attempt_limit(g.len() as usize)
}

/// Tries once to place the markers that are still missing, on the rows
/// that were drawn for them.
pub fn place_attempt(
    buffer: &mut WindowBuffer,
    player: &Player,
    progress: Placement,
    start_row: usize,
    end_row: usize,
) -> (next: Placement)
    requires
        old(buffer).width() >= 2,
        start_row < old(buffer).height(),
        end_row < old(buffer).height(),
    ensures
        final(buffer).width() == old(buffer).width(),
        final(buffer).height() == old(buffer).height(),
        (final(buffer)@, next) == attempted(old(buffer)@, player@, progress, start_row, end_row),
{
    proof {
        buffer.lemma_rectangular();
    }
    let width_max = buffer.width() - 1;
    let mut next = progress;
    if next.start.is_none() && buffer.at((1, start_row)) == player.maze_config.path_color {
        buffer.set((0, start_row), player.player_color);
        next.start = Some(start_row);
    }
    proof {
        buffer.lemma_rectangular();
    }
    if next.end.is_none() && buffer.at((width_max - 1, end_row)) == player.maze_config.path_color {
        buffer.set((width_max, end_row), player.finish_color);
        next.end = Some(end_row);
    }
    next
}

/// Places the start marker on the left edge and the end marker on the
/// right edge, each on a randomly drawn row whose neighbor towards the
/// inside is open, and puts the agent on the start.
///
/// Rows are drawn in pairs, and an attempt is made with each pair, until
/// both markers are placed; the start cell is then returned. After
/// `ATTEMPTS_PER_ROW` pairs for every row of the buffer without success
/// nothing is returned and the agent is left as it was. Where an open cell lies next to an edge, that many draws all miss
/// it with a chance of about e^-64.
pub fn start_end_generator(buffer: &mut WindowBuffer, rng: &mut StdRng, player: &mut Player) -> (start:
    Option<(usize, usize)>)
    requires
        old(buffer).width() >= 2,
        old(buffer).height() >= 1,
    ensures
        final(buffer).width() == old(buffer).width(),
        final(buffer).height() == old(buffer).height(),
        exists|draws: Seq<(usize, usize)>|
            drawn_out(
                old(buffer)@,
                old(player)@,
                draws,
                final(buffer)@,
                final(player)@,
                start,
            ),
        open_everywhere(old(buffer)@, old(player)@) ==> start is Some,
        start matches Some(cell) ==> {
            &&& cell.0 == 0
            &&& cell.1 < old(buffer).height()
            &&& final(player)@.position == cell
            &&& final(player)@.previous_spot == cell
            &&& final(player)@.end_point.0 == old(buffer).width() - 1
            &&& final(player)@.end_point.1 < old(buffer).height()
        },
        start is None ==> final(player)@ == old(player)@,
{
    proof {
        buffer.lemma_rectangular();
    }
    let width_max = buffer.width() - 1;
    let mut progress = Placement { start: None, end: None };
    let limit: usize = if buffer.height() <= usize::MAX / ATTEMPTS_PER_ROW {
        buffer.height() * ATTEMPTS_PER_ROW
    } else {
        usize::MAX
    };
    let mut attempts: usize = 0;
    let ghost mut draws: Seq<(usize, usize)> = Seq::empty();
    while attempts < limit && !(progress.start.is_some() && progress.end.is_some())
        invariant
            buffer.width() == old(buffer).width(),
            buffer.height() == old(buffer).height(),
            buffer.width() >= 2,
            buffer.height() >= 1,
            rectangular(old(buffer)@, buffer.width() as int, buffer.height() as int),
            player@ == old(player)@,
            well_placed(old(buffer)@, old(player)@, progress),
            buffer@ == marked(old(buffer)@, old(player)@, progress),
            limit == attempt_limit(buffer.height()),
            limit >= 1,
            attempts <= limit,
            draws.len() == attempts,
            forall|k: int|
                0 <= k < draws.len() ==> (#[trigger] draws[k]).0 < buffer.height() && draws[k].1
                    < buffer.height(),
            forall|k: int|
                0 <= k < draws.len() ==> !both_placed(
                    attempts_after(old(buffer)@, old(player)@, #[trigger] draws.take(k)).1,
                ),
            (buffer@, progress) == attempts_after(old(buffer)@, old(player)@, draws),
            attempts > 0 && open_everywhere(old(buffer)@, old(player)@) ==> progress.start is Some
                && progress.end is Some,
        decreases limit - attempts,
    {
        let start_height = gen_below(rng, buffer.height());
        let end_height = gen_below(rng, buffer.height());
        let ghost earlier = draws;
        proof {
            draws = earlier.push((start_height, end_height));
            assert(draws.drop_last() =~= earlier);
            assert forall|k: int| 0 <= k < draws.len() implies !both_placed(
                attempts_after(old(buffer)@, old(player)@, #[trigger] draws.take(k)).1,
            ) by {
                if k < earlier.len() {
                    assert(draws.take(k) =~= earlier.take(k));
                } else {
                    assert(draws.take(k) =~= earlier);
                }
            }
        }
        progress = place_attempt(buffer, player, progress, start_height, end_height);
        proof {
            assert(buffer@ =~~= marked(old(buffer)@, old(player)@, progress));
        }
        attempts += 1;
    }
    let start = match (progress.start, progress.end) {
        (Some(start_row), Some(end_row)) => {
            player.end_point = (width_max, end_row);
            player.position = (0, start_row);
            player.previous_spot = (0, start_row);
            Some((0, start_row))
        },
        _ => None,
    };
    assert(drawn_out(old(buffer)@, old(player)@, draws, buffer@, player@, start));
    start
}

} // verus!
