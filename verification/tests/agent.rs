use maze::{
    display, place_attempt, start_end_generator, Controls, Direction, MazeConfig, Placement,
    Player, WindowBuffer,
};
use rand::rngs::StdRng;
use rand::SeedableRng;

const WALL: u32 = u32::MAX;
const GREEN: u32 = 0x00FF00;
const PINK: u32 = 0xFF00FF;

fn player_at(position: (usize, usize), end_point: (usize, usize)) -> Player {
    Player::new(position, end_point, Direction::Still, position, MazeConfig::default(), false)
}

fn quiet() -> Controls {
    Controls { reset: false, up: false, down: false, left: false, right: false }
}

#[test]
fn new_player_keeps_what_it_was_given() {
    let player = Player::new(
        (1, 2),
        (3, 4),
        Direction::East,
        (5, 6),
        MazeConfig { path_color: 1, wall_color: 2 },
        true,
    );
    assert_eq!(player.position(), (1, 2));
    assert_eq!(player.end_point(), (3, 4));
    assert_eq!(player.direction, Direction::East);
    assert_eq!(player.previous_spot(), (5, 6));
    assert!(player.game_over);
    assert_eq!(player.clone(), player);
}

#[test]
fn directions_are_ordered_as_listed() {
    assert!(Direction::North < Direction::South);
    assert!(Direction::South < Direction::East);
    assert!(Direction::East < Direction::West);
    assert!(Direction::West < Direction::Still);
    assert_eq!(Direction::Still.max(Direction::North), Direction::Still);
}

#[test]
fn still_player_does_not_move() {
    let buffer = WindowBuffer::new(3, 3);
    let mut player = player_at((1, 1), (2, 2));
    let before = player.clone();
    player.direction(&buffer);
    assert_eq!(player, before);
}

#[test]
fn player_moves_one_cell_each_way() {
    let buffer = WindowBuffer::new(3, 3);
    let ways = [
        (Direction::North, (1, 0)),
        (Direction::South, (1, 2)),
        (Direction::East, (2, 1)),
        (Direction::West, (0, 1)),
    ];
    for (way, target) in ways {
        let mut player = player_at((1, 1), (9, 9));
        player.direction = way;
        player.direction(&buffer);
        assert_eq!(player.position(), target);
        assert_eq!(player.previous_spot(), (1, 1));
        assert_eq!(player.direction, Direction::Still);
        assert!(!player.game_over);
    }
}

#[test]
fn wall_blocks_and_uses_up_the_move() {
    let mut buffer = WindowBuffer::new(3, 3);
    buffer.set((2, 1), WALL);
    let mut player = player_at((1, 1), (9, 9));
    player.direction = Direction::East;
    player.direction(&buffer);
    assert_eq!(player.position(), (1, 1));
    assert_eq!(player.previous_spot(), (1, 1));
    assert_eq!(player.direction, Direction::Still);
    assert!(!player.game_over);
}

#[test]
fn edges_block_and_use_up_the_move() {
    let buffer = WindowBuffer::new(2, 2);
    let cases = [
        ((0, 0), Direction::North),
        ((0, 0), Direction::West),
        ((1, 1), Direction::South),
        ((1, 1), Direction::East),
    ];
    for (corner, way) in cases {
        let mut player = player_at(corner, (9, 9));
        player.direction = way;
        player.direction(&buffer);
        assert_eq!(player.position(), corner);
        assert_eq!(player.previous_spot(), corner);
        assert_eq!(player.direction, Direction::Still);
    }
}

#[test]
fn player_outside_the_buffer_stays_put() {
    let buffer = WindowBuffer::new(2, 2);
    let mut player = player_at((usize::MAX, usize::MAX), (0, 0));
    for way in [Direction::North, Direction::South, Direction::East, Direction::West] {
        player.direction = way;
        player.direction(&buffer);
        assert_eq!(player.position(), (usize::MAX, usize::MAX));
        assert_eq!(player.direction, Direction::Still);
    }
}

#[test]
fn markers_are_open_cells() {
    let mut buffer = WindowBuffer::new(3, 1);
    buffer.set((1, 0), PINK);
    buffer.set((2, 0), 12345);
    let mut player = player_at((0, 0), (9, 9));
    player.direction = Direction::East;
    player.direction(&buffer);
    assert_eq!(player.position(), (1, 0));
    player.direction = Direction::East;
    player.direction(&buffer);
    assert_eq!(player.position(), (2, 0));
}

#[test]
fn reaching_the_end_point_ends_the_game() {
    let buffer = WindowBuffer::new(3, 1);
    let mut player = player_at((0, 0), (1, 0));
    player.direction = Direction::East;
    player.direction(&buffer);
    assert_eq!(player.position(), (1, 0));
    assert_eq!(player.previous_spot(), (0, 0));
    assert!(player.game_over);
}

#[test]
fn game_stays_over_while_the_player_moves_on() {
    let buffer = WindowBuffer::new(3, 3);
    let mut player = player_at((0, 1), (1, 1));
    player.direction = Direction::East;
    player.direction(&buffer);
    assert!(player.game_over);
    assert!(player.game_over());
    assert_eq!(player.position(), (1, 1));

    let moves = [
        (Direction::East, (2, 1)),
        (Direction::East, (2, 1)),
        (Direction::North, (2, 0)),
        (Direction::West, (1, 0)),
        (Direction::South, (1, 1)),
        (Direction::South, (1, 2)),
    ];
    for (way, target) in moves {
        let before = player.position();
        player.direction = way;
        assert_eq!(player.pending_move(), way);
        player.direction(&buffer);
        assert!(player.game_over);
        assert_eq!(player.position(), target);
        if target != before {
            assert_eq!(player.previous_spot(), before);
        }
        assert_eq!(player.direction, Direction::Still);
        assert_eq!(player.pending_move(), Direction::Still);
    }
    player.direction(&buffer);
    assert!(player.game_over);
    assert_eq!(player.position(), (1, 2));
}

#[test]
fn game_is_not_over_before_the_end_point() {
    let buffer = WindowBuffer::new(3, 1);
    let mut player = player_at((0, 0), (2, 0));
    assert!(!player.game_over());
    player.direction = Direction::East;
    player.direction(&buffer);
    assert_eq!(player.position(), (1, 0));
    assert!(!player.game_over());
    player.direction = Direction::East;
    player.direction(&buffer);
    assert_eq!(player.position(), (2, 0));
    assert!(player.game_over());
}

#[test]
fn blocked_move_does_not_end_the_game() {
    let mut buffer = WindowBuffer::new(3, 1);
    buffer.set((1, 0), WALL);
    let mut player = player_at((0, 0), (1, 0));
    player.direction = Direction::East;
    player.direction(&buffer);
    assert_eq!(player.position(), (0, 0));
    assert!(!player.game_over());
}

#[test]
fn player_never_enters_a_wall_of_a_maze() {
    let mut buffer = WindowBuffer::new(9, 9);
    let mut rng = StdRng::seed_from_u64(5);
    let config = MazeConfig::default();
    config.generate(&mut buffer, &mut rng);
    let mut start = (0, 0);
    for y in 0..9 {
        for x in 0..9 {
            if buffer.at((x, y)) == 0 {
                start = (x, y);
            }
        }
    }
    let mut player = player_at(start, (100, 100));
    let ways = [Direction::North, Direction::East, Direction::South, Direction::West];
    let mut moved = 0;
    for turn in 0..400usize {
        let before = player.position();
        player.direction = ways[(turn * 7 + turn / 3) % 4];
        player.direction(&buffer);
        let (x, y) = player.position();
        assert!(x < 9 && y < 9);
        assert_ne!(buffer.at((x, y)), WALL);
        if (x, y) != before {
            moved += 1;
            assert_eq!(player.previous_spot(), before);
            assert_eq!(x.abs_diff(before.0) + y.abs_diff(before.1), 1);
        }
    }
    assert!(moved > 0);
}

#[test]
fn input_sets_the_direction() {
    let start = (4, 4);
    let cases = [
        (Controls { up: true, ..quiet() }, Direction::North),
        (Controls { down: true, ..quiet() }, Direction::South),
        (Controls { right: true, ..quiet() }, Direction::East),
        (Controls { left: true, ..quiet() }, Direction::West),
        (Controls { up: true, down: true, ..quiet() }, Direction::South),
        (Controls { up: true, down: true, right: true, ..quiet() }, Direction::East),
        (Controls { up: true, down: true, right: true, left: true, ..quiet() }, Direction::West),
        (Controls { reset: true, up: true, ..quiet() }, Direction::North),
    ];
    for (controls, expected) in cases {
        let mut player = player_at((1, 1), (2, 2));
        player.handle_user_input(&controls, &start);
        assert_eq!(player.direction, expected);
        assert_eq!(player.position(), if controls.reset { start } else { (1, 1) });
        assert_eq!(player.previous_spot(), (1, 1));
        assert_eq!(player.end_point(), (2, 2));
    }
}

#[test]
fn no_input_changes_nothing() {
    let mut player = player_at((1, 1), (2, 2));
    player.direction = Direction::East;
    let before = player.clone();
    player.handle_user_input(&quiet(), &(4, 4));
    assert_eq!(player, before);
}

#[test]
fn reset_control_puts_the_player_on_the_start() {
    let mut player = player_at((1, 1), (2, 2));
    player.direction = Direction::East;
    player.game_over = true;
    player.handle_user_input(&Controls { reset: true, ..quiet() }, &(4, 5));
    assert_eq!(player.position(), (4, 5));
    assert_eq!(player.direction, Direction::Still);
    assert_eq!(player.previous_spot(), (1, 1));
    assert!(player.game_over);
}

#[test]
fn reset_moves_and_stops_the_player() {
    let mut player = player_at((1, 1), (2, 2));
    player.direction = Direction::West;
    player.reset((7, 8));
    assert_eq!(player.position(), (7, 8));
    assert_eq!(player.direction, Direction::Still);
    assert_eq!(player.previous_spot(), (1, 1));
    assert_eq!(player.end_point(), (2, 2));
    assert!(!player.game_over);
}

#[test]
fn display_paints_the_move() {
    let config = MazeConfig { path_color: 3, wall_color: 9 };
    let mut buffer = WindowBuffer::new(3, 1);
    buffer.fill(3);
    let mut player = Player::new((0, 0), (2, 0), Direction::East, (0, 0), config, false);
    display(&player, &mut buffer);
    assert_eq!(buffer.pixels(), &vec![GREEN, 3, 3]);
    player.direction(&buffer);
    display(&player, &mut buffer);
    assert_eq!(buffer.pixels(), &vec![3, GREEN, 3]);
    display(&player, &mut buffer);
    assert_eq!(buffer.pixels(), &vec![3, GREEN, 3]);
}

#[test]
fn place_attempt_needs_an_open_cell_inside() {
    let player = player_at((0, 0), (0, 0));
    let mut buffer = WindowBuffer::new(4, 3);
    buffer.fill(WALL);
    buffer.set((1, 1), 0);
    buffer.set((2, 2), 0);
    let nothing = Placement { start: None, end: None };

    let missed = place_attempt(&mut buffer, &player, nothing, 0, 0);
    assert_eq!((missed.start, missed.end), (None, None));
    assert_eq!(buffer.at((0, 0)), WALL);
    assert_eq!(buffer.at((3, 0)), WALL);

    let half = place_attempt(&mut buffer, &player, missed, 1, 1);
    assert_eq!((half.start, half.end), (Some(1), None));
    assert_eq!(buffer.at((0, 1)), GREEN);
    assert_eq!(buffer.at((3, 1)), WALL);

    let kept = place_attempt(&mut buffer, &player, half, 2, 0);
    assert_eq!((kept.start, kept.end), (Some(1), None));
    assert_eq!(buffer.at((0, 2)), WALL);

    let both = place_attempt(&mut buffer, &player, kept, 0, 2);
    assert_eq!((both.start, both.end), (Some(1), Some(2)));
    assert_eq!(buffer.at((3, 2)), PINK);

    let after = place_attempt(&mut buffer, &player, both, 1, 2);
    assert_eq!((after.start, after.end), (Some(1), Some(2)));
    let mut marks = 0;
    for y in 0..3 {
        for x in [0, 3] {
            if buffer.at((x, y)) != WALL {
                marks += 1;
            }
        }
    }
    assert_eq!(marks, 2);
}

#[test]
fn place_attempt_reads_the_configured_path_color() {
    let config = MazeConfig { path_color: 5, wall_color: 6 };
    let player = Player::new((0, 0), (0, 0), Direction::Still, (0, 0), config, false);
    let mut buffer = WindowBuffer::new(3, 2);
    buffer.set((1, 1), 5);
    let nothing = Placement { start: None, end: None };
    let missed = place_attempt(&mut buffer, &player, nothing, 0, 0);
    assert_eq!((missed.start, missed.end), (None, None));
    let both = place_attempt(&mut buffer, &player, missed, 1, 1);
    assert_eq!((both.start, both.end), (Some(1), Some(1)));
    assert_eq!(buffer.pixels(), &vec![0, 0, 0, GREEN, 5, PINK]);
}

#[test]
fn markers_go_next_to_open_cells_of_a_maze() {
    for seed in 0..20u64 {
        let mut buffer = WindowBuffer::new(11, 9);
        let mut rng = StdRng::seed_from_u64(seed);
        let config = MazeConfig::default();
        config.generate(&mut buffer, &mut rng);
        let maze = buffer.pixels().clone();
        let mut player = player_at((5, 5), (5, 5));
        let start = start_end_generator(&mut buffer, &mut rng, &mut player);
        let (sx, sy) = start.expect("a maze has an open cell next to each edge");
        let (ex, ey) = player.end_point();
        assert_eq!(sx, 0);
        assert_eq!(ex, 10);
        assert!(sy < 9 && ey < 9);
        assert_eq!(player.position(), (0, sy));
        assert_eq!(player.previous_spot(), (0, sy));
        assert_eq!(player.direction, Direction::Still);
        assert!(!player.game_over);
        assert_eq!(maze[sy * 11 + 1], 0);
        assert_eq!(maze[ey * 11 + 9], 0);
        let mut expected = maze.clone();
        expected[sy * 11] = GREEN;
        expected[ey * 11 + 10] = PINK;
        assert_eq!(buffer.pixels(), &expected);
    }
}

#[test]
fn no_markers_without_open_cells() {
    let mut buffer = WindowBuffer::new(6, 4);
    buffer.fill(WALL);
    let mut rng = StdRng::seed_from_u64(38);
    let mut player = player_at((2, 2), (3, 3));
    let before = player.clone();
    assert_eq!(start_end_generator(&mut buffer, &mut rng, &mut player), None);
    assert_eq!(player, before);
    assert_eq!(buffer.pixels(), &vec![WALL; 24]);
}

#[test]
fn one_marker_alone_is_no_start() {
    let mut buffer = WindowBuffer::new(6, 4);
    buffer.fill(WALL);
    buffer.set((1, 2), 0);
    let mut rng = StdRng::seed_from_u64(38);
    let mut player = player_at((2, 2), (3, 3));
    let before = player.clone();
    assert_eq!(start_end_generator(&mut buffer, &mut rng, &mut player), None);
    assert_eq!(player, before);
    let mut expected = vec![WALL; 24];
    expected[2 * 6 + 1] = 0;
    expected[2 * 6] = GREEN;
    assert_eq!(buffer.pixels(), &expected);
}

#[test]
fn same_seed_same_markers() {
    let mut rows = Vec::new();
    for _ in 0..2 {
        let mut buffer = WindowBuffer::new(10, 10);
        let mut rng = StdRng::seed_from_u64(38);
        let mut player = player_at((0, 0), (0, 0));
        let start = start_end_generator(&mut buffer, &mut rng, &mut player);
        rows.push((start, player.end_point()));
    }
    assert_eq!(rows[0], (Some((0, 2)), (9, 7)));
    assert_eq!(rows[1], rows[0]);
}

#[test]
fn walk_to_the_end_of_a_corridor() {
    let mut buffer = WindowBuffer::new(5, 3);
    buffer.fill(WALL);
    for x in 1..4 {
        buffer.set((x, 1), 0);
    }
    let mut rng = StdRng::seed_from_u64(1);
    let mut player = player_at((0, 0), (0, 0));
    let start = start_end_generator(&mut buffer, &mut rng, &mut player);
    assert_eq!(start, Some((0, 1)));
    assert_eq!(player.end_point(), (4, 1));
    let start = (0, 1);
    for step in 1..=4 {
        assert!(!player.game_over);
        player.handle_user_input(&Controls { right: true, ..quiet() }, &start);
        player.direction(&buffer);
        display(&player, &mut buffer);
        assert_eq!(player.position(), (step, 1));
        assert_eq!(buffer.at((step, 1)), GREEN);
        assert_eq!(buffer.at((step - 1, 1)), 0);
    }
    assert!(player.game_over);
    player.handle_user_input(&Controls { left: true, ..quiet() }, &start);
    player.direction(&buffer);
    display(&player, &mut buffer);
    assert_eq!(player.position(), (3, 1));
    assert_eq!(player.previous_spot(), (4, 1));
    assert_eq!(buffer.at((3, 1)), GREEN);
    assert_eq!(buffer.at((4, 1)), 0);
    assert!(player.game_over);
}
