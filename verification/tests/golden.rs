use maze::{display, start_end_generator, Direction, MazeConfig, Player, WindowBuffer};
use rand::rngs::StdRng;
use rand::SeedableRng;

/// One line per row: `.` for a cell of color 0, `#` for any other.
fn picture(buffer: &WindowBuffer) -> String {
    let mut text = String::new();
    for y in 0..buffer.height() {
        for x in 0..buffer.width() {
            text.push(if buffer.at((x, y)) == 0 { '.' } else { '#' });
        }
        text.push('\n');
    }
    text
}

fn lines(rows: &[&str]) -> String {
    let mut text = String::new();
    for row in rows {
        text.push_str(row);
        text.push('\n');
    }
    text
}

#[test]
fn test_generate_maze() {
    let mut buffer: WindowBuffer = WindowBuffer::new(6, 6);
    let mut rng = StdRng::seed_from_u64(38);
    MazeConfig::default().generate(&mut buffer, &mut rng);

    assert_eq!(
        picture(&buffer),
        lines(&["#.....", "#.#.##", "#.#...", "#####.", "#.....", "######"])
    );
}

#[test]
fn generate_start_and_end() {
    let mut buffer: WindowBuffer = WindowBuffer::new(10, 10);
    let mut rng = StdRng::seed_from_u64(38);
    let mut player = Player::new(
        (0, 0),
        (0, 0),
        Direction::Still,
        (0, 0),
        MazeConfig::default(),
        false,
    );
    start_end_generator(&mut buffer, &mut rng, &mut player);

    assert_eq!(
        picture(&buffer),
        lines(&[
            "..........",
            "..........",
            "#.........",
            "..........",
            "..........",
            "..........",
            "..........",
            ".........#",
            "..........",
            "..........",
        ])
    );
}

#[test]
fn direction_check() {
    let mut buffer: WindowBuffer = WindowBuffer::new(10, 10);
    let mut rng = StdRng::seed_from_u64(38);
    let mut player = Player::new(
        (0, 0),
        (0, 0),
        Direction::Still,
        (0, 0),
        MazeConfig::default(),
        false,
    );
    start_end_generator(&mut buffer, &mut rng, &mut player);

    assert_eq!(
        picture(&buffer),
        lines(&[
            "..........",
            "..........",
            "#.........",
            "..........",
            "..........",
            "..........",
            "..........",
            ".........#",
            "..........",
            "..........",
        ])
    );

    player.direction = Direction::North;
    player.direction(&buffer);
    display(&mut player, &mut buffer);

    assert_eq!(
        picture(&buffer),
        lines(&[
            "..........",
            "#.........",
            "..........",
            "..........",
            "..........",
            "..........",
            "..........",
            ".........#",
            "..........",
            "..........",
        ])
    );

    player.direction = Direction::North;
    player.direction(&buffer);
    display(&mut player, &mut buffer);

    assert_eq!(
        picture(&buffer),
        lines(&[
            "#.........",
            "..........",
            "..........",
            "..........",
            "..........",
            "..........",
            "..........",
            ".........#",
            "..........",
            "..........",
        ])
    );

    player.direction = Direction::East;
    player.direction(&buffer);
    display(&mut player, &mut buffer);

    assert_eq!(
        picture(&buffer),
        lines(&[
            ".#........",
            "..........",
            "..........",
            "..........",
            "..........",
            "..........",
            "..........",
            ".........#",
            "..........",
            "..........",
        ])
    );

    player.direction = Direction::East;
    player.direction(&buffer);
    display(&mut player, &mut buffer);

    assert_eq!(
        picture(&buffer),
        lines(&[
            "..#.......",
            "..........",
            "..........",
            "..........",
            "..........",
            "..........",
            "..........",
            ".........#",
            "..........",
            "..........",
        ])
    );

    player.direction = Direction::South;
    player.direction(&buffer);
    display(&mut player, &mut buffer);

    assert_eq!(
        picture(&buffer),
        lines(&[
            "..........",
            "..#.......",
            "..........",
            "..........",
            "..........",
            "..........",
            "..........",
            ".........#",
            "..........",
            "..........",
        ])
    );

    player.direction = Direction::South;
    player.direction(&buffer);
    display(&mut player, &mut buffer);

    assert_eq!(
        picture(&buffer),
        lines(&[
            "..........",
            "..........",
            "..#.......",
            "..........",
            "..........",
            "..........",
            "..........",
            ".........#",
            "..........",
            "..........",
        ])
    );

    player.direction = Direction::West;
    player.direction(&buffer);
    display(&mut player, &mut buffer);

    assert_eq!(
        picture(&buffer),
        lines(&[
            "..........",
            "..........",
            ".#........",
            "..........",
            "..........",
            "..........",
            "..........",
            ".........#",
            "..........",
            "..........",
        ])
    );

    player.direction = Direction::West;
    player.direction(&buffer);
    display(&mut player, &mut buffer);

    assert_eq!(
        picture(&buffer),
        lines(&[
            "..........",
            "..........",
            "#.........",
            "..........",
            "..........",
            "..........",
            "..........",
            ".........#",
            "..........",
            "..........",
        ])
    );
}
