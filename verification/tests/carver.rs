use maze::{middle_point, MazeConfig, WindowBuffer};
use rand::rngs::StdRng;
use rand::SeedableRng;

const WALL: u32 = u32::MAX;
const PATH: u32 = 0;

fn generated(width: usize, height: usize, seed: u64) -> WindowBuffer {
    let mut buffer = WindowBuffer::new(width, height);
    let mut rng = StdRng::seed_from_u64(seed);
    MazeConfig::default().generate(&mut buffer, &mut rng);
    buffer
}

fn path_cells(buffer: &WindowBuffer) -> Vec<(usize, usize)> {
    let mut cells = Vec::new();
    for y in 0..buffer.height() {
        for x in 0..buffer.width() {
            if buffer.at((x, y)) == PATH {
                cells.push((x, y));
            }
        }
    }
    cells
}

fn open_neighbors(buffer: &WindowBuffer, cell: (usize, usize)) -> Vec<(usize, usize)> {
    let (x, y) = (cell.0 as isize, cell.1 as isize);
    let mut found = Vec::new();
    for (nx, ny) in [(x - 1, y), (x + 1, y), (x, y - 1), (x, y + 1)] {
        if buffer.get(nx, ny) == Some(PATH) {
            found.push((nx as usize, ny as usize));
        }
    }
    found
}

/// Connected, and as many joints as a tree has: one less than cells.
fn assert_is_tree(buffer: &WindowBuffer) {
    let cells = path_cells(buffer);
    assert!(!cells.is_empty());
    let mut seen = vec![cells[0]];
    let mut next = 0;
    while next < seen.len() {
        for cell in open_neighbors(buffer, seen[next]) {
            if !seen.contains(&cell) {
                seen.push(cell);
            }
        }
        next += 1;
    }
    assert_eq!(seen.len(), cells.len());
    let mut joints = 0;
    for cell in &cells {
        joints += open_neighbors(buffer, *cell).len();
    }
    assert_eq!(joints / 2, cells.len() - 1);
}

/// Every cell is a wall or a path; one of the four lattices is all path,
/// and the cells that are off it in both directions are all walls.
fn assert_covers_a_lattice(buffer: &WindowBuffer) {
    for y in 0..buffer.height() {
        for x in 0..buffer.width() {
            let color = buffer.at((x, y));
            assert!(color == WALL || color == PATH);
        }
    }
    let mut lattices = 0;
    for (px, py) in [(0, 0), (1, 0), (0, 1), (1, 1)] {
        let mut nodes = 0;
        let mut fits = true;
        for y in 0..buffer.height() {
            for x in 0..buffer.width() {
                let color = buffer.at((x, y));
                if x % 2 == px && y % 2 == py {
                    nodes += 1;
                    fits = fits && color == PATH;
                }
                if x % 2 != px && y % 2 != py {
                    fits = fits && color == WALL;
                }
            }
        }
        if fits && nodes > 0 {
            lattices += 1;
        }
    }
    assert_eq!(lattices, 1);
}

#[test]
fn same_seed_same_maze() {
    for seed in [0u64, 1, 38, 12345] {
        let first = generated(15, 11, seed);
        let second = generated(15, 11, seed);
        assert_eq!(first.pixels(), second.pixels());
    }
}

#[test]
fn other_seed_other_maze() {
    let first = generated(21, 21, 1);
    let second = generated(21, 21, 2);
    assert_ne!(first.pixels(), second.pixels());
}

#[test]
fn generated_maze_is_a_tree() {
    for seed in 0..20u64 {
        assert_is_tree(&generated(6, 6, seed));
        assert_is_tree(&generated(9, 7, seed));
        assert_is_tree(&generated(12, 5, seed));
    }
}

#[test]
fn generated_maze_covers_a_lattice() {
    for seed in 0..20u64 {
        assert_covers_a_lattice(&generated(6, 6, seed));
        assert_covers_a_lattice(&generated(9, 7, seed));
        assert_covers_a_lattice(&generated(12, 5, seed));
    }
}

#[test]
fn odd_sized_maze_counts() {
    // On a 7 by 5 grid the lattice of an even cell has 4 * 3 cells and
    // that of an odd cell 3 * 2; a tree on n cells opens 2 n - 1.
    for seed in 0..20u64 {
        let buffer = generated(7, 5, seed);
        let open = path_cells(&buffer).len();
        assert!(open == 23 || open == 11 || open == 15 || open == 17);
        let start_even_x = buffer.at((0, 0)) == PATH || buffer.at((0, 1)) == PATH;
        let start_even_y = buffer.at((0, 0)) == PATH || buffer.at((1, 0)) == PATH;
        let nodes = (if start_even_x { 4 } else { 3 }) * (if start_even_y { 3 } else { 2 });
        assert_eq!(open, 2 * nodes - 1);
    }
}

#[test]
fn golden_maze_is_a_tree_on_nine_cells() {
    let buffer = generated(6, 6, 38);
    assert_is_tree(&buffer);
    assert_covers_a_lattice(&buffer);
    assert_eq!(path_cells(&buffer).len(), 17);
    for (x, y) in [(1, 0), (3, 0), (5, 0), (1, 2), (3, 2), (5, 2), (1, 4), (3, 4), (5, 4)] {
        assert_eq!(buffer.at((x, y)), PATH);
    }
}

#[test]
fn generate_overwrites_what_was_there() {
    let mut buffer = WindowBuffer::new(8, 8);
    buffer.fill(0x123456);
    let mut rng = StdRng::seed_from_u64(7);
    MazeConfig::default().generate(&mut buffer, &mut rng);
    assert_is_tree(&buffer);
    assert_covers_a_lattice(&buffer);
    assert_eq!(buffer.width(), 8);
    assert_eq!(buffer.height(), 8);
}

#[test]
fn generate_uses_the_configured_colors() {
    let config = MazeConfig { path_color: 0x00FF00, wall_color: 0x0000FF };
    let mut buffer = WindowBuffer::new(7, 7);
    let mut rng = StdRng::seed_from_u64(3);
    config.generate(&mut buffer, &mut rng);
    let mut paths = 0;
    for y in 0..7 {
        for x in 0..7 {
            let color = buffer.at((x, y));
            assert!(color == 0x00FF00 || color == 0x0000FF);
            if color == 0x00FF00 {
                paths += 1;
            }
        }
    }
    assert!(paths == 31 || paths == 17 || paths == 23);
}

#[test]
fn tiny_buffers_hold_one_open_cell() {
    for seed in 0..10u64 {
        let one = generated(1, 1, seed);
        assert_eq!(one.pixels(), &vec![PATH]);
        let two = generated(2, 2, seed);
        assert_eq!(path_cells(&two).len(), 1);
        let row = generated(2, 1, seed);
        assert_eq!(path_cells(&row).len(), 1);
    }
}

#[test]
fn narrow_buffer_is_a_corridor() {
    for seed in 0..10u64 {
        let buffer = generated(7, 1, seed);
        let open = path_cells(&buffer).len();
        // From an even column all seven cells open up, from an odd one
        // the five between the two ends.
        assert!(open == 7 || open == 5);
        assert_is_tree(&buffer);
    }
}

#[test]
fn default_config_colors() {
    let config = MazeConfig::default();
    assert_eq!(config.path_color, 0);
    assert_eq!(config.wall_color, u32::MAX);
    assert_eq!(config.clone(), config);
}

#[test]
fn middle_point_values() {
    assert_eq!(middle_point((0, 0), (2, 0)), (1, 0));
    assert_eq!(middle_point((2, 0), (0, 0)), (1, 0));
    assert_eq!(middle_point((3, 5), (3, 7)), (3, 6));
    assert_eq!(middle_point((3, 7), (3, 5)), (3, 6));
    assert_eq!(middle_point((4, 4), (4, 4)), (4, 4));
    assert_eq!(middle_point((4, 1), (0, 9)), (2, 1));
    assert_eq!(middle_point((0, 9), (4, 1)), (2, 9));
    assert_eq!(middle_point((1, 0), (4, 0)), (2, 0));
    assert_eq!(middle_point((usize::MAX, 0), (usize::MAX - 2, 0)), (usize::MAX - 1, 0));
}

#[test]
fn candidates_come_west_east_north_south() {
    let config = MazeConfig::default();
    let mut buffer = WindowBuffer::new(5, 5);
    buffer.fill(WALL);
    assert_eq!(config.candidates(&buffer, (2, 2)), vec![(0, 2), (4, 2), (2, 0), (2, 4)]);
    assert_eq!(config.candidates(&buffer, (0, 0)), vec![(2, 0), (0, 2)]);
    assert_eq!(config.candidates(&buffer, (4, 4)), vec![(2, 4), (4, 2)]);
    assert_eq!(config.candidates(&buffer, (1, 3)), vec![(3, 3), (1, 1)]);
    buffer.set((4, 2), PATH);
    buffer.set((2, 0), 77);
    assert_eq!(config.candidates(&buffer, (2, 2)), vec![(0, 2), (2, 4)]);
    buffer.fill(PATH);
    assert_eq!(config.candidates(&buffer, (2, 2)), vec![]);
}

#[test]
fn candidates_skip_cells_one_step_away() {
    let config = MazeConfig::default();
    let mut buffer = WindowBuffer::new(2, 2);
    buffer.fill(WALL);
    assert_eq!(config.candidates(&buffer, (0, 0)), vec![]);
    assert_eq!(config.candidates(&buffer, (1, 1)), vec![]);
}

#[test]
fn candidates_of_a_cell_outside_lie_inside() {
    let config = MazeConfig::default();
    let mut buffer = WindowBuffer::new(5, 5);
    buffer.fill(WALL);
    assert_eq!(config.candidates(&buffer, (6, 2)), vec![(4, 2)]);
    assert_eq!(config.candidates(&buffer, (5, 2)), vec![(3, 2)]);
    assert_eq!(config.candidates(&buffer, (1, 6)), vec![(1, 4)]);
    assert_eq!(config.candidates(&buffer, (7, 2)), vec![]);
    assert_eq!(config.candidates(&buffer, (usize::MAX, usize::MAX)), vec![]);
    assert_eq!(config.candidates(&buffer, (usize::MAX, 1)), vec![]);
}

#[test]
fn carve_opens_two_cells_and_stacks_the_next() {
    let config = MazeConfig::default();
    let mut buffer = WindowBuffer::new(5, 5);
    buffer.fill(WALL);
    let mut stack = vec![(4, 4)];
    config.carve(&mut buffer, &mut stack, (0, 2), (2, 2), true);
    assert_eq!(stack, vec![(4, 4), (0, 2), (2, 2)]);
    assert_eq!(buffer.at((2, 2)), PATH);
    assert_eq!(buffer.at((1, 2)), PATH);
    assert_eq!(buffer.at((0, 2)), WALL);
    assert_eq!(path_cells(&buffer).len(), 2);

    config.carve(&mut buffer, &mut stack, (2, 2), (2, 0), false);
    assert_eq!(stack, vec![(4, 4), (0, 2), (2, 2), (2, 0)]);
    assert_eq!(buffer.at((2, 0)), PATH);
    assert_eq!(buffer.at((2, 1)), PATH);
    assert_eq!(path_cells(&buffer).len(), 4);
}
