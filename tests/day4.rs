use advent_circuits::day4::{build_grid, part1, part2, width_of_ascii_grid};
use advent_circuits::error::PuzzleError;
use advent_circuits::grid::{traverse, Dir, Grid};

const EXAMPLE: &str = "..@@.@@@@.
@@@.@.@.@@
@@@@@.@.@@
@.@@@@..@.
@@.@@@@.@@
.@@@@@@@.@
.@.@.@.@@@
@.@@@.@@@@
.@@@@@@@@.
@.@.@@@.@.
";

#[test]
fn day4_part1_test() {
    assert_eq!(part1(EXAMPLE).expect("should ok"), "13".to_string());
}

#[test]
fn day4_part2_test() {
    assert_eq!(part2(EXAMPLE).expect("should ok"), "43".to_string());
}

#[test]
fn width_test() {
    assert_eq!(width_of_ascii_grid(EXAMPLE), 10);
    assert_eq!(width_of_ascii_grid("\n"), 0);
}

#[test]
fn byte_char_test() {
    let s = "
hey";
    assert_eq!(s.bytes().next(), Some(b'\n'));
}

#[test]
fn ragged_picture_is_rejected() {
    assert_eq!(part1("@@\n@\n").err(), Some(PuzzleError::GridShape));
    assert_eq!(part1("").err(), Some(PuzzleError::TooFewItems));
}

#[test]
fn grid_lookups() {
    let g = build_grid("@.\n.@\n@@\n").ok().unwrap();
    assert_eq!(g.width, 2);
    assert_eq!(g.index((1, 2)), Some(5));
    assert_eq!(g.index((2, 0)), None);
    assert_eq!(g.coords(5), (1, 2));
    assert_eq!(g.get((1, 1)), Some(&true));
    assert_eq!(g.get((0, 3)), None);
    assert_eq!(g.get_neighbor((0, 0), Dir::SE), Some(&true));
    assert_eq!(g.get_neighbor((0, 0), Dir::N), None);
    assert_eq!(g.count_occupied_neighbors((0, 1)), 4);
    assert_eq!(g.iter_occupied_indices(), vec![0, 3, 4, 5]);
}

#[test]
fn traverse_steps() {
    assert_eq!(traverse((0, 0), Dir::NW), None);
    assert_eq!(traverse((3, 3), Dir::NE), Some((4, 2)));
    assert_eq!(traverse((3, 3), Dir::SW), Some((2, 4)));
}

#[test]
fn grid_shape_check() {
    assert!(Grid::try_new(3, vec![1, 2, 3, 4, 5, 6]).is_ok());
    assert!(Grid::try_new(4, vec![1, 2, 3, 4, 5, 6]).is_err());
    assert!(Grid::<u8>::try_new(0, vec![]).is_ok());
}

#[test]
fn eviction_sweep_counts() {
    let mut g = build_grid("@@@\n@@@\n@@@\n").ok().unwrap();
    // Corners have three neighbours; after they go, the edges have fewer too.
    let first = g.evict_and_count();
    assert!(first >= 4);
    assert_eq!(part2("@@@\n@@@\n@@@\n").unwrap(), "9".to_string());
}
