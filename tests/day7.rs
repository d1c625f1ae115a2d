use advent_circuits::day7::{is_beam_start, is_splitter, part1, part2, BeamState};
use advent_circuits::error::PuzzleError;

const EXAMPLE: &str = ".......S.......
...............
.......^.......
...............
......^.^......
...............
.....^.^.^.....
...............
....^.^...^....
...............
...^.^...^.^...
...............
..^...^.....^..
...............
.^.^.^.^.^...^.
...............
";

#[test]
fn day7_part1_test() {
    assert_eq!(part1(EXAMPLE).expect("should ok"), "21".to_string());
}

#[test]
fn day7_part2_test() {
    assert_eq!(part2(EXAMPLE).expect("should ok"), "40".to_string());
}

#[test]
fn one_splitter_doubles_paths() {
    let mut state = BeamState::initialize("..S..");
    assert_eq!(state.state, vec![0, 0, 1, 0, 0]);
    state.advance("..^..").unwrap();
    assert_eq!(state.state, vec![0, 1, 0, 1, 0]);
    assert_eq!(state.split_events, 1);
    assert_eq!(state.total_world_lines(), Some(2));
    assert!(is_splitter(b'^') && !is_splitter(b'.'));
    assert!(is_beam_start(b'S') && !is_beam_start(b's'));
}

#[test]
fn splitter_at_the_edge_fails() {
    assert!(part1("S..\n^..\n").is_err());
    assert_eq!(part1(""), Err(PuzzleError::TooFewItems));
}
