use advent_circuits::day9::{part1, part2};
use advent_circuits::error::PuzzleError;

const EXAMPLE: &str = "7,1
11,1
11,7
9,7
9,5
2,5
2,3
7,3
";

#[test]
fn day9_part1_test() {
    assert_eq!(part1(EXAMPLE).expect("should ok"), "50".to_string());
}

#[test]
fn rectangle_edge_cases() {
    assert_eq!(part1("1,1\n"), Err(PuzzleError::TooFewItems));
    assert_eq!(part1("1,1\n1,1\n").unwrap(), "1".to_string());
    assert_eq!(part1("0,0\n-2,3\n").unwrap(), "12".to_string());
    assert_eq!(part1("0,0\nx\n"), Err(PuzzleError::Malformed));
    assert_eq!(part2(EXAMPLE), Err(PuzzleError::Unsupported));
}
