use advent_circuits::day5::{
    cmp_ranges, compact_ranges, merge, overlaps, parse_range, part1, part2, r_len,
};
use advent_circuits::error::PuzzleError;
use std::cmp::Ordering;

const EXAMPLE: &str = "3-5
10-14
16-20
12-18

1
5
8
11
17
32
";

#[test]
fn day5_part1_test() {
    assert_eq!(part1(EXAMPLE).expect("should ok"), "3".to_string());
}

#[test]
fn day5_part2_test() {
    assert_eq!(part2(EXAMPLE).expect("should ok"), "14".to_string());
}

#[test]
fn r_len_test() {
    assert_eq!(r_len(&(1..=4)), 4);
}

#[test]
fn overlaps_test() {
    assert!(overlaps(&(0..=9), &(0..=8)));
    assert!(overlaps(&(0..=9), &(1..=8)));
    assert!(overlaps(&(0..=9), &(5..=12)));
    assert!(overlaps(&(0..=9), &(9..=15)));
    assert!(overlaps(&(0..=9), &(10..=15)));

    assert!(!overlaps(&(0..=9), &(11..=15)));
}

#[test]
fn merge_test() {
    assert_eq!(merge(1..=5, 4..=9), 1..=9);
    assert_eq!(merge(2..=5, 2..=9), 2..=9);
    assert_eq!(merge(1..=5, 4..=5), 1..=5);
    assert_eq!(merge(4..=9, 1..=5), 1..=9);
    assert_eq!(merge(1..=5, 5..=9), 1..=9);
}

#[test]
fn parse_range_test() {
    assert_eq!(
        parse_range("38593856-38593862").expect("works"),
        38593856..=38593862
    );
    assert!(parse_range("hey-ho").is_err());
    assert!(parse_range("1234-").is_err());
    assert!(parse_range("-1234").is_err());
}

#[test]
fn parse_range_trims_parts() {
    assert_eq!(parse_range(" 3 - 7 ").unwrap(), 3..=7);
    assert_eq!(parse_range("37"), Err(PuzzleError::Malformed));
}

#[test]
fn ranges_compare_by_start_then_end() {
    assert_eq!(cmp_ranges(&(1..=5), &(2..=3)), Ordering::Less);
    assert_eq!(cmp_ranges(&(2..=5), &(2..=3)), Ordering::Greater);
    assert_eq!(cmp_ranges(&(2..=3), &(2..=3)), Ordering::Equal);
}

#[test]
fn compaction_merges_overlapping_and_adjacent() {
    let out = compact_ranges(vec![10..=14, 3..=5, 16..=20, 12..=18, 6..=7, 30..=31]);
    assert_eq!(out, vec![3..=7, 10..=20, 30..=31]);
}

#[test]
fn missing_blank_line_is_malformed() {
    assert_eq!(part1("3-5\n1\n"), Err(PuzzleError::Malformed));
    assert_eq!(part2("\n\n1\n"), Err(PuzzleError::TooFewItems));
}

#[test]
fn range_parts_are_trimmed_of_unicode_white_space() {
    assert_eq!(parse_range("\u{a0}3\u{2009}-\u{202f}7").unwrap(), 3..=7);
    assert_eq!(part1("3-5\u{a0}\n\n4\n6\n").unwrap(), "1".to_string());
}
