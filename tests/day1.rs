use advent_circuits::day1::{
    _wrap100_and_count_zeroes, parse_rot_i32, part1, part2, turn_wrap_and_count_zeros, wrap100,
};
use advent_circuits::error::PuzzleError;

const TEST_INPUTS: &str = "L68
L30
R48
L5
R60
L55
L1
L99
R14
L82
";

#[test]
fn turn_wrap_count_test() {
    assert_eq!(turn_wrap_and_count_zeros(0, 100), (0, 1));
    assert_eq!(turn_wrap_and_count_zeros(1, 50), (51, 0));
    assert_eq!(turn_wrap_and_count_zeros(0, -50), (50, 0));
    assert_eq!(turn_wrap_and_count_zeros(0, -100), (0, 1));

    assert_eq!(turn_wrap_and_count_zeros(50, -68), (82, 1));
    assert_eq!(turn_wrap_and_count_zeros(82, -30), (52, 0));
    assert_eq!(turn_wrap_and_count_zeros(52, 48), (0, 1));
    assert_eq!(turn_wrap_and_count_zeros(16, -16), (0, 1));
    assert_eq!(turn_wrap_and_count_zeros(16, -116), (0, 2));
    assert_eq!(turn_wrap_and_count_zeros(16, -115), (1, 1));
}

#[test]
fn wrap_count_test() {
    assert_eq!(_wrap100_and_count_zeroes(50), (50, 0));
    assert_eq!(_wrap100_and_count_zeroes(-50), (50, 1));
    assert_eq!(_wrap100_and_count_zeroes(100), (0, 1));
    assert_eq!(_wrap100_and_count_zeroes(201), (1, 2));

    assert_eq!(_wrap100_and_count_zeroes(50 - 68), (82, 1));
}

#[test]
fn day1_part1_test() {
    assert_eq!(part1(TEST_INPUTS).unwrap(), "3".to_string());
}

#[test]
fn day1_part2_test() {
    assert_eq!(part2(TEST_INPUTS).unwrap(), "6".to_string());
}

#[test]
fn mod100() {
    assert_eq!(100_i32 % 100, 0);
    assert_eq!(-101_i32 % 100, -1);
    assert_eq!(-0_i32, 0);
    assert_eq!(wrap100(50_i32 - 68), 82);
}

#[test]
fn parser() {
    assert_eq!(parse_rot_i32("L30"), Ok(-30));
    assert_eq!(parse_rot_i32("L101"), Ok(-101));
    assert_eq!(parse_rot_i32("R14"), Ok(14));
    assert!(parse_rot_i32("r14").is_err());
    assert!(parse_rot_i32("14").is_err());
}

#[test]
fn parser_trims_and_rejects() {
    assert_eq!(parse_rot_i32("  R7 \t"), Ok(7));
    assert_eq!(parse_rot_i32(""), Err(PuzzleError::Malformed));
    assert_eq!(parse_rot_i32("L"), Err(PuzzleError::Malformed));
    assert_eq!(parse_rot_i32("R2147483648"), Err(PuzzleError::Malformed));
}

#[test]
fn bad_line_fails_the_run() {
    assert_eq!(part1("L5\nX9\n"), Err(PuzzleError::Malformed));
    assert_eq!(part2("R1\n\n"), Err(PuzzleError::Malformed));
}

#[test]
fn big_turns_count_every_pass() {
    assert_eq!(wrap100(-250), 50);
    assert_eq!(turn_wrap_and_count_zeros(50, 1000), (50, 10));
    assert_eq!(part2("R1000\nL1000\n").unwrap(), "20".to_string());
    assert_eq!(part1("R50\nL100\n").unwrap(), "2".to_string());
}

#[test]
fn lines_are_trimmed_of_unicode_white_space() {
    assert_eq!(part1("\u{a0}R50\u{3000}\r\nL100 \n").unwrap(), "2".to_string());
    assert_eq!(parse_rot_i32("\u{2003}L7\u{85}"), Ok(-7));
}
