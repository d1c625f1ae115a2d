use advent_circuits::day3::{load_bank, part1, part2, process_bank_part1, process_bank_part2};
use advent_circuits::error::PuzzleError;

const EXAMPLE: &str = "987654321111111
811111111111119
234234234234278
818181911112111
";

#[test]
fn day3_part1_test() {
    assert_eq!(part1(EXAMPLE).expect("should ok"), "357".to_string());
}

#[test]
fn day3_part_2_test() {
    assert_eq!(
        part2(EXAMPLE).expect("should ok"),
        "3121910778619".to_string()
    );
}

#[test]
fn slicing_test() {
    let s = &[0, 1, 2, 3, 4];
    assert_eq!(&s[0..(s.len() - 1)], &[0, 1, 2, 3]);
}

#[test]
fn bank_choices_keep_order() {
    let mut bank = Vec::new();
    assert!(load_bank(&mut bank, b"818181911112111"));
    assert_eq!(process_bank_part1(&bank), 92);
    assert_eq!(process_bank_part2(&bank, 12), 888911112111);
    assert!(!load_bank(&mut bank, b"12a4"));
}

#[test]
fn short_or_bad_banks_fail() {
    assert_eq!(part2("12345\n"), Err(PuzzleError::TooFewItems));
    assert_eq!(part1("12x\n"), Err(PuzzleError::Malformed));
    assert_eq!(part1("").unwrap(), "0".to_string());
}
