use advent_circuits::day2::{
    first_even_digited_number_from, first_repeatable_digit_sequence_from, is_repeaty, part1,
    part2, process_range_part1, repeat_digits, Digits,
};
use advent_circuits::error::PuzzleError;

const EXAMPLE: &str = "11-22,95-115,998-1012,1188511880-1188511890,222220-222224,1698522-1698528,446443-446449,38593856-38593862,565653-565659,824824821-824824827,2121212118-2121212124";

#[test]
fn day2_part1_test() {
    assert_eq!(
        part1(EXAMPLE).expect("should ok"),
        "1227775554".to_string()
    );
}

#[test]
fn div_ceil_is_neat() {
    assert_eq!(5_u32.div_ceil(2), 3);
    assert_eq!(6_u32.div_ceil(2), 3);
    assert_eq!(0_u32.div_ceil(2), 0);
}

#[test]
fn first_even_from_test() {
    assert_eq!(first_even_digited_number_from(0), 10);
    assert_eq!(first_even_digited_number_from(1), 10);
    assert_eq!(first_even_digited_number_from(10), 10);
    assert_eq!(first_even_digited_number_from(11), 11);
    assert_eq!(first_even_digited_number_from(81), 81);
    assert_eq!(first_even_digited_number_from(230), 1000);
    assert_eq!(first_even_digited_number_from(1000), 1000);
    assert_eq!(first_even_digited_number_from(2153), 2153);
    assert_eq!(first_even_digited_number_from(55555), 100000);
}

#[test]
fn first_repeatable_from_test() {
    assert_eq!(first_repeatable_digit_sequence_from(0), 1);
    assert_eq!(first_repeatable_digit_sequence_from(1), 1);
    assert_eq!(first_repeatable_digit_sequence_from(9), 1);
    assert_eq!(first_repeatable_digit_sequence_from(10), 1);
    assert_eq!(first_repeatable_digit_sequence_from(11), 1);
    assert_eq!(first_repeatable_digit_sequence_from(12), 1);
    assert_eq!(first_repeatable_digit_sequence_from(20), 2);
    assert_eq!(first_repeatable_digit_sequence_from(24), 2);
    assert_eq!(first_repeatable_digit_sequence_from(666), 10);
    assert_eq!(first_repeatable_digit_sequence_from(2456), 24);
    assert_eq!(first_repeatable_digit_sequence_from(57382), 100);
}

#[test]
fn repeat_digits_test() {
    assert_eq!(repeat_digits(123), 123123);
    assert_eq!(repeat_digits(1), 11);
    assert_eq!(repeat_digits(22), 2222);
}

#[test]
fn is_repeaty_test() {
    assert!(is_repeaty(11));
    assert!(is_repeaty(111));
    assert!(is_repeaty(2424));
    assert!(is_repeaty(242424));
    assert!(is_repeaty(456456456));

    assert!(!is_repeaty(1));
    assert!(!is_repeaty(0));
    assert!(!is_repeaty(24));
    assert!(!is_repeaty(101011));
}

#[test]
fn digits_iterator_test() {
    assert_eq!(Digits::new(4852798).count(), 7);
    assert_eq!(Digits::new(1).count(), 1);
    assert_eq!(Digits::new(0).count(), 1);
    assert_eq!(Digits::new(10).count(), 2);
    assert_eq!(Digits::new(666).count(), 3);
    assert_eq!(Digits::new(1000).count(), 4);
    assert_eq!(Digits::new(4852798).len(), 7);
    assert_eq!(Digits::new(1).len(), 1);
    assert_eq!(Digits::new(0).len(), 1);
    assert_eq!(Digits::new(10).len(), 2);
    assert_eq!(Digits::new(666).len(), 3);
    assert_eq!(Digits::new(1000).len(), 4);

    let mut d = Digits::new(4852798);
    assert_eq!(d.next(), Some(4));
    assert_eq!(d.next(), Some(8));
    assert_eq!(d.next(), Some(5));
    assert_eq!(d.next(), Some(2));
    assert_eq!(d.next(), Some(7));
    assert_eq!(d.next(), Some(9));
    assert_eq!(d.next(), Some(8));
    assert_eq!(d.next(), None);
    assert_eq!(d.next(), None);
}

#[test]
fn digits_with_interval_test() {
    assert_eq!(Digits::new_with_interval(245896, 2).len(), 3);
    assert_eq!(Digits::new_with_interval(245896, 2).count(), 3);
    let mut d = Digits::new_with_interval(245896, 2);
    assert_eq!(d.next(), Some(24));
    assert_eq!(d.next(), Some(58));
    assert_eq!(d.next(), Some(96));
    assert!(d.next().is_none());

    assert_eq!(Digits::new_with_interval(245896, 3).len(), 2);
    assert_eq!(Digits::new_with_interval(245896, 3).count(), 2);
    let mut d = Digits::new_with_interval(245896, 3);
    assert_eq!(d.next(), Some(245));
    assert_eq!(d.next(), Some(896));
    assert!(d.next().is_none());

    assert_eq!(Digits::new_with_interval(3588769, 2).len(), 4);
    assert_eq!(Digits::new_with_interval(3588769, 2).count(), 4);
    let mut d = Digits::new_with_interval(3588769, 2);
    assert_eq!(d.next(), Some(35));
    assert_eq!(d.next(), Some(88));
    assert_eq!(d.next(), Some(76));
    assert_eq!(d.next(), Some(9));
    assert!(d.next().is_none());

    assert_eq!(Digits::new_with_interval(30050, 2).len(), 3);
    assert_eq!(Digits::new_with_interval(30050, 2).count(), 3);
    let mut d = Digits::new_with_interval(30050, 2);
    assert_eq!(d.next(), Some(30));
    assert_eq!(d.next(), Some(5));
    assert_eq!(d.next(), Some(0));
    assert!(d.next().is_none());
}

#[test]
fn range_sums_and_errors() {
    assert_eq!(process_range_part1(11..=22), Ok(33));
    assert_eq!(process_range_part1(1..=9), Ok(0));
    assert_eq!(part1("11-22,"), Err(PuzzleError::Malformed));
    assert_eq!(part2(EXAMPLE), Err(PuzzleError::Unsupported));
}
