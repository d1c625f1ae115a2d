use advent_circuits::day10::{
    bitbutton, bitcount_u32, bitlights, my_machine, part1, part2, r_idx,
    CombinateIndicesRepeated, CombinateIndicesUnrepeated,
};
use advent_circuits::error::PuzzleError;

#[test]
fn bitbutton_test() {
    let test = |slice: &[u32], bits: u32| {
        assert_eq!(bitbutton(slice), bits);
    };
    test(&[3], 0b1000);
    test(&[1, 3], 0b1010);
    test(&[0, 2, 3, 4], 0b11101);
}

#[test]
fn bitlights_test() {
    assert_eq!(bitlights(".##.").unwrap(), 0b0110);
    assert_eq!(bitlights("...#.").unwrap(), 0b01000);
    assert_eq!(bitlights(".###.#").unwrap(), 0b101110);
}

#[test]
fn bitcount_test() {
    let test = |val: u32, num_ones: u32| {
        assert_eq!(bitcount_u32(val), num_ones);
    };
    test(0b10101010, 4);
    test(0b00111, 3);
    test(0b100000110, 3);
    test(u32::MAX, 32);
}

#[test]
fn bitlights_rejects_bad_patterns() {
    assert_eq!(bitlights(".x#"), Err(PuzzleError::Malformed));
    assert_eq!(bitlights(&"#".repeat(33)), Err(PuzzleError::Overflow));
    assert_eq!(bitlights(&"#".repeat(32)), Ok(u32::MAX));
    assert_eq!(bitcount_u32(0), 0);
}

fn collect_unrepeated(mut c: CombinateIndicesUnrepeated) -> Vec<Vec<usize>> {
    let mut out = Vec::new();
    while let Some(v) = c.next() {
        out.push(v);
    }
    out
}

fn collect_repeated(mut c: CombinateIndicesRepeated) -> Vec<Vec<usize>> {
    let mut out = Vec::new();
    while let Some(v) = c.next() {
        out.push(v);
    }
    out
}

#[test]
fn combinate_indices_unrepeating_test() {
    let thing = CombinateIndicesUnrepeated::try_new(0..5, 3).unwrap();
    let expect: Vec<Vec<usize>> = vec![
        vec![0, 1, 2],
        vec![0, 1, 3],
        vec![0, 1, 4],
        vec![0, 2, 3],
        vec![0, 2, 4],
        vec![0, 3, 4],
        vec![1, 2, 3],
        vec![1, 2, 4],
        vec![1, 3, 4],
        vec![2, 3, 4],
    ];
    let outcome = collect_unrepeated(thing);
    assert_eq!(outcome, expect);

    let small = CombinateIndicesUnrepeated::try_new(0..5, 5).unwrap();
    let expect: Vec<Vec<usize>> = vec![vec![0, 1, 2, 3, 4]];
    let outcome = collect_unrepeated(small);
    assert_eq!(outcome, expect);

    let wrong = CombinateIndicesUnrepeated::try_new(0..5, 6);
    assert!(wrong.is_err());
}

#[test]
fn combinate_indices_repeating_test() {
    let thing = CombinateIndicesRepeated::new(0..5, 3);
    let expect: Vec<Vec<usize>> = vec![
        vec![0, 0, 0],
        vec![0, 0, 1],
        vec![0, 0, 2],
        vec![0, 0, 3],
        vec![0, 0, 4],
        vec![0, 1, 1],
        vec![0, 1, 2],
        vec![0, 1, 3],
        vec![0, 1, 4],
        vec![0, 2, 2],
        vec![0, 2, 3],
        vec![0, 2, 4],
        vec![0, 3, 3],
        vec![0, 3, 4],
        vec![0, 4, 4],
        vec![1, 1, 1],
        vec![1, 1, 2],
        vec![1, 1, 3],
        vec![1, 1, 4],
        vec![1, 2, 2],
        vec![1, 2, 3],
        vec![1, 2, 4],
        vec![1, 3, 3],
        vec![1, 3, 4],
        vec![1, 4, 4],
        vec![2, 2, 2],
        vec![2, 2, 3],
        vec![2, 2, 4],
        vec![2, 3, 3],
        vec![2, 3, 4],
        vec![2, 4, 4],
        vec![3, 3, 3],
        vec![3, 3, 4],
        vec![3, 4, 4],
        vec![4, 4, 4],
    ];
    let outcome = collect_repeated(thing);
    assert_eq!(outcome, expect);

    let small = CombinateIndicesRepeated::new(0..1, 5);
    let expect: Vec<Vec<usize>> = vec![vec![0, 0, 0, 0, 0]];
    let outcome = collect_repeated(small);
    assert_eq!(outcome, expect);
}

#[test]
fn index_into_range() {
    assert_eq!(r_idx(&(3..6), 2), Some(5));
    assert_eq!(r_idx(&(3..6), 3), None);
}

const EXAMPLE: &str = "[.##.] (3) (1,3) (2) (2,3) (0,2) (0,1) {3,5,4,7}
[...#.] (0,2,3,4) (2,3) (0,4) (0,1,2) (1,2,3,4) {7,5,12,7,2}
[.###.#] (0,1,2,3,4) (0,3,4) (0,1,2,4,5) (1,2) {10,11,11,5,10,5}
";

#[test]
fn day10_part1_test() {
    assert_eq!(part1(EXAMPLE).expect("should ok"), "7".to_string());
}

#[test]
fn machine_lines_parse() {
    let m = my_machine("[.##.] (3) (1,3) {3,5}").unwrap();
    assert_eq!(m.desired_lights, 0b0110);
    assert_eq!(m.buttons, vec![0b1000, 0b1010]);
    assert_eq!(m.joltage_reqs, vec![3, 5]);
    assert_eq!(m.brute_force_lights_button_counts(), Err(PuzzleError::Unsolvable));
    assert!(my_machine("[.#] (0)").is_none());
    assert!(my_machine("[.#] (x) {1}").is_none());
    assert!(my_machine("[.#]  (0) {1}").is_none());
    assert_eq!(my_machine("[.#] (1) {1}").unwrap().brute_force_lights_button_counts(), Ok(1));
    assert_eq!(part2(EXAMPLE), Err(PuzzleError::Unsupported));
}
