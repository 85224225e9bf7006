use advent_of_code::aoc::y2024::d01::{part1, part2};
use advent_of_code::aoc::y2024::d01_seq_similarity;

// The puzzle input itself is not part of the repository; this one is built so that
// both answers take the same values.
const INPUT: &str = "22014209   22014209\n30000000   31938424\n";

#[test]
fn d01_seq_similarity_test_part1() {
    assert_eq!(d01_seq_similarity::part1(INPUT), 1938424);
}

#[test]
fn d01_seq_similarity_test_part2() {
    assert_eq!(d01_seq_similarity::part2(INPUT), 22014209);
}

#[test]
fn d01_both_readings_agree() {
    assert_eq!(part1(INPUT), 1938424);
    assert_eq!(part2(INPUT), 22014209);
}

#[test]
fn d01_example_distance() {
    let input = "3   4\n4   3\n2   5\n1   3\n3   9\n3   3\n";
    assert_eq!(part1(input), 11);
}

#[test]
fn d01_example_similarity() {
    let input = "3   4\n4   3\n2   5\n1   3\n3   9\n3   3\n";
    assert_eq!(part2(input), 31);
}
