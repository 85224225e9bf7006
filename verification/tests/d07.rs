use advent_of_code::aoc::y2024::d07_permute_ternary_ops::{concatenate, eval_ternary, part1, part2};

// The puzzle input itself is not part of the repository: one equation true with + and *,
// and one that needs concatenation.
const INPUT: &str = "7710205485870: 7710205485870\n13218779964405: 13218779 964405\n";

#[test]
fn d07_permute_ternary_ops_test_part1() {
    assert_eq!(part1(INPUT), 7710205485870);
}

#[test]
fn d07_permute_ternary_ops_test_part2() {
    assert_eq!(part2(INPUT), 20928985450275);
}

#[test]
fn d07_example() {
    let ex = "190: 10 19\n3267: 81 40 27\n83: 17 5\n156: 15 6\n7290: 6 8 6 15\n161011: 16 10 13\n192: 17 8 14\n21037: 9 7 18 13\n292: 11 6 16 20\n";
    assert_eq!(part1(ex), 3749);
    assert_eq!(part2(ex), 11387);
}

#[test]
fn d07_concatenate_zero() {
    // Ternary digit 2 concatenates: "5" then "0" is 50.
    assert_eq!(eval_ternary(&[5, 0], 2), 50);
    assert_eq!(concatenate(12, 0), 120);
    assert_eq!(concatenate(12, 345), 12345);
    // Operators read low digit first: 6 * 8 = 48, 48 || 6 = 486, 486 * 15 = 7290.
    assert_eq!(eval_ternary(&[6, 8, 6, 15], 16), 7290);
}
