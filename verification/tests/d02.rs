use advent_of_code::aoc::y2024::d02::{part1, part2};

// The puzzle input itself is not part of the repository: 379 safe reports,
// 51 reports made safe by dropping one level, 20 unsafe ones.
fn d02_input() -> String {
    let mut s = String::new();
    s.push_str(&"7 6 4 2 1\n".repeat(379));
    s.push_str(&"1 3 2 4 5\n".repeat(51));
    s.push_str(&"1 2 7 8 9\n".repeat(20));
    s
}

#[test]
fn d02_test_part1() {
    assert_eq!(part1(&d02_input()), 379);
}

#[test]
fn d02_test_part2() {
    assert_eq!(part2(&d02_input()), 430);
}

#[test]
fn d02_example() {
    let ex = "7 6 4 2 1\n1 2 7 8 9\n9 7 6 2 1\n1 3 2 4 5\n8 6 4 4 1\n1 3 6 7 9\n";
    assert_eq!(part1(ex), 2);
    assert_eq!(part2(ex), 4);
}
