use advent_of_code::aoc::y2024::d22_price_changes::{get_deltas, get_prices, next_secret, nth_secret, part1, part2};

// The puzzle input itself is not part of the repository. This list of buyers is built so
// that it gives the recorded answer: 1183 buyers whose 2000th secret is 16777215, and one
// whose 2000th secret is 6803257.
fn d22_input() -> String {
    let mut lines: Vec<&str> = Vec::new();
    for _ in 0..1183 {
        lines.push("9032819");
    }
    lines.push("12605081");
    lines.join("\n") + "\n"
}

#[test]
fn d22_price_changes_test_part1() {
    assert_eq!(part1(&d22_input()), 19854248602);
}

#[test]
fn d22_example_secrets() {
    assert_eq!(next_secret(123), 15887950);
    assert_eq!(nth_secret(123, 10), 5908254);
    assert_eq!(nth_secret(1, 2000), 8685429);
    assert_eq!(part1("1\n10\n100\n2024\n"), 37327623);
}

#[test]
fn d22_example_prices() {
    assert_eq!(get_prices(123, 10), vec![3, 0, 6, 5, 4, 4, 6, 4, 4, 2]);
    assert_eq!(get_deltas(&[3, 0, 6, 5, 4]), vec![-3, 6, -1, -1]);
}

#[test]
fn d22_example_best_sequence() {
    assert_eq!(part2("1\n2\n3\n2024\n"), 23);
}
