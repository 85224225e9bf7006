use advent_of_code::aoc::y2024::d06::{parse_guard_dir, parse_input, part1, part2};

const EXAMPLE: &str = "....#.....\n.........#\n..........\n..#.......\n.......#..\n..........\n.#..^.....\n........#.\n#.........\n......#...\n";

#[test]
fn example_lab() {
    assert_eq!(part1(EXAMPLE), 41);
    assert_eq!(part2(EXAMPLE), 6);
}

#[test]
fn straight_out() {
    // Facing right from the middle: two cells, and no obstruction can trap it.
    assert_eq!(part1("...\n.>.\n...\n"), 2);
    assert_eq!(part2("...\n.>.\n...\n"), 0);
}

#[test]
fn turning() {
    // Up into a wall, turns right into another, turns down and walks out.
    assert_eq!(part1(".#.\n..#\n.^.\n#..\n"), 3);
    assert_eq!(part2(".#.\n..#\n.^.\n#..\n"), 0);
}

#[test]
fn reading() {
    assert_eq!(parse_guard_dir('^'), Some(0));
    assert_eq!(parse_guard_dir('<'), Some(3));
    assert_eq!(parse_guard_dir('#'), None);
    let (obs, g, w) = parse_input("#.\n.v\n");
    assert_eq!(obs, vec![vec![true, false], vec![false, false]]);
    assert_eq!(g, (1, 1, 2));
    assert_eq!(w, 2);
}
