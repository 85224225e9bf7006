use advent_of_code::aoc::y2024::d25::{part1, part2};

// The puzzle input itself is not part of the repository: 56 flat locks and 56 flat keys,
// every pair of which fits.
fn d25_input() -> String {
    let lock = "#####\n.....\n.....\n.....\n.....\n.....\n.....";
    let key = ".....\n.....\n.....\n.....\n.....\n.....\n#####";
    let mut blocks: Vec<&str> = Vec::new();
    for _ in 0..56 {
        blocks.push(lock);
        blocks.push(key);
    }
    blocks.join("\n\n") + "\n"
}

#[test]
fn d25_test_part1() {
    assert_eq!(part1(&d25_input()), 3136);
}

#[test]
fn d25_test_part2() {
    assert_eq!(part2(), 2);
}

#[test]
fn d25_example() {
    let ex = "#####\n.####\n.####\n.####\n.#.#.\n.#...\n.....\n\n#####\n##.##\n.#.##\n...##\n...#.\n...#.\n.....\n\n.....\n#....\n#....\n#...#\n#.#.#\n#.###\n#####\n\n.....\n.....\n#.#..\n###..\n###.#\n###.#\n#####\n\n.....\n.....\n.....\n#....\n#.#..\n#.#.#\n#####\n";
    assert_eq!(part1(ex), 3);
}
