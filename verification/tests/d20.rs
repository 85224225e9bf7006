use advent_of_code::aoc::y2024::d20_cheat_maze::{count_cheats, part1, part2};
use advent_of_code::lgl::data::array2d::Grid;

const EXAMPLE: &str = "###############
#...#...#.....#
#.#.#.#.#.###.#
#S#...#.#.#...#
#######.#.#.###
#######.#.#...#
#######.#.###.#
###..E#...#...#
###.#######.###
#...###...#...#
#.#####.#.###.#
#.#...#.#.#...#
#.#.#.#.#.#.###
#...#...#...###
###############
";

fn example_maze() -> Grid<bool> {
    let cells: Vec<Vec<bool>> = EXAMPLE.lines().map(|l| l.chars().map(|c| c != '#').collect()).collect();
    let width = cells[0].len();
    Grid { cells, width }
}

// Savings are counted in tiles of the fair path, one more than in steps.
#[test]
fn d20_example_short_cheats() {
    let maze = example_maze();
    assert_eq!(count_cheats(&maze, (3, 1), (7, 5), 2, 65), 1);
    assert_eq!(count_cheats(&maze, (3, 1), (7, 5), 2, 21), 5);
    assert_eq!(count_cheats(&maze, (3, 1), (7, 5), 2, 3), 44);
}

#[test]
fn d20_example_long_cheats() {
    let maze = example_maze();
    assert_eq!(count_cheats(&maze, (3, 1), (7, 5), 20, 77), 3);
    assert_eq!(count_cheats(&maze, (3, 1), (7, 5), 20, 51), 285);
}

#[test]
fn d20_example_parts() {
    // Nothing in the small example saves a hundred tiles.
    assert_eq!(part1(EXAMPLE), 0);
    assert_eq!(part2(EXAMPLE), 0);
}

// The puzzle input itself is not part of the repository, so the recorded answers of the
// two parts (1384 and 1008542) are not checked here; the example above stands for them.
