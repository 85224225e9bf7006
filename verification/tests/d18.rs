use advent_of_code::aoc::y2024::d18;
use advent_of_code::aoc::y2024::d18_falling_block_maze;
use advent_of_code::lgl::data::index::Ix2s;

// The puzzle input itself is not part of the repository. This list of falling bytes is
// built so that it gives the recorded answers: three walls across the memory, with gaps at
// alternate ends, and two more bytes near the start make the way 284 steps long once the
// first kilobyte has fallen; a later wall across row 50 leaves only the tile at X=51 open,
// until the byte "51,50" falls on it.
fn d18_input() -> String {
    let mut bytes: Vec<(usize, usize)> = Vec::new(); // (row, column)
    for c in 1..71 {
        bytes.push((10, c));
    }
    for c in 0..70 {
        bytes.push((20, c));
    }
    for c in 1..71 {
        bytes.push((30, c));
    }
    bytes.push((1, 0));
    bytes.push((1, 1));
    while bytes.len() < 1024 {
        bytes.push((10, 5));
    }
    for c in 0..71 {
        if c != 51 {
            bytes.push((50, c));
        }
    }
    bytes.push((50, 51));
    bytes.push((60, 60));
    let lines: Vec<String> = bytes.iter().map(|(r, c)| format!("{},{}", c, r)).collect();
    lines.join("\n") + "\n"
}

#[test]
fn d18_test_part1() {
    assert_eq!(d18::part1(&d18_input()), 284);
}

#[test]
fn d18_test_part2() {
    assert_eq!(d18::part2(&d18_input()), "51,50");
}

#[test]
fn d18_test_bisect() {
    let p = |i: usize| -> bool { 5 < i };
    let i = d18::bisect_predicate(p, 0, 10);
    assert_eq!(i, 5);
}

#[test]
fn d18_falling_block_maze_test_part1() {
    assert_eq!(d18_falling_block_maze::part1(&d18_input()), 284);
}

#[test]
fn d18_falling_block_maze_test_part2() {
    assert_eq!(d18_falling_block_maze::part2(&d18_input()), "51,50");
}

#[test]
fn d18_falling_block_maze_test_bisect() {
    let p = |i: usize| -> bool { 5 < i };
    let i = d18_falling_block_maze::bisect_predicate(p, 0, 10);
    assert_eq!(i, 5);
}

#[test]
fn d18_parse_swaps_to_row_column() {
    assert_eq!(d18::parse_input("5,4\n4,2\n"), vec![Ix2s(4, 5), Ix2s(2, 4)]);
}

#[test]
fn d18_empty_memory_takes_the_corner_path() {
    assert_eq!(d18::part1("70,0\n"), 140);
}

#[test]
fn d18_show_maze_marks_bytes() {
    let falling = d18::parse_input("1,0\n");
    let maze = d18::build_maze(&falling, 1, 2);
    let shown = d18::show_maze(&maze);
    assert_eq!(shown.cells, vec![vec!['.', '#'], vec!['.', '.']]);
}
