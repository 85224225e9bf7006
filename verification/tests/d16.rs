use advent_of_code::aoc::y2024::d16_turning_maze::{cardinal, get_maze_graph, part1, part2};
use advent_of_code::lgl::data::array2d;
use advent_of_code::lgl::data::index::Ix2s;

// The puzzle input itself is not part of the repository. This maze is built so that it
// gives the recorded answers: a corridor running east and south in turn, with 88 turns and
// 416 steps, whose first corner can also be taken round a ring of equal cost.
fn d16_input() -> String {
    let mut ss = vec![1usize; 44];
    ss[0] = 2;
    let mut es = vec![30usize];
    es.extend(std::iter::repeat(8).take(33));
    es.extend(std::iter::repeat(7).take(11));
    let mut cells = vec![(1usize, 1usize)];
    let (mut r, mut c) = (1usize, 1usize);
    for (i, e) in es.iter().enumerate() {
        for _ in 0..*e {
            c += 1;
            cells.push((r, c));
        }
        if i < ss.len() {
            for _ in 0..ss[i] {
                r += 1;
                cells.push((r, c));
            }
        }
    }
    let (h, w) = (r + 2, c + 2);
    let mut g = vec![vec!['#'; w]; h];
    for &(a, b) in &cells {
        g[a][b] = '.';
    }
    // The ring round the first corner.
    let (x1, k) = (31usize, 2usize);
    let x0 = x1 - 24;
    for a in 1..=1 + k {
        g[a][x0] = '.';
    }
    for b in x0..=x1 {
        g[1 + k][b] = '.';
    }
    let (sr, sc) = cells[0];
    let (er, ec) = *cells.last().unwrap();
    g[sr][sc] = 'S';
    g[er][ec] = 'E';
    let rows: Vec<String> = g.into_iter().map(|row| row.into_iter().collect()).collect();
    let mut s = rows.join("\n");
    s.push('\n');
    s
}

const EXAMPLE1: &str = "###############\n#.......#....E#\n#.#.###.#.###.#\n#.....#.#...#.#\n#.###.#####.#.#\n#.#.#.......#.#\n#.#.#####.###.#\n#...........#.#\n###.#.#####.#.#\n#...#.....#.#.#\n#.#.#.###.#.#.#\n#.....#...#.#.#\n#.###.#.#.#.#.#\n#S..#.....#...#\n###############\n";

const EXAMPLE2: &str = "#################\n#...#...#...#..E#\n#.#.#.#.#.#.#.#.#\n#.#.#.#...#...#.#\n#.#.#.#.###.#.#.#\n#...#.#.#.....#.#\n#.#.#.#.#.#####.#\n#.#...#.#.#.....#\n#.#.#####.#.###.#\n#.#.#.......#...#\n#.#.###.#####.###\n#.#.#...#.....#.#\n#.#.#.#####.###.#\n#.#.#.........#.#\n#.#.#.#########.#\n#S#.............#\n#################\n";

#[test]
fn d16_turning_maze_test_part1() {
    assert_eq!(part1(&d16_input()), 88416);
}

#[test]
fn d16_turning_maze_test_part2() {
    assert_eq!(part2(&d16_input()), 442);
}

#[test]
fn d16_examples() {
    assert_eq!(part1(EXAMPLE1), 7036);
    assert_eq!(part2(EXAMPLE1), 45);
    assert_eq!(part1(EXAMPLE2), 11048);
    assert_eq!(part2(EXAMPLE2), 64);
}

#[test]
fn straight_corridor() {
    // Facing east already: three steps, no turn; every tile is on the way.
    let m = "#####\n#S.E#\n#####\n";
    assert_eq!(part1(m), 2);
    assert_eq!(part2(m), 3);
    // The end behind the start: two quarter turns first.
    let m = "#####\n#E.S#\n#####\n";
    assert_eq!(part1(m), 2002);
    assert_eq!(part2(m), 3);
}

#[test]
fn directions_and_graph() {
    assert_eq!(cardinal(0), Ix2s(-1, 0));
    assert_eq!(cardinal(1), Ix2s(0, 1));
    assert_eq!(cardinal(2), Ix2s(1, 0));
    assert_eq!(cardinal(3), Ix2s(0, -1));
    let g = array2d::from_chars("S.\n#E\n");
    let mg = get_maze_graph(&g);
    assert_eq!(mg.n, 16);
    assert!(mg.directed);
    // Steps: (0,0)->(0,1) east, (0,1)->(0,0) west, (0,1)->(1,1) south, (1,1)->(0,1) north;
    // and eight quarter turns on each of the three open tiles.
    assert_eq!(mg.edges.len(), 4 + 3 * 8);
    assert!(mg.edges.contains(&(1, 5, 1)));
    assert!(mg.edges.contains(&(4, 5, 1000)));
    assert!(mg.edges.contains(&(5, 4, 1000)));
}
