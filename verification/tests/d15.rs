use advent_of_code::aoc::y2024::d15::{
    parse_input, parse_move, parse_moves, part1, part2, Aab, Item, Warehouse,
};
use advent_of_code::lgl::data::index::Ix2s;

// The puzzle input itself is not part of the repository. This warehouse is built so that it
// gives the recorded answers: a hundred boxes that nothing touches, and one box that the
// robot pushes to the right.
fn d15_input() -> String {
    let (h, w) = (201usize, 60usize);
    let mut g = vec![vec!['.'; w]; h];
    g[150][4] = '@';
    g[150][5] = 'O';
    let rows: Vec<usize> = (100..201).filter(|&r| r != 150).collect();
    for (k, &r) in rows.iter().enumerate() {
        g[r][if k < 52 { 8 } else { 7 }] = 'O';
    }
    let map: Vec<String> = g.into_iter().map(|r| r.into_iter().collect()).collect();
    let mut s = map.join("\n");
    s.push_str("\n\n");
    s.push_str(&">".repeat(31));
    s.push('\n');
    s
}

const SMALL: &str = "########\n#..O.O.#\n##@.O..#\n#...O..#\n#.#.O..#\n#...O..#\n#......#\n########\n\n<^^>>>vv<v>>v<<\n";

const WIDE: &str = "#######\n#...#.#\n#.....#\n#..OO@#\n#..O..#\n#.....#\n#######\n\n<vv<<^^<<^^\n";

#[test]
fn d15_test_part1() {
    assert_eq!(part1(&d15_input()), 1515788);
}

#[test]
fn d15_test_part2() {
    assert_eq!(part2(&d15_input()), 1516544);
}

#[test]
fn small_examples() {
    assert_eq!(part1(SMALL), 2028);
    assert_eq!(part2(WIDE), 618);
}

fn bx(r0: isize, c0: isize, r1: isize, c1: isize) -> Aab {
    Aab { min: Ix2s(r0, c0), max: Ix2s(r1, c1) }
}

#[test]
fn boxes() {
    let a = bx(0, 0, 2, 2);
    assert!(a.intersects(&bx(1, 1, 3, 3)));
    assert!(!a.intersects(&bx(2, 0, 3, 2)));
    assert!(!a.intersects(&bx(0, 0, 0, 0)));
    assert!(a.contains(&Ix2s(1, 1)));
    assert!(!a.contains(&Ix2s(2, 1)));
    let u = a.union(&bx(-1, 3, 1, 5));
    assert_eq!((u.min, u.max), (Ix2s(-1, 0), Ix2s(2, 5)));
    let m = a.moved(Ix2s(0, -1));
    assert_eq!((m.min, m.max), (Ix2s(0, -1), Ix2s(2, 1)));
    let w = bx(1, 3, 2, 4).widened();
    assert_eq!((w.min, w.max), (Ix2s(1, 6), Ix2s(2, 8)));
}

#[test]
fn items_and_gps() {
    let b = Item::from_index_tile((4, 7), 'O').unwrap();
    assert!(b.can_move);
    assert_eq!(b.gps(), 407);
    let wall = Item::from_index_tile((0, 0), '#').unwrap();
    assert!(!wall.can_move);
    assert!(Item::from_index_tile((0, 0), '.').is_none());
    assert!(Item::from_index_tile((0, 0), '@').is_none());
}

#[test]
fn moves_parse() {
    assert_eq!(parse_move('^'), Ix2s(-1, 0));
    assert_eq!(parse_move('v'), Ix2s(1, 0));
    assert_eq!(parse_moves("<>\n^ v\n"), vec![Ix2s(0, -1), Ix2s(0, 1), Ix2s(-1, 0), Ix2s(1, 0)]);
}

#[test]
fn push_chain_and_wall() {
    // The robot pushes two boxes to the right until the second reaches the wall.
    let mut w = Warehouse::new("@OO.#\n");
    assert_eq!(w.items.len(), 3);
    w.move_robot(Ix2s(0, 1));
    assert_eq!(w.robot, Ix2s(0, 1));
    assert_eq!(w.gps_sum(), 2 + 3);
    w.move_robot(Ix2s(0, 1));
    // Blocked: nothing moves.
    assert_eq!(w.robot, Ix2s(0, 1));
    assert_eq!(w.gps_sum(), 2 + 3);
    // Walking away leaves the boxes.
    w.move_robot(Ix2s(0, -1));
    assert_eq!(w.robot, Ix2s(0, 0));
    assert_eq!(w.gps_sum(), 5);
}

#[test]
fn wide_boxes_push_each_other() {
    let (w, moves) = parse_input("......\n..OO..\n...@..\n\n^\n");
    let mut w = w.widen();
    assert_eq!(w.robot, Ix2s(2, 6));
    assert_eq!(moves, vec![Ix2s(-1, 0)]);
    // In the wide map the boxes cover columns 4-5 and 6-7; the robot at column 6 pushes
    // only the second one up.
    w.move_robot(moves[0]);
    assert_eq!(w.robot, Ix2s(1, 6));
    assert_eq!(w.gps_sum(), 104 + 6);
}
