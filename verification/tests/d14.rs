use advent_of_code::aoc::y2024::d14::{get_quadrant_1d, parse_input, part1, part2, pos_key_of, rem_euclid, vmod, Robot};
use advent_of_code::lgl::data::index::Ix2s;

// The puzzle input itself is not part of the repository. These robots are built so that they
// give the recorded answer: after 100 seconds, 139, 143, 102 and 108 robots stand in the four
// quadrants (139 * 143 * 102 * 108 = 218965032).
fn d14_input() -> String {
    let counts = [139i64, 143, 102, 108];
    let corners = [(3i64, 5i64), (60, 7), (9, 60), (77, 60)];
    let vels = [(2i64, -3i64), (-1, 4), (5, 5), (-7, -2), (0, 1)];
    let mut lines: Vec<String> = Vec::new();
    for q in 0..4 {
        for k in 0..counts[q] {
            let (fx, fy) = (corners[q].0 + k % 20, corners[q].1 + k % 30);
            let (vx, vy) = vels[(k % 5) as usize];
            let px = (fx - 100 * vx).rem_euclid(101);
            let py = (fy - 100 * vy).rem_euclid(103);
            lines.push(format!("p={},{} v={},{}", px, py, vx, vy));
        }
    }
    lines.join("\n") + "\n"
}

#[test]
fn d14_test_part1() {
    assert_eq!(part1(&d14_input()), 218965032);
}

#[test]
fn d14_example_robot_moves() {
    let robots = parse_input("p=2,4 v=2,-3\n");
    let r = robots[0].tick(5, Ix2s(11, 7));
    assert_eq!(r.pos, Ix2s(1, 3));
    assert_eq!(rem_euclid(-7, 3), 2);
    assert_eq!(vmod(Ix2s(-1, 12), Ix2s(11, 7)), Ix2s(10, 5));
}

#[test]
fn d14_quadrants() {
    assert_eq!(get_quadrant_1d(49, 101), Some(0));
    assert_eq!(get_quadrant_1d(50, 101), None);
    assert_eq!(get_quadrant_1d(51, 101), Some(1));
}

#[test]
fn d14_picture_counts_robots() {
    let map = part2("p=0,0 v=0,0\np=0,0 v=0,0\np=5,6 v=0,0\n");
    assert_eq!(map.get(&pos_key_of(Ix2s(0, 0))), Some(&2));
    assert_eq!(map.get(&pos_key_of(Ix2s(5, 6))), Some(&1));
    assert_eq!(map.len(), 2);
    let _ = Robot { pos: Ix2s(0, 0), vel: Ix2s(0, 0) };
}
