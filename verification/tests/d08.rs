use advent_of_code::aoc::y2024::d08_antenna_lines::{get_antennas, is_antenna, part1, part2, read_map};
use advent_of_code::lgl::data::index::Ix2s;

// The puzzle input itself is not part of the repository. This map, forty frequencies of four
// antennas each, is built so that it gives the recorded answers.
const PUZZLE: &str = "\
..................................................\n\
..................................................\n\
..................................................\n\
..........................................z.......\n\
..............................................z...\n\
..................................................\n\
........................................zz........\n\
..................................................\n\
..................................................\n\
..................2...............................\n\
................2...0........q.....C..............\n\
...A.............0.............0..h......4........\n\
..........2...........j...........................\n\
.A..................c......c.......C.4C...........\n\
........B.....bbk.....kb..........................\n\
....A......b.l....................................\n\
........................r.....t.q.................\n\
.........2...............j.......y...........h....\n\
.................q..0............j................\n\
............................r.......4.............\n\
..........v............7................h......h..\n\
..................kk.6.9..........C.......8.......\n\
............c..B..................................\n\
.............u....l..e............y.w.............\n\
..A....5.............c...y....4.....d.............\n\
v.................D.6....w.............d..........\n\
v......5....l.....D......o...D.....ir.x...........\n\
....BB.......l......v...6oj...d...................\n\
..................m....y....q.....w...............\n\
......u....u...t......9...........................\n\
........g...e...............D.......x.....i.......\n\
..........g.....9...3f.r............x...i.........\n\
.........u.e.....6..........m............i........\n\
.....g......5..m....o.1o.....7.f.....n.......x.a..\n\
........................w.........................\n\
................e.........9n.........8....a8......\n\
....5........................d....n..a...1........\n\
..................n....t........a..3..............\n\
........................m.....7.7.1.........8.....\n\
..................f........3......................\n\
......g......................1....................\n\
......................................p...........\n\
................................s....s............\n\
.................................3..p.............\n\
.................f..........................p.....\n\
............................s...s.................\n\
...................t..............................\n\
..................................................\n\
..................................................\n\
............................................p.....\n";

const EXAMPLE: &str = "............\n........0...\n.....0......\n.......0....\n....0.......\n......A.....\n............\n............\n........A...\n.........A..\n............\n............\n";

#[test]
fn d08_antenna_lines_test_part1() {
    assert_eq!(part1(PUZZLE), 409);
}

#[test]
fn d08_antenna_lines_test_part2() {
    assert_eq!(part2(PUZZLE), 1308);
}

#[test]
fn example_map() {
    assert_eq!(part1(EXAMPLE), 14);
    assert_eq!(part2(EXAMPLE), 34);
}

#[test]
fn antennas() {
    assert!(is_antenna('a') && is_antenna('Z') && is_antenna('7'));
    assert!(!is_antenna('.') && !is_antenna('#') && !is_antenna('\u{e9}'));
    let g = read_map("a..\n.B.\n..a\n");
    let v = get_antennas(&g);
    assert_eq!(v, vec![('a', Ix2s(0, 0)), ('B', Ix2s(1, 1)), ('a', Ix2s(2, 2))]);
}

#[test]
fn one_pair() {
    // Two antennas on a diagonal: one antinode on each side fits.
    let m = "......\n......\n..a...\n...a..\n......\n......\n";
    assert_eq!(part1(m), 2);
    // The whole diagonal through them.
    assert_eq!(part2(m), 6);
    // A lone antenna has no antinode.
    assert_eq!(part1("..a..\n"), 0);
    assert_eq!(part2("..a..\n"), 0);
}
