use crate::aoc::y2024::d01;
use crate::lgl::data::table;
use vstd::prelude::*;

verus! {

/// Read text as two columns of integers: the rows parsed, then turned into columns, of
/// which the last two are kept.
pub fn read_two_cols(input: &str) -> (cols: (Vec<i64>, Vec<i64>))
    requires
        d01::valid_input(input@),
    ensures
        (cols.0@, cols.1@) == d01::two_cols(input@),
{
    let rows: Vec<Vec<i64>> = table::parse_rows(input);
    let mut cols = table::transpose(rows);
    let ghost all = table::deep(cols@);
    let r = cols.pop().unwrap();
    let l = cols.pop().unwrap();
    (l, r)
}

/// Total distance between the sorted columns.
pub fn part1(input: &str) -> (d: i64)
    requires
        d01::valid_input(input@),
        d01::distance_spec(d01::two_cols(input@).0, d01::two_cols(input@).1) <= i64::MAX,
    ensures
        d == d01::distance_spec(d01::two_cols(input@).0, d01::two_cols(input@).1),
{
    let (l, r) = read_two_cols(input);
    d01::distance(l, r)
}

/// Similarity score of the left column against the right one.
pub fn part2(input: &str) -> (s: i64)
    requires
        d01::valid_input(input@),
        d01::two_cols(input@).1.len() <= i64::MAX,
        d01::similarity_fits(d01::two_cols(input@).0, d01::two_cols(input@).1),
    ensures
        s == d01::similarity_spec(d01::two_cols(input@).0, d01::two_cols(input@).1),
{
    let (l, r) = read_two_cols(input);
    d01::similarity(&l, r)
}

} // verus!
