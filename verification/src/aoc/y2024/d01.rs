use crate::lgl::data::table;
use crate::lgl::sorting;
use std::collections::HashMap;
use vstd::prelude::*;

verus! {

broadcast use {vstd::std_specs::hash::group_hash_axioms, vstd::seq_lib::group_to_multiset_ensures};

/// The two last columns of a whitespace-separated table of integers.
pub open spec fn two_cols(input: Seq<char>) -> (Seq<i64>, Seq<i64>) {
    let cols = table::transposed(table::cells_i64(table::whitespace_table(input)));
    (cols[cols.len() - 2], cols[cols.len() - 1])
}

/// The input is a table of integers with at least two columns.
pub open spec fn valid_input(input: Seq<char>) -> bool {
    &&& table::all_cells_i64(table::whitespace_table(input))
    &&& table::transposed(table::cells_i64(table::whitespace_table(input))).len() >= 2
}

/// `|x - y|`
pub open spec fn abs_diff(x: i64, y: i64) -> int {
    if x < y {
        y - x
    } else {
        x - y
    }
}

/// Sum of `|l[i] - r[i]|` over the first `k` positions.
pub open spec fn sum_abs_diff_upto(l: Seq<i64>, r: Seq<i64>, k: int) -> int
    decreases k,
{
    if k <= 0 {
        0
    } else {
        sum_abs_diff_upto(l, r, k - 1) + abs_diff(l[k - 1], r[k - 1])
    }
}

/// Sum of `|l[i] - r[i]|` over the positions both sequences have.
pub open spec fn sum_abs_diff(l: Seq<i64>, r: Seq<i64>) -> int {
    sum_abs_diff_upto(l, r, if l.len() < r.len() { l.len() as int } else { r.len() as int })
}

/// Total distance: pair the smallest with the smallest, and so on, and add up the gaps.
pub open spec fn distance_spec(l: Seq<i64>, r: Seq<i64>) -> int {
    sum_abs_diff(sorting::sorted_i64(l), sorting::sorted_i64(r))
}

/// The total distance does not depend on the order of either list: any rearrangement of
/// the left list and any of the right list give the same distance.
pub proof fn lemma_distance_rearranged(l: Seq<i64>, r: Seq<i64>, l2: Seq<i64>, r2: Seq<i64>)
    requires
        l.to_multiset() == l2.to_multiset(),
        r.to_multiset() == r2.to_multiset(),
    ensures
        distance_spec(l, r) == distance_spec(l2, r2),
{
    sorting::lemma_sorted_same(l, l2);
    sorting::lemma_sorted_same(r, r2);
}

/// Number of times `x` occurs in `v`.
pub open spec fn count(v: Seq<i64>, x: i64) -> int {
    v.to_multiset().count(x) as int
}

/// Sum of `l[i] * count(r, l[i])` over the first `k` positions of `l`.
pub open spec fn similarity_upto(l: Seq<i64>, r: Seq<i64>, k: int) -> int
    decreases k,
{
    if k <= 0 {
        0
    } else {
        similarity_upto(l, r, k - 1) + l[k - 1] * count(r, l[k - 1])
    }
}

/// Similarity score: every value of `l` weighted by how often it occurs in `r`.
pub open spec fn similarity_spec(l: Seq<i64>, r: Seq<i64>) -> int {
    similarity_upto(l, r, l.len() as int)
}

/// Every product and every partial sum of the similarity score fits in an `i64`.
pub open spec fn similarity_fits(l: Seq<i64>, r: Seq<i64>) -> bool {
    forall|k: int|
        0 <= k <= l.len() ==> i64::MIN <= #[trigger] similarity_upto(l, r, k) <= i64::MAX && (
        k < l.len() ==> i64::MIN <= l[k] * count(r, l[k]) <= i64::MAX)
}

/// Read text as two columns of integers (the last two columns of the table).
pub fn read_two_cols(input: &str) -> (cols: (Vec<i64>, Vec<i64>))
    requires
        valid_input(input@),
    ensures
        (cols.0@, cols.1@) == two_cols(input@),
{
    let mut cols = table::parse_cols(input);
    let ghost all = table::deep(cols@);
    let r = cols.pop().unwrap();
    let l = cols.pop().unwrap();
    (l, r)
}

proof fn lemma_sum_abs_diff_mono(l: Seq<i64>, r: Seq<i64>, i: int, j: int)
    requires
        0 <= i <= j,
    ensures
        0 <= sum_abs_diff_upto(l, r, i) <= sum_abs_diff_upto(l, r, j),
    decreases j,
{
    if j > i {
        lemma_sum_abs_diff_mono(l, r, i, j - 1);
    } else if i > 0 {
        lemma_sum_abs_diff_mono(l, r, i - 1, i - 1);
    }
}

/// Total distance between the two lists once both are sorted.
pub fn distance(l: Vec<i64>, r: Vec<i64>) -> (d: i64)
    requires
        distance_spec(l@, r@) <= i64::MAX,
    ensures
        d == distance_spec(l@, r@),
{
    let l = sorting::sorted(l);
    let r = sorting::sorted(r);
    let n = if l.len() < r.len() {
        l.len()
    } else {
        r.len()
    };
    let mut total: i64 = 0;
    let mut i: usize = 0;
    while i < n
        invariant
            n <= l@.len(),
            n <= r@.len(),
            n == (if l@.len() < r@.len() { l@.len() } else { r@.len() }),
            i <= n,
            total == sum_abs_diff_upto(l@, r@, i as int),
            sum_abs_diff_upto(l@, r@, n as int) <= i64::MAX,
        decreases n - i,
    {
        proof {
            lemma_sum_abs_diff_mono(l@, r@, i + 1, n as int);
            lemma_sum_abs_diff_mono(l@, r@, i as int, i as int);
        }
        let x = l[i];
        let y = r[i];
        let gap = if x < y {
            y - x
        } else {
            x - y
        };
        total = total + gap;
        i += 1;
    }
    total
}

/// Number of occurrences of each value in `v`.
pub fn get_counts(v: Vec<i64>) -> (counts: HashMap<i64, i64>)
    requires
        v@.len() <= i64::MAX,
    ensures
        forall|x: i64| #[trigger] counts@.contains_key(x) <==> v@.contains(x),
        forall|x: i64| #[trigger] counts@.contains_key(x) ==> counts@[x] == count(v@, x),
{
    let mut counts: HashMap<i64, i64> = HashMap::new();
    let mut i: usize = 0;
    while i < v.len()
        invariant
            i <= v@.len(),
            v@.len() <= i64::MAX,
            forall|x: i64| #[trigger]
                counts@.contains_key(x) <==> v@.take(i as int).contains(x),
            forall|x: i64| #[trigger]
                counts@.contains_key(x) ==> counts@[x] == count(v@.take(i as int), x),
        decreases v@.len() - i,
    {
        let x = v[i];
        let ghost pre = v@.take(i as int);
        assert(v@.take(i + 1) =~= pre.push(x));
        assert(pre.len() == pre.to_multiset().len());
        match counts.get(&x) {
            Some(c) => {
                let c = *c;
                assert(c == pre.to_multiset().count(x));
                assert(pre.to_multiset().count(x) <= pre.to_multiset().len());
                counts.insert(x, c + 1);
            },
            None => {
                assert(!pre.contains(x));
                counts.insert(x, 1);
            },
        }
        i += 1;
        assert forall|y: i64| v@.take(i as int).contains(y) implies #[trigger] counts@.contains_key(y) by {
            if y != x {
                let j = choose|j: int| 0 <= j < i && v@.take(i as int)[j] == y;
                assert(pre[j] == y);
            }
        }
        assert forall|y: i64| #[trigger] counts@.contains_key(y) implies v@.take(i as int).contains(y) by {
            if y != x {
                assert(pre.contains(y));
                let j = choose|j: int| 0 <= j < pre.len() && pre[j] == y;
                assert(v@.take(i as int)[j] == y);
            } else {
                assert(v@.take(i as int)[i - 1] == y);
            }
        }
    }
    assert(v@.take(v@.len() as int) =~= v@);
    counts
}

/// Similarity score of `l` against `r`.
pub fn similarity(l: &[i64], r: Vec<i64>) -> (s: i64)
    requires
        r@.len() <= i64::MAX,
        similarity_fits(l@, r@),
    ensures
        s == similarity_spec(l@, r@),
{
    let ghost rv = r@;
    let counts = get_counts(r);
    let mut total: i64 = 0;
    let mut i: usize = 0;
    while i < l.len()
        invariant
            i <= l@.len(),
            similarity_fits(l@, rv),
            total == similarity_upto(l@, rv, i as int),
            forall|x: i64| #[trigger] counts@.contains_key(x) <==> rv.contains(x),
            forall|x: i64| #[trigger] counts@.contains_key(x) ==> counts@[x] == count(rv, x),
        decreases l@.len() - i,
    {
        let x = l[i];
        let c = match counts.get(&x) {
            Some(c) => *c,
            None => 0,
        };
        assert(c == count(rv, x));
        assert(i64::MIN <= similarity_upto(l@, rv, i + 1) <= i64::MAX);
        total = total + x * c;
        i += 1;
    }
    total
}

/// Total distance between the sorted columns.
pub fn part1(input: &str) -> (d: i64)
    requires
        valid_input(input@),
        distance_spec(two_cols(input@).0, two_cols(input@).1) <= i64::MAX,
    ensures
        d == distance_spec(two_cols(input@).0, two_cols(input@).1),
{
    let (l, r) = read_two_cols(input);
    distance(l, r)
}

/// Similarity score of the left column against the right one.
pub fn part2(input: &str) -> (s: i64)
    requires
        valid_input(input@),
        two_cols(input@).1.len() <= i64::MAX,
        similarity_fits(two_cols(input@).0, two_cols(input@).1),
    ensures
        s == similarity_spec(two_cols(input@).0, two_cols(input@).1),
{
    let (l, r) = read_two_cols(input);
    similarity(&l, r)
}

} // verus!
