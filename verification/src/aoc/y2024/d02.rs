use crate::lgl::data::table;
use vstd::prelude::*;

verus! {

/// Differences between consecutive values.
pub open spec fn diffs(v: Seq<i64>) -> Seq<int> {
    Seq::new(if v.len() == 0 { 0 } else { (v.len() - 1) as nat }, |i: int| v[i + 1] - v[i])
}

/// All differences have the same sign (zero counting for both).
pub open spec fn monotonic(d: Seq<int>) -> bool {
    (forall|i: int| 0 <= i < d.len() ==> d[i] >= 0) || (forall|i: int|
        0 <= i < d.len() ==> d[i] <= 0)
}

/// All differences are between 1 and 3 in absolute value.
pub open spec fn bounded(d: Seq<int>) -> bool {
    forall|i: int| 0 <= i < d.len() ==> (1 <= #[trigger] d[i] <= 3 || -3 <= d[i] <= -1)
}

/// A report is safe when its levels change monotonically, by 1 to 3 each step.
pub open spec fn safe(v: Seq<i64>) -> bool {
    monotonic(diffs(v)) && bounded(diffs(v))
}

/// Removing one level makes the report safe.
pub open spec fn tolerable(v: Seq<i64>) -> bool {
    exists|i: int| 0 <= i < v.len() && safe(#[trigger] v.remove(i))
}

/// The reports of the input.
pub open spec fn reports(input: Seq<char>) -> Seq<Seq<i64>> {
    table::cells_i64(table::whitespace_table(input))
}

/// Number of reports among the first `k` that satisfy the rule of the given part.
pub open spec fn count_reports(rs: Seq<Seq<i64>>, k: int, with_tolerance: bool) -> int
    decreases k,
{
    if k <= 0 {
        0
    } else {
        count_reports(rs, k - 1, with_tolerance) + (if safe(rs[k - 1]) || (with_tolerance
            && tolerable(rs[k - 1])) {
            1int
        } else {
            0
        })
    }
}

/// Differences between consecutive values.
pub fn diff(v: &[i64]) -> (d: Vec<i128>)
    ensures
        d@.len() == diffs(v@).len(),
        forall|i: int| 0 <= i < d@.len() ==> d@[i] == diffs(v@)[i],
{
    let mut d: Vec<i128> = Vec::new();
    let mut i: usize = 1;
    while i < v.len()
        invariant
            1 <= i <= v@.len() || (v@.len() == 0 && i == 1),
            d@.len() == i - 1,
            forall|k: int| 0 <= k < d@.len() ==> d@[k] == v@[k + 1] - v@[k],
        decreases v@.len() - i,
    {
        d.push(v[i] as i128 - v[i - 1] as i128);
        i += 1;
    }
    d
}

pub fn is_monotonic(dxs: &[i128]) -> (b: bool)
    ensures
        b == ((forall|i: int| 0 <= i < dxs@.len() ==> dxs@[i] >= 0) || (forall|i: int|
            0 <= i < dxs@.len() ==> dxs@[i] <= 0)),
{
    let mut up = true;
    let mut down = true;
    let mut i: usize = 0;
    while i < dxs.len()
        invariant
            i <= dxs@.len(),
            up == forall|k: int| 0 <= k < i ==> dxs@[k] >= 0,
            down == forall|k: int| 0 <= k < i ==> dxs@[k] <= 0,
        decreases dxs@.len() - i,
    {
        if dxs[i] < 0 {
            up = false;
        }
        if dxs[i] > 0 {
            down = false;
        }
        i += 1;
    }
    up || down
}

/// Adjacent values differ by at least 1 and at most 3.
pub fn is_bounded(dxs: &[i128]) -> (b: bool)
    ensures
        b == forall|i: int|
            0 <= i < dxs@.len() ==> (1 <= #[trigger] dxs@[i] <= 3 || -3 <= dxs@[i] <= -1),
{
    let mut i: usize = 0;
    while i < dxs.len()
        invariant
            i <= dxs@.len(),
            forall|k: int| 0 <= k < i ==> (1 <= #[trigger] dxs@[k] <= 3 || -3 <= dxs@[k] <= -1),
        decreases dxs@.len() - i,
    {
        let x = dxs[i];
        if !((1 <= x && x <= 3) || (-3 <= x && x <= -1)) {
            return false;
        }
        i += 1;
    }
    true
}

pub fn is_safe(xs: &[i64]) -> (b: bool)
    ensures
        b == safe(xs@),
{
    let dxs = diff(xs);
    assert(dxs@.map_values(|x: i128| x as int) =~= diffs(xs@));
    is_monotonic(&dxs) && is_bounded(&dxs)
}

/// The values without the one at `rx` (unchanged if there is none there).
pub fn remove_ix<T: Copy>(rx: usize, xs: Vec<T>) -> (v: Vec<T>)
    ensures
        v@ == (if rx < xs@.len() {
            xs@.remove(rx as int)
        } else {
            xs@
        }),
{
    let mut v: Vec<T> = Vec::new();
    let mut i: usize = 0;
    while i < xs.len()
        invariant
            i <= xs@.len(),
            v@ == (if rx < i {
                xs@.take(i as int).remove(rx as int)
            } else {
                xs@.take(i as int)
            }),
        decreases xs@.len() - i,
    {
        if i != rx {
            v.push(xs[i]);
        }
        proof {
            if rx < i {
                assert(xs@.take(i + 1).remove(rx as int) =~= xs@.take(i as int).remove(
                    rx as int,
                ).push(xs@[i as int]));
            } else if rx == i {
                assert(xs@.take(i + 1).remove(rx as int) =~= xs@.take(i as int));
            } else {
                assert(xs@.take(i + 1) =~= xs@.take(i as int).push(xs@[i as int]));
            }
        }
        i += 1;
    }
    assert(xs@.take(xs@.len() as int) =~= xs@);
    v
}

/// Some single removal makes the report safe.
pub fn is_tolerable(xs: &[i64]) -> (b: bool)
    ensures
        b == tolerable(xs@),
{
    let mut i: usize = 0;
    while i < xs.len()
        invariant
            i <= xs@.len(),
            forall|k: int| 0 <= k < i ==> !safe(#[trigger] xs@.remove(k)),
        decreases xs@.len() - i,
    {
        let v = remove_ix(i, vstd::slice::slice_to_vec(xs));
        if is_safe(&v) {
            return true;
        }
        i += 1;
    }
    false
}

fn count_safe(input: &str, with_tolerance: bool) -> (n: usize)
    requires
        table::all_cells_i64(table::whitespace_table(input@)),
    ensures
        n == count_reports(reports(input@), reports(input@).len() as int, with_tolerance),
{
    let t = table::parse_rows(input);
    let ghost rs = reports(input@);
    let mut n: usize = 0;
    let mut i: usize = 0;
    while i < t.len()
        invariant
            i <= t@.len(),
            table::deep(t@) == rs,
            n == count_reports(rs, i as int, with_tolerance),
            n <= i,
        decreases t@.len() - i,
    {
        let row = &t[i];
        assert(row@ == rs[i as int]);
        if is_safe(row) || (with_tolerance && is_tolerable(row)) {
            n += 1;
        }
        i += 1;
    }
    n
}

/// Number of safe reports.
pub fn part1(input: &str) -> (n: usize)
    requires
        table::all_cells_i64(table::whitespace_table(input@)),
    ensures
        n == count_reports(reports(input@), reports(input@).len() as int, false),
{
    count_safe(input, false)
}

/// Number of reports that are safe, or become safe when one level is removed.
pub fn part2(input: &str) -> (n: usize)
    requires
        table::all_cells_i64(table::whitespace_table(input@)),
    ensures
        n == count_reports(reports(input@), reports(input@).len() as int, true),
{
    count_safe(input, true)
}

} // verus!
