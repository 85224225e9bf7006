use crate::lgl::data::array2d;
use crate::lgl::parse;
use vstd::prelude::*;
use vstd::string::StrSliceExecFns;

verus! {

/// Number of the first `k` rows whose cell in column `c` is '#'.
pub open spec fn col_count(rows: Seq<Seq<char>>, c: int, k: int) -> int
    decreases k,
{
    if k <= 0 {
        0
    } else {
        col_count(rows, c, k - 1) + (if rows[k - 1][c] == '#' {
            1int
        } else {
            0
        })
    }
}

/// A schematic: a non-empty rectangle of rows in which every column holds a '#'.
pub open spec fn valid_schematic(s: Seq<char>) -> bool {
    let rows = parse::lines_of(s);
    &&& array2d::rectangular(rows)
    &&& rows.len() >= 1
    &&& forall|c: int| 0 <= c < rows[0].len() ==> #[trigger] col_count(rows, c, rows.len() as int) >= 1
}

/// A schematic is a lock when its top row is all '#'.
pub open spec fn is_lock(s: Seq<char>) -> bool {
    let rows = parse::lines_of(s);
    forall|c: int| 0 <= c < rows[0].len() ==> rows[0][c] == '#'
}

/// Pin heights: the number of '#' in each column, less one.
pub open spec fn pin_heights(s: Seq<char>) -> Seq<int> {
    let rows = parse::lines_of(s);
    Seq::new(rows[0].len(), |c: int| col_count(rows, c, rows.len() as int) - 1)
}

/// A key fits a lock when no column overlaps: heights add up to less than 6.
pub open spec fn fits(key: Seq<int>, lock: Seq<int>) -> bool {
    forall|i: int| 0 <= i < key.len() && i < lock.len() ==> key[i] + lock[i] < 6
}

pub open spec fn pins_view(p: Vec<usize>) -> Seq<int> {
    p@.map_values(|x: usize| x as int)
}

/// True for lock, false for key.
pub fn parse_tumbler(s: &str) -> (r: (bool, Vec<usize>))
    requires
        valid_schematic(s@),
    ensures
        r.0 == is_lock(s@),
        pins_view(r.1) == pin_heights(s@),
{
    let arr = array2d::from_chars(s);
    let ghost rows = parse::lines_of(s@);
    assert(arr.rows() == rows);
    assert(forall|r: int, c: int| 0 <= r < rows.len() && 0 <= c < arr.width ==> #[trigger] rows[r][c] == arr.at(r, c));
    let mut is_lock = true;
    let mut c: usize = 0;
    while c < arr.width
        invariant
            arr.wf(),
            arr.rows() == rows,
            rows.len() >= 1,
            c <= arr.width,
            is_lock == forall|j: int| 0 <= j < c ==> rows[0][j] == '#',
        decreases arr.width - c,
    {
        assert(rows[0] == arr.cells@[0]@);
        if arr.cells[0][c] != '#' {
            is_lock = false;
        }
        c += 1;
    }
    assert(rows[0].len() == arr.width);
    let mut pins: Vec<usize> = Vec::new();
    let mut c: usize = 0;
    while c < arr.width
        invariant
            arr.wf(),
            arr.rows() == rows,
            rows.len() >= 1,
            rows[0].len() == arr.width,
            forall|j: int| 0 <= j < rows[0].len() ==> #[trigger] col_count(rows, j, rows.len() as int) >= 1,
            c <= arr.width,
            pins@.len() == c,
            forall|j: int| 0 <= j < c ==> pins@[j] == col_count(rows, j, rows.len() as int) - 1,
        decreases arr.width - c,
    {
        let mut n: usize = 0;
        let mut r: usize = 0;
        while r < arr.cells.len()
            invariant
                arr.wf(),
                arr.rows() == rows,
                c < arr.width,
                r <= rows.len(),
                n == col_count(rows, c as int, r as int),
                n <= r,
            decreases rows.len() - r,
        {
            assert(rows[r as int] == arr.cells@[r as int]@);
            if arr.cells[r][c] == '#' {
                n += 1;
            }
            r += 1;
        }
        pins.push(n - 1);
        c += 1;
    }
    assert(pins_view(pins) =~= pin_heights(s@));
    (is_lock, pins)
}

/// The schematics of the input, in order.
pub open spec fn schematics(input: Seq<char>) -> Seq<Seq<char>> {
    parse::split_blank(input)
}

/// Every schematic of the input is valid.
pub open spec fn valid_input(input: Seq<char>) -> bool {
    forall|k: int| 0 <= k < schematics(input).len() ==> valid_schematic(#[trigger] schematics(input)[k])
}

/// The pins of the locks, then of the keys, each in input order.
pub open spec fn lock_pins(input: Seq<char>) -> Seq<Seq<int>> {
    schematics(input).filter(|s: Seq<char>| is_lock(s)).map_values(|s: Seq<char>| pin_heights(s))
}

pub open spec fn key_pins(input: Seq<char>) -> Seq<Seq<int>> {
    schematics(input).filter(|s: Seq<char>| !is_lock(s)).map_values(|s: Seq<char>| pin_heights(s))
}

/// Returns (locks, keys).
pub fn parse_input(input: &str) -> (r: (Vec<Vec<usize>>, Vec<Vec<usize>>))
    requires
        valid_input(input@),
    ensures
        r.0@.map_values(|p: Vec<usize>| pins_view(p)) == lock_pins(input@),
        r.1@.map_values(|p: Vec<usize>| pins_view(p)) == key_pins(input@),
{
    let cs = parse::chars_of(input);
    let spans = parse::blank_spans(&cs);
    let ghost all = schematics(input@);
    let mut locks: Vec<Vec<usize>> = Vec::new();
    let mut keys: Vec<Vec<usize>> = Vec::new();
    let mut k: usize = 0;
    while k < spans.len()
        invariant
            cs@ == input@,
            all == schematics(input@),
            valid_input(input@),
            spans@.len() == all.len(),
            forall|j: int|
                0 <= j < spans@.len() ==> {
                    let (b, e) = #[trigger] spans@[j];
                    &&& b <= e <= cs@.len()
                    &&& cs@.subrange(b as int, e as int) == all[j]
                },
            k <= spans@.len(),
            locks@.map_values(|p: Vec<usize>| pins_view(p)) == all.take(k as int).filter(
                |s: Seq<char>| is_lock(s),
            ).map_values(|s: Seq<char>| pin_heights(s)),
            keys@.map_values(|p: Vec<usize>| pins_view(p)) == all.take(k as int).filter(
                |s: Seq<char>| !is_lock(s),
            ).map_values(|s: Seq<char>| pin_heights(s)),
        decreases spans@.len() - k,
    {
        let (b, e) = spans[k];
        let block = input.substring_char(b, e);
        assert(block@ == all[k as int]);
        let (lock, p) = parse_tumbler(block);
        proof {
            assert(all.take(k + 1).drop_last() =~= all.take(k as int));
            reveal_with_fuel(Seq::filter, 1);
        }
        let ghost pre = all.take(k as int);
        let ghost post = all.take(k + 1);
        assert(post.drop_last() =~= pre);
        assert(post.last() == all[k as int]);
        let ghost pl = |s: Seq<char>| is_lock(s);
        let ghost pk = |s: Seq<char>| !is_lock(s);
        let ghost h = |s: Seq<char>| pin_heights(s);
        if lock {
            assert(post.filter(pl) == pre.filter(pl).push(all[k as int]));
            assert(post.filter(pk) == pre.filter(pk));
            assert(post.filter(pl).map_values(h) =~= pre.filter(pl).map_values(h).push(h(all[k as int])));
            locks.push(p);
            assert(locks@.map_values(|p: Vec<usize>| pins_view(p)) =~= all.take(k + 1).filter(
                |s: Seq<char>| is_lock(s),
            ).map_values(|s: Seq<char>| pin_heights(s)));
            assert(keys@.map_values(|p: Vec<usize>| pins_view(p)) =~= all.take(k + 1).filter(
                |s: Seq<char>| !is_lock(s),
            ).map_values(|s: Seq<char>| pin_heights(s)));
        } else {
            assert(post.filter(pk) == pre.filter(pk).push(all[k as int]));
            assert(post.filter(pl) == pre.filter(pl));
            assert(post.filter(pk).map_values(h) =~= pre.filter(pk).map_values(h).push(h(all[k as int])));
            keys.push(p);
            assert(locks@.map_values(|p: Vec<usize>| pins_view(p)) =~= all.take(k + 1).filter(
                |s: Seq<char>| is_lock(s),
            ).map_values(|s: Seq<char>| pin_heights(s)));
            assert(keys@.map_values(|p: Vec<usize>| pins_view(p)) =~= all.take(k + 1).filter(
                |s: Seq<char>| !is_lock(s),
            ).map_values(|s: Seq<char>| pin_heights(s)));
        }
        k += 1;
    }
    assert(all.take(all.len() as int) =~= all);
    (locks, keys)
}

/// Whether the key fits the lock.
pub fn fit(key: &Vec<usize>, lock: &Vec<usize>) -> (b: bool)
    ensures
        b == fits(pins_view(*key), pins_view(*lock)),
{
    let mut i: usize = 0;
    while i < key.len() && i < lock.len()
        invariant
            i <= key@.len(),
            i <= lock@.len(),
            forall|j: int| 0 <= j < i ==> key@[j] + lock@[j] < 6,
        decreases key@.len() - i,
    {
        if key[i] >= 6 || lock[i] >= 6 - key[i] {
            assert(pins_view(*key)[i as int] + pins_view(*lock)[i as int] >= 6);
            return false;
        }
        i += 1;
    }
    assert forall|j: int| 0 <= j < pins_view(*key).len() && j < pins_view(*lock).len() implies
        pins_view(*key)[j] + pins_view(*lock)[j] < 6 by {
        assert(j < i);
    }
    true
}

/// Number of pairs `(i, j)` with `i < m` and any `j` such that key `j` fits lock `i`.
pub open spec fn count_fits(locks: Seq<Seq<int>>, keys: Seq<Seq<int>>, m: int) -> int
    decreases m,
{
    if m <= 0 {
        0
    } else {
        count_fits(locks, keys, m - 1) + keys.filter(|k: Seq<int>| fits(locks[m - 1], k)).len()
    }
}

/// Number of lock/key pairs that fit together.
pub fn part1(input: &str) -> (n: usize)
    requires
        valid_input(input@),
        lock_pins(input@).len() * key_pins(input@).len() <= usize::MAX,
    ensures
        n == count_fits(lock_pins(input@), key_pins(input@), lock_pins(input@).len() as int),
{
    let (locks, keys) = parse_input(input);
    let ghost lv = locks@.map_values(|p: Vec<usize>| pins_view(p));
    let ghost kv = keys@.map_values(|p: Vec<usize>| pins_view(p));
    let mut n: usize = 0;
    let mut i: usize = 0;
    while i < locks.len()
        invariant
            lv == locks@.map_values(|p: Vec<usize>| pins_view(p)),
            kv == keys@.map_values(|p: Vec<usize>| pins_view(p)),
            lv == lock_pins(input@),
            kv == key_pins(input@),
            i <= locks@.len(),
            n == count_fits(lv, kv, i as int),
            n <= i * keys@.len(),
            locks@.len() * keys@.len() <= usize::MAX,
        decreases locks@.len() - i,
    {
        let mut m: usize = 0;
        let mut j: usize = 0;
        while j < keys.len()
            invariant
                lv == locks@.map_values(|p: Vec<usize>| pins_view(p)),
                kv == keys@.map_values(|p: Vec<usize>| pins_view(p)),
                i < locks@.len(),
                j <= keys@.len(),
                m == kv.take(j as int).filter(|k: Seq<int>| fits(lv[i as int], k)).len(),
                m <= j,
            decreases keys@.len() - j,
        {
            proof {
                assert(kv.take(j + 1).drop_last() =~= kv.take(j as int));
                reveal_with_fuel(Seq::filter, 1);
            }
            if fit(&locks[i], &keys[j]) {
                m += 1;
            }
            j += 1;
        }
        assert(kv.take(keys@.len() as int) =~= kv);
        assert(n + m <= (i + 1) * keys@.len() <= locks@.len() * keys@.len()) by (nonlinear_arith)
            requires
                n <= i * keys@.len(),
                m <= keys@.len(),
                i < locks@.len(),
        ;
        n = n + m;
        i += 1;
    }
    n
}

/// The last day has no second puzzle.
pub fn part2() -> (n: usize)
    ensures
        n == 2,
{
    2
}

} // verus!
