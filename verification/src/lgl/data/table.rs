use crate::lgl::data::index::Ix2s;
use crate::lgl::parse;
use vstd::prelude::*;
use vstd::string::StrSliceExecFns;

verus! {

/// The rows of the text: its lines, each split on whitespace.
pub open spec fn whitespace_table(s: Seq<char>) -> Seq<Seq<Seq<char>>> {
    parse::lines_of(s).map_values(|l: Seq<char>| parse::words_of(l))
}

/// The rows of the text: its lines, each split on `sep`.
pub open spec fn sep_table(s: Seq<char>, sep: char) -> Seq<Seq<Seq<char>>> {
    parse::lines_of(s).map_values(|l: Seq<char>| parse::split_on(l, sep))
}

/// The views of a table of string slices.
pub open spec fn table_view(t: Seq<Vec<&str>>) -> Seq<Seq<Seq<char>>> {
    t.map_values(|row: Vec<&str>| row@.map_values(|x: &str| x@))
}

/// Slices of `s` at the given character spans.
fn slices_at<'a>(s: &'a str, spans: &Vec<(usize, usize)>) -> (v: Vec<&'a str>)
    requires
        forall|k: int|
            0 <= k < spans@.len() ==> (#[trigger] spans@[k]).0 <= spans@[k].1 <= s@.len(),
    ensures
        v@.len() == spans@.len(),
        forall|k: int|
            0 <= k < v@.len() ==> (#[trigger] v@[k])@ == s@.subrange(
                spans@[k].0 as int,
                spans@[k].1 as int,
            ),
{
    let mut v: Vec<&'a str> = Vec::new();
    let mut k: usize = 0;
    while k < spans.len()
        invariant
            k <= spans@.len(),
            v@.len() == k,
            forall|j: int|
                0 <= j < spans@.len() ==> (#[trigger] spans@[j]).0 <= spans@[j].1 <= s@.len(),
            forall|j: int|
                0 <= j < k ==> (#[trigger] v@[j])@ == s@.subrange(
                    spans@[j].0 as int,
                    spans@[j].1 as int,
                ),
        decreases spans@.len() - k,
    {
        let (b, e) = spans[k];
        v.push(s.substring_char(b, e));
        k += 1;
    }
    v
}

/// Read whitespace-separated cells into a table.
pub fn to_table_whitespace(s: &str) -> (t: Vec<Vec<&str>>)
    ensures
        table_view(t@) == whitespace_table(s@),
{
    let cs = parse::chars_of(s);
    let lines = parse::line_spans(&cs, 0, cs.len());
    let ghost want = whitespace_table(s@);
    assert(cs@.subrange(0, cs@.len() as int) =~= s@);
    let mut t: Vec<Vec<&str>> = Vec::new();
    let mut k: usize = 0;
    while k < lines.len()
        invariant
            k <= lines@.len(),
            cs@ == s@,
            lines@.len() == parse::lines_of(s@).len(),
            forall|j: int|
                0 <= j < lines@.len() ==> {
                    let (b, e) = #[trigger] lines@[j];
                    &&& b <= e <= cs@.len()
                    &&& cs@.subrange(b as int, e as int) == parse::lines_of(s@)[j]
                },
            t@.len() == k,
            want == whitespace_table(s@),
            forall|j: int|
                0 <= j < k ==> (#[trigger] t@[j])@.map_values(|x: &str| x@) == want[j],
        decreases lines@.len() - k,
    {
        let (b, e) = lines[k];
        let spans = parse::word_spans(&cs, b, e);
        let row = slices_at(s, &spans);
        assert(row@.map_values(|x: &str| x@) =~= want[k as int]);
        t.push(row);
        k += 1;
    }
    assert(table_view(t@) =~= want);
    t
}

/// Read a table of `sep`-separated cells.
pub fn to_table(s: &str, sep: char) -> (t: Vec<Vec<&str>>)
    ensures
        table_view(t@) == sep_table(s@, sep),
{
    let cs = parse::chars_of(s);
    let lines = parse::line_spans(&cs, 0, cs.len());
    let ghost want = sep_table(s@, sep);
    assert(cs@.subrange(0, cs@.len() as int) =~= s@);
    let mut t: Vec<Vec<&str>> = Vec::new();
    let mut k: usize = 0;
    while k < lines.len()
        invariant
            k <= lines@.len(),
            cs@ == s@,
            lines@.len() == parse::lines_of(s@).len(),
            forall|j: int|
                0 <= j < lines@.len() ==> {
                    let (b, e) = #[trigger] lines@[j];
                    &&& b <= e <= cs@.len()
                    &&& cs@.subrange(b as int, e as int) == parse::lines_of(s@)[j]
                },
            t@.len() == k,
            want == sep_table(s@, sep),
            forall|j: int|
                0 <= j < k ==> (#[trigger] t@[j])@.map_values(|x: &str| x@) == want[j],
        decreases lines@.len() - k,
    {
        let (b, e) = lines[k];
        let spans = parse::split_spans(&cs, b, e, sep);
        let row = slices_at(s, &spans);
        assert(row@.map_values(|x: &str| x@) =~= want[k as int]);
        t.push(row);
        k += 1;
    }
    assert(table_view(t@) =~= want);
    t
}

/// The lines of the text as rows of characters.
pub fn to_char_table(s: &str) -> (t: Vec<Vec<char>>)
    ensures
        t@.map_values(|r: Vec<char>| r@) == parse::lines_of(s@),
{
    let cs = parse::chars_of(s);
    let lines = parse::line_spans(&cs, 0, cs.len());
    assert(cs@.subrange(0, cs@.len() as int) =~= s@);
    let mut t: Vec<Vec<char>> = Vec::new();
    let mut k: usize = 0;
    while k < lines.len()
        invariant
            k <= lines@.len(),
            cs@ == s@,
            lines@.len() == parse::lines_of(s@).len(),
            forall|j: int|
                0 <= j < lines@.len() ==> {
                    let (b, e) = #[trigger] lines@[j];
                    &&& b <= e <= cs@.len()
                    &&& cs@.subrange(b as int, e as int) == parse::lines_of(s@)[j]
                },
            t@.len() == k,
            forall|j: int| 0 <= j < k ==> (#[trigger] t@[j])@ == parse::lines_of(s@)[j],
        decreases lines@.len() - k,
    {
        let (b, e) = lines[k];
        let mut row: Vec<char> = Vec::new();
        let mut i = b;
        while i < e
            invariant
                b <= i <= e <= cs@.len(),
                row@ == cs@.subrange(b as int, i as int),
            decreases e - i,
        {
            row.push(cs[i]);
            i += 1;
            assert(row@ =~= cs@.subrange(b as int, i as int));
        }
        t.push(row);
        k += 1;
    }
    assert(t@.map_values(|r: Vec<char>| r@) =~= parse::lines_of(s@));
    t
}

// ---------------------------------------------------------------------------
// Transposition

/// Append one row to a transposed table: cell `c` of the row goes to the end of column `c`,
/// and new columns are opened as needed.
pub open spec fn add_row<T>(t: Seq<Seq<T>>, row: Seq<T>) -> Seq<Seq<T>> {
    Seq::new(
        if t.len() < row.len() {
            row.len()
        } else {
            t.len()
        },
        |c: int|
            (if c < t.len() {
                t[c]
            } else {
                Seq::empty()
            }) + (if c < row.len() {
                seq![row[c]]
            } else {
                Seq::empty()
            }),
    )
}

/// Column `c` of the result lists, in row order, cell `c` of every row that has one.
pub open spec fn transposed<T>(m: Seq<Seq<T>>) -> Seq<Seq<T>>
    decreases m.len(),
{
    if m.len() == 0 {
        Seq::empty()
    } else {
        add_row(transposed(m.drop_last()), m.last())
    }
}

pub open spec fn deep<T>(m: Seq<Vec<T>>) -> Seq<Seq<T>> {
    m.map_values(|r: Vec<T>| r@)
}

/// Every row of `m` has `w` cells.
pub open spec fn all_width<T>(m: Seq<Seq<T>>, w: int) -> bool {
    forall|r: int| 0 <= r < m.len() ==> (#[trigger] m[r]).len() == w
}

/// A table of `h >= 1` rows of `w` cells each, transposed, has `w` rows of `h` cells, and
/// cell `(c, r)` of it is cell `(r, c)` of the table.
pub proof fn lemma_transposed_cells<T>(m: Seq<Seq<T>>, w: int)
    requires
        m.len() >= 1,
        all_width(m, w),
    ensures
        transposed(m).len() == w,
        forall|c: int| 0 <= c < w ==> (#[trigger] transposed(m)[c]).len() == m.len(),
        forall|c: int, r: int| 0 <= c < w && 0 <= r < m.len() ==> #[trigger] transposed(m)[c][r] == m[r][c],
    decreases m.len(),
{
    let p = m.drop_last();
    let row = m.last();
    if p.len() == 0 {
        assert(transposed(p) == Seq::<Seq<T>>::empty());
    } else {
        assert(all_width(p, w)) by {
            assert forall|r: int| 0 <= r < p.len() implies (#[trigger] p[r]).len() == w by {
                assert(p[r] == m[r]);
            }
        }
        lemma_transposed_cells(p, w);
        assert forall|c: int, r: int| 0 <= c < w && 0 <= r < m.len() implies #[trigger] transposed(m)[c][r]
            == m[r][c] by {
            if r < p.len() {
                assert(transposed(p)[c][r] == p[r][c]);
            }
        }
    }
}

/// Transposing a rectangular table with at least one row and one column twice gives it back.
pub proof fn lemma_transpose_twice<T>(m: Seq<Seq<T>>)
    requires
        m.len() >= 1,
        m[0].len() >= 1,
        forall|r: int| 0 <= r < m.len() ==> (#[trigger] m[r]).len() == m[0].len(),
    ensures
        transposed(transposed(m)) == m,
        transposed(m).len() == m[0].len(),
        forall|c: int| 0 <= c < m[0].len() ==> (#[trigger] transposed(m)[c]).len() == m.len(),
{
    let w = m[0].len() as int;
    let t = transposed(m);
    lemma_transposed_cells(m, w);
    assert(all_width(t, m.len() as int));
    lemma_transposed_cells(t, m.len() as int);
    let tt = transposed(t);
    assert forall|r: int| 0 <= r < m.len() implies #[trigger] tt[r] == m[r] by {
        assert forall|c: int| 0 <= c < w implies tt[r][c] == m[r][c] by {
            assert(tt[r][c] == t[c][r]);
        }
        assert(tt[r] =~= m[r]);
    }
    assert(tt =~= m);
}

/// Transpose a possibly ragged table.
pub fn transpose<T>(m: Vec<Vec<T>>) -> (t: Vec<Vec<T>>)
    ensures
        deep(t@) == transposed(deep(m@)),
{
    let ghost dm = deep(m@);
    let mut t: Vec<Vec<T>> = Vec::new();
    for row in it: m.into_iter()
        invariant
            deep(it.seq()) == dm,
            deep(t@) == transposed(dm.take(it.index() as int)),
    {
        let ghost i = it.index();
        let ghost before = deep(t@);
        proof {
            assert(row@ == dm[i as int]);
        }
        let ghost r = row@;
        let rl = row.len();
        let mut c: usize = 0;
        for x in it2: row.into_iter()
            invariant
                it2.seq() == r,
                r.len() == rl,
                c == it2.index(),
                c <= r.len(),
                deep(t@).len() == (if before.len() < c {
                    c as int
                } else {
                    before.len() as int
                }),
                forall|j: int|
                    0 <= j < deep(t@).len() ==> #[trigger] deep(t@)[j] == (if j < before.len() {
                        before[j]
                    } else {
                        Seq::empty()
                    }) + (if j < c {
                        seq![r[j]]
                    } else {
                        Seq::empty()
                    }),
        {
            assert(c < r.len());
            let ghost t0 = deep(t@);
            if c == t.len() {
                t.push(Vec::new());
                assert(deep(t@) =~= t0.push(Seq::empty()));
            }
            let ghost t1 = deep(t@);
            assert(t1[c as int] == (if (c as int) < before.len() {
                before[c as int]
            } else {
                Seq::<T>::empty()
            }));
            assert(forall|j: int| 0 <= j < t0.len() ==> t1[j] == t0[j]);
            let mut col = t.remove(c);
            col.push(x);
            t.insert(c, col);
            proof {
                assert forall|j: int| 0 <= j < deep(t@).len() implies #[trigger] deep(t@)[j] == (
                if j < before.len() {
                    before[j]
                } else {
                    Seq::empty()
                }) + (if j < c + 1 {
                    seq![r[j]]
                } else {
                    Seq::empty()
                }) by {
                    if j == c {
                        assert(deep(t@)[j] == t1[j].push(x));
                        assert(x == r[j]);
                    } else {
                        assert(deep(t@)[j] == t1[j]);
                        assert(j < t0.len());
                        assert(t1[j] == t0[j]);
                    }
                }
            }
            c += 1;
        }
        proof {
            assert(dm.take(i + 1).drop_last() =~= dm.take(i as int));
            assert(deep(t@) =~= add_row(before, r));
        }
    }
    assert(dm.take(dm.len() as int) =~= dm);
    t
}

// ---------------------------------------------------------------------------
// Parsing cells

/// Every cell is a decimal literal that fits in an `i64`.
pub open spec fn all_cells_i64(t: Seq<Seq<Seq<char>>>) -> bool {
    forall|i: int, j: int|
        0 <= i < t.len() && 0 <= j < t[i].len() ==> (#[trigger] t[i][j]).len() >= 0
            && parse::lit_i64(t[i][j]) is Some
}

/// The table with every cell read as an `i64`.
pub open spec fn cells_i64(t: Seq<Seq<Seq<char>>>) -> Seq<Seq<i64>> {
    t.map_values(|row: Seq<Seq<char>>| row.map_values(|x: Seq<char>| parse::lit_i64(x)->0))
}

/// Parse every cell of the table as an `i64`.
pub fn parse_table(input: Vec<Vec<&str>>) -> (t: Vec<Vec<i64>>)
    requires
        all_cells_i64(table_view(input@)),
    ensures
        deep(t@) == cells_i64(table_view(input@)),
{
    let ghost want = cells_i64(table_view(input@));
    let mut t: Vec<Vec<i64>> = Vec::new();
    let mut i: usize = 0;
    while i < input.len()
        invariant
            i <= input@.len(),
            all_cells_i64(table_view(input@)),
            want == cells_i64(table_view(input@)),
            t@.len() == i,
            forall|k: int| 0 <= k < i ==> (#[trigger] t@[k])@ == want[k],
        decreases input@.len() - i,
    {
        let row = &input[i];
        let mut out: Vec<i64> = Vec::new();
        let mut j: usize = 0;
        while j < row.len()
            invariant
                i < input@.len(),
                row == input@[i as int],
                j <= row@.len(),
                all_cells_i64(table_view(input@)),
                want == cells_i64(table_view(input@)),
                out@.len() == j,
                forall|k: int| 0 <= k < j ==> out@[k] == #[trigger] want[i as int][k],
            decreases row@.len() - j,
        {
            let cs = parse::chars_of(row[j]);
            assert(table_view(input@)[i as int][j as int] == row@[j as int]@);
            assert(cs@.subrange(0, cs@.len() as int) =~= cs@);
            let v = parse::parse_i64(&cs, 0, cs.len());
            out.push(v.unwrap());
            j += 1;
        }
        assert(out@ =~= want[i as int]);
        t.push(out);
        i += 1;
    }
    assert(deep(t@) =~= want);
    t
}

/// Every cell reads as a `u32`.
pub open spec fn all_cells_u32(t: Seq<Seq<Seq<char>>>) -> bool {
    forall|i: int, j: int|
        0 <= i < t.len() && 0 <= j < t[i].len() ==> parse::lit_unsigned(#[trigger] t[i][j], u32::MAX as int) is Some
}

/// The table with every cell read as a `u32`.
pub open spec fn cells_u32(t: Seq<Seq<Seq<char>>>) -> Seq<Seq<u32>> {
    t.map_values(
        |row: Seq<Seq<char>>| row.map_values(|x: Seq<char>| parse::lit_unsigned(x, u32::MAX as int)->0 as u32),
    )
}

/// Parse every cell of the table as a `u32`.
pub fn parse_table_u32(input: Vec<Vec<&str>>) -> (t: Vec<Vec<u32>>)
    requires
        all_cells_u32(table_view(input@)),
    ensures
        deep(t@) == cells_u32(table_view(input@)),
{
    let ghost want = cells_u32(table_view(input@));
    let mut t: Vec<Vec<u32>> = Vec::new();
    let mut i: usize = 0;
    while i < input.len()
        invariant
            i <= input@.len(),
            all_cells_u32(table_view(input@)),
            want == cells_u32(table_view(input@)),
            t@.len() == i,
            forall|k: int| 0 <= k < i ==> (#[trigger] t@[k])@ == want[k],
        decreases input@.len() - i,
    {
        let row = &input[i];
        let mut out: Vec<u32> = Vec::new();
        let mut j: usize = 0;
        while j < row.len()
            invariant
                i < input@.len(),
                row == input@[i as int],
                j <= row@.len(),
                all_cells_u32(table_view(input@)),
                want == cells_u32(table_view(input@)),
                out@.len() == j,
                forall|k: int| 0 <= k < j ==> out@[k] == #[trigger] want[i as int][k],
            decreases row@.len() - j,
        {
            let cs = parse::chars_of(row[j]);
            assert(table_view(input@)[i as int][j as int] == row@[j as int]@);
            assert(cs@.subrange(0, cs@.len() as int) =~= cs@);
            let v = parse::parse_unsigned(&cs, 0, cs.len(), 0xffff_ffff);
            let x = v.unwrap();
            out.push(x as u32);
            j += 1;
        }
        assert(out@ =~= want[i as int]);
        t.push(out);
        i += 1;
    }
    assert(deep(t@) =~= want);
    t
}

/// Parse a whitespace-separated table of integers, row by row.
pub fn parse_rows(input: &str) -> (t: Vec<Vec<i64>>)
    requires
        all_cells_i64(whitespace_table(input@)),
    ensures
        deep(t@) == cells_i64(whitespace_table(input@)),
{
    parse_table(to_table_whitespace(input))
}

/// Parse a whitespace-separated table of integers, column by column.
pub fn parse_cols(input: &str) -> (t: Vec<Vec<i64>>)
    requires
        all_cells_i64(whitespace_table(input@)),
    ensures
        deep(t@) == transposed(cells_i64(whitespace_table(input@))),
{
    transpose(parse_rows(input))
}

// ---------------------------------------------------------------------------
// Indexing tables

/// The cell at row `r`, column `c` of a possibly ragged table.
pub open spec fn cell<T>(t: Seq<Seq<T>>, r: int, c: int) -> Option<T> {
    if 0 <= r < t.len() && 0 <= c < t[r].len() {
        Some(t[r][c])
    } else {
        None
    }
}

/// The cell at `p`, or `None` outside the table.
pub fn get<T>(t: &[Vec<T>], p: Ix2s) -> (r: Option<&T>)
    ensures
        r matches Some(x) ==> cell(deep(t@), p.0 as int, p.1 as int) == Some(*x),
        r is None <==> cell(deep(t@), p.0 as int, p.1 as int) is None,
{
    if p.0 < 0 || p.1 < 0 {
        return None;
    }
    let r = p.0 as usize;
    let c = p.1 as usize;
    if r < t.len() && c < t[r].len() {
        Some(&t[r][c])
    } else {
        None
    }
}

/// Every index of the table, in row-major order.
pub open spec fn all_index_seq<T>(t: Seq<Seq<T>>) -> Seq<(int, int)>
    decreases t.len(),
{
    if t.len() == 0 {
        Seq::empty()
    } else {
        all_index_seq(t.drop_last()) + Seq::new(
            t.last().len(),
            |c: int| ((t.len() - 1) as int, c),
        )
    }
}

/// The indexes listed are those of cells of the table.
pub proof fn lemma_all_index_seq_in_table<T>(t: Seq<Seq<T>>, k: int)
    requires
        0 <= k < all_index_seq(t).len(),
    ensures
        0 <= all_index_seq(t)[k].0 < t.len(),
        0 <= all_index_seq(t)[k].1 < t[all_index_seq(t)[k].0].len(),
    decreases t.len(),
{
    if t.len() > 0 {
        let prev = all_index_seq(t.drop_last());
        if k < prev.len() {
            lemma_all_index_seq_in_table(t.drop_last(), k);
        }
    }
}

/// Every index of the table, in row-major order.
pub fn all_indexes<T>(t: &[Vec<T>]) -> (v: Vec<Ix2s>)
    requires
        t@.len() <= isize::MAX,
        forall|r: int| 0 <= r < t@.len() ==> (#[trigger] t@[r])@.len() <= isize::MAX,
    ensures
        v@.map_values(|p: Ix2s| (p.0 as int, p.1 as int)) == all_index_seq(deep(t@)),
{
    let mut v: Vec<Ix2s> = Vec::new();
    let mut r: usize = 0;
    while r < t.len()
        invariant
            r <= t@.len(),
            t@.len() <= isize::MAX,
            forall|k: int| 0 <= k < t@.len() ==> (#[trigger] t@[k])@.len() <= isize::MAX,
            v@.map_values(|p: Ix2s| (p.0 as int, p.1 as int)) == all_index_seq(
                deep(t@).take(r as int),
            ),
        decreases t@.len() - r,
    {
        let ghost before = v@.map_values(|p: Ix2s| (p.0 as int, p.1 as int));
        let mut c: usize = 0;
        while c < t[r].len()
            invariant
                r < t@.len(),
                c <= t@[r as int]@.len(),
                t@.len() <= isize::MAX,
                t@[r as int]@.len() <= isize::MAX,
                v@.map_values(|p: Ix2s| (p.0 as int, p.1 as int)) == before + Seq::new(
                    c as nat,
                    |j: int| (r as int, j),
                ),
            decreases t@[r as int]@.len() - c,
        {
            let ghost old_v = v@;
            v.push(Ix2s(r as isize, c as isize));
            assert(v@ == old_v.push(Ix2s(r as isize, c as isize)));
            assert(v@.map_values(|p: Ix2s| (p.0 as int, p.1 as int))[old_v.len() as int] == (
            r as int,
            c as int,
            ));
            let ghost want = before + Seq::new((c + 1) as nat, |j: int| (r as int, j));
            let ghost have = v@.map_values(|p: Ix2s| (p.0 as int, p.1 as int));
            let ghost prev = old_v.map_values(|p: Ix2s| (p.0 as int, p.1 as int));
            assert(prev == before + Seq::new(c as nat, |j: int| (r as int, j)));
            assert forall|i: int| 0 <= i < want.len() implies have[i] == want[i] by {
                if i < prev.len() {
                    assert(have[i] == prev[i]);
                }
            }
            assert(prev.len() == old_v.len());
            assert(have.len() == v@.len());
            assert(have.len() == want.len());
            assert(have =~= want);
            c += 1;
        }
        assert(deep(t@).take(r + 1).drop_last() =~= deep(t@).take(r as int));
        r += 1;
    }
    assert(deep(t@).take(t@.len() as int) =~= deep(t@));
    v
}

} // verus!
