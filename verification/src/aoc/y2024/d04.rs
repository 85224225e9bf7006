use crate::lgl::data::index::Ix2s;
use crate::lgl::data::table;
use crate::lgl::parse;
use vstd::prelude::*;

verus! {

/// The needle reads along `dir` from `origin`: cell `origin + k*dir` holds `needle[k]`.
pub open spec fn needle_at(needle: Seq<char>, t: Seq<Seq<char>>, origin: Ix2s, dir: Ix2s) -> bool {
    forall|k: int|
        0 <= k < needle.len() ==> #[trigger] table::cell(t, origin.0 + k * dir.0, origin.1 + k * dir.1)
            == Some(needle[k])
}

/// The eight directions, horizontal, vertical and diagonal.
pub open spec fn dirs() -> Seq<Ix2s> {
    seq![
        Ix2s(0isize, 1isize),
        Ix2s(0isize, -1isize),
        Ix2s(1isize, 0isize),
        Ix2s(-1isize, 0isize),
        Ix2s(1isize, 1isize),
        Ix2s(1isize, -1isize),
        Ix2s(-1isize, 1isize),
        Ix2s(-1isize, -1isize),
    ]
}

/// Number of the first `k` directions along which the needle reads from `origin`.
pub open spec fn hits_at(needle: Seq<char>, t: Seq<Seq<char>>, origin: Ix2s, k: int) -> int
    decreases k,
{
    if k <= 0 {
        0
    } else {
        hits_at(needle, t, origin, k - 1) + (if needle_at(needle, t, origin, dirs()[k - 1]) {
            1int
        } else {
            0
        })
    }
}

pub open spec fn ix(p: (int, int)) -> Ix2s {
    Ix2s(p.0 as isize, p.1 as isize)
}

/// Number of occurrences of the needle starting at the first `k` cells, in row-major order.
pub open spec fn count_hits(needle: Seq<char>, t: Seq<Seq<char>>, k: int) -> int
    decreases k,
{
    if k <= 0 {
        0
    } else {
        count_hits(needle, t, k - 1) + hits_at(needle, t, ix(table::all_index_seq(t)[k - 1]), 8)
    }
}

/// Whether the needle reads along `dir` from `origin`.
pub fn is_needle(needle: &[char], t: &[Vec<char>], origin: Ix2s, dir: Ix2s) -> (b: bool)
    ensures
        b == needle_at(needle@, table::deep(t@), origin, dir),
{
    let mut k: usize = 0;
    while k < needle.len()
        invariant
            k <= needle@.len(),
            forall|j: int|
                0 <= j < k ==> #[trigger] table::cell(
                    table::deep(t@),
                    origin.0 + j * dir.0,
                    origin.1 + j * dir.1,
                ) == Some(needle@[j]),
        decreases needle@.len() - k,
    {
        assert(-0x8000_0000_0000_0000 * 0xffff_ffff_ffff_ffff <= k as int * dir.0 <= 0x8000_0000_0000_0000
            * 0xffff_ffff_ffff_ffff) by (nonlinear_arith)
            requires
                0 <= k <= 0xffff_ffff_ffff_ffff,
                -0x8000_0000_0000_0000 <= dir.0 < 0x8000_0000_0000_0000,
        ;
        assert(-0x8000_0000_0000_0000 * 0xffff_ffff_ffff_ffff <= k as int * dir.1 <= 0x8000_0000_0000_0000
            * 0xffff_ffff_ffff_ffff) by (nonlinear_arith)
            requires
                0 <= k <= 0xffff_ffff_ffff_ffff,
                -0x8000_0000_0000_0000 <= dir.1 < 0x8000_0000_0000_0000,
        ;
        let r: i128 = origin.0 as i128 + (k as i128) * (dir.0 as i128);
        let c: i128 = origin.1 as i128 + (k as i128) * (dir.1 as i128);
        let ghost want = table::cell(table::deep(t@), origin.0 + k * dir.0, origin.1 + k * dir.1);
        if r < 0 || r >= t.len() as i128 || c < 0 || c >= t[r as usize].len() as i128 {
            assert(want is None);
            return false;
        }
        if t[r as usize][c as usize] != needle[k] {
            assert(want == Some(t@[r as int]@[c as int]));
            return false;
        }
        k += 1;
    }
    true
}

fn dir_list() -> (v: Vec<Ix2s>)
    ensures
        v@ == dirs(),
{
    let v = vec![
        Ix2s(0, 1),
        Ix2s(0, -1),
        Ix2s(1, 0),
        Ix2s(-1, 0),
        Ix2s(1, 1),
        Ix2s(1, -1),
        Ix2s(-1, 1),
        Ix2s(-1, -1),
    ];
    assert(v@ =~= dirs());
    v
}

/// The table has fewer rows and columns than `isize::MAX`.
pub open spec fn small_table(t: Seq<Seq<char>>) -> bool {
    &&& t.len() <= isize::MAX
    &&& forall|r: int| 0 <= r < t.len() ==> (#[trigger] t[r]).len() <= isize::MAX
    &&& 8 * table::all_index_seq(t).len() <= usize::MAX
}

/// Counts how many times the word appears in the table.
/// Occurrences can be vertical, horizontal, or diagonal, forwards and backwards.
pub fn count_word(needle: &str, hay: &str) -> (n: usize)
    requires
        small_table(parse::lines_of(hay@)),
    ensures
        n == count_hits(
            needle@,
            parse::lines_of(hay@),
            table::all_index_seq(parse::lines_of(hay@)).len() as int,
        ),
{
    let needle = parse::chars_of(needle);
    let t = table::to_char_table(hay);
    let ghost tt = table::deep(t@);
    assert(tt =~= parse::lines_of(hay@));
    assert(forall|r: int| 0 <= r < t@.len() ==> tt[r] == (#[trigger] t@[r])@);
    let idx = table::all_indexes(&t);
    let ghost all = table::all_index_seq(tt);
    let dv = dir_list();
    let mut hits: usize = 0;
    let mut i: usize = 0;
    while i < idx.len()
        invariant
            tt == table::deep(t@),
            dv@ == dirs(),
            idx@.map_values(|p: Ix2s| (p.0 as int, p.1 as int)) == all,
            all == table::all_index_seq(tt),
            i <= idx@.len(),
            hits == count_hits(needle@, tt, i as int),
            hits <= 8 * i,
            8 * idx@.len() <= usize::MAX,
        decreases idx@.len() - i,
    {
        let origin = idx[i];
        assert(ix(all[i as int]) == origin);
        let mut h: usize = 0;
        let mut d: usize = 0;
        while d < 8
            invariant
                d <= 8,
                dv@ == dirs(),
                h == hits_at(needle@, tt, origin, d as int),
                h <= d,
                tt == table::deep(t@),
            decreases 8 - d,
        {
            if is_needle(&needle, &t, origin, dv[d]) {
                h += 1;
            }
            d += 1;
        }
        hits = hits + h;
        i += 1;
    }
    hits
}

/// The centre of two diagonal 'MAS' words crossing ('MAS' or 'SAM' along both diagonals).
pub open spec fn x_mas_at(t: Seq<Seq<char>>, center: Ix2s) -> bool {
    let mas = seq!['M', 'A', 'S'];
    let sam = seq!['S', 'A', 'M'];
    let a = Ix2s((center.0 - 1) as isize, (center.1 - 1) as isize);
    let b = Ix2s((center.0 + 1) as isize, (center.1 - 1) as isize);
    (needle_at(mas, t, a, Ix2s(1isize, 1isize)) || needle_at(sam, t, a, Ix2s(1isize, 1isize))) && (needle_at(
        mas,
        t,
        b,
        Ix2s(-1isize, 1isize),
    ) || needle_at(sam, t, b, Ix2s(-1isize, 1isize)))
}

/// Whether the center represents two diagonal 'MAS' words crossing, e.g.
/// M . S     S . S
/// . A . or  . A .
/// M . S     M . M
pub fn is_x_mas(t: &[Vec<char>], center: Ix2s) -> (b: bool)
    requires
        isize::MIN < center.0 < isize::MAX,
        isize::MIN < center.1 < isize::MAX,
    ensures
        b == x_mas_at(table::deep(t@), center),
{
    let mas = ['M', 'A', 'S'];
    let sam = ['S', 'A', 'M'];
    assert(mas@ =~= seq!['M', 'A', 'S']);
    assert(sam@ =~= seq!['S', 'A', 'M']);
    let a = Ix2s(center.0 - 1, center.1 - 1);
    let b = Ix2s(center.0 + 1, center.1 - 1);
    let down_right = is_needle(&mas, t, a, Ix2s(1, 1)) || is_needle(&sam, t, a, Ix2s(1, 1));
    let up_right = is_needle(&mas, t, b, Ix2s(-1, 1)) || is_needle(&sam, t, b, Ix2s(-1, 1));
    down_right && up_right
}

/// Number of the first `k` cells, in row-major order, that are centres of an X-MAS.
pub open spec fn count_x_mas(t: Seq<Seq<char>>, k: int) -> int
    decreases k,
{
    if k <= 0 {
        0
    } else {
        count_x_mas(t, k - 1) + (if x_mas_at(t, ix(table::all_index_seq(t)[k - 1])) {
            1int
        } else {
            0
        })
    }
}

/// Number of occurrences of "XMAS" in the word search.
pub fn part1(input: &str) -> (n: usize)
    requires
        small_table(parse::lines_of(input@)),
    ensures
        n == count_hits(
            seq!['X', 'M', 'A', 'S'],
            parse::lines_of(input@),
            table::all_index_seq(parse::lines_of(input@)).len() as int,
        ),
{
    let needle: &str = "XMAS";
    proof {
        reveal_strlit("XMAS");
    }
    assert(needle@ =~= seq!['X', 'M', 'A', 'S']);
    count_word(needle, input)
}

/// Number of X-MAS crossings in the word search.
pub fn part2(input: &str) -> (n: usize)
    requires
        small_table(parse::lines_of(input@)),
    ensures
        n == count_x_mas(
            parse::lines_of(input@),
            table::all_index_seq(parse::lines_of(input@)).len() as int,
        ),
{
    let t = table::to_char_table(input);
    let ghost tt = table::deep(t@);
    assert(tt =~= parse::lines_of(input@));
    assert(forall|r: int| 0 <= r < t@.len() ==> tt[r] == (#[trigger] t@[r])@);
    let idx = table::all_indexes(&t);
    let ghost all = table::all_index_seq(tt);
    assert forall|j: int| 0 <= j < idx@.len() implies 0 <= (#[trigger] idx@[j]).0 < isize::MAX && 0
        <= idx@[j].1 < isize::MAX by {
        table::lemma_all_index_seq_in_table(tt, j);
        assert(idx@.map_values(|p: Ix2s| (p.0 as int, p.1 as int))[j] == all[j]);
    }
    let mut n: usize = 0;
    let mut i: usize = 0;
    while i < idx.len()
        invariant
            tt == table::deep(t@),
            idx@.map_values(|p: Ix2s| (p.0 as int, p.1 as int)) == all,
            all == table::all_index_seq(tt),
            forall|j: int| 0 <= j < idx@.len() ==> 0 <= (#[trigger] idx@[j]).0 < isize::MAX && 0 <= idx@[j].1 < isize::MAX,
            i <= idx@.len(),
            n == count_x_mas(tt, i as int),
            n <= i,
        decreases idx@.len() - i,
    {
        let origin = idx[i];
        assert(ix(all[i as int]) == origin);
        if is_x_mas(&t, origin) {
            n += 1;
        }
        i += 1;
    }
    n
}

} // verus!
