use crate::lgl::data::array2d::{self, Grid};
use crate::lgl::data::index::Ix2s;
use crate::lgl::parse;
use vstd::prelude::*;

verus! {

// ---------------------------------------------------------------------------
// Antennas

/// An antenna: an ASCII digit or letter; its character is its frequency.
pub open spec fn antenna(c: char) -> bool {
    ('0' <= c && c <= '9') || ('a' <= c && c <= 'z') || ('A' <= c && c <= 'Z')
}

/// Whether the character is an antenna.
pub fn is_antenna(c: char) -> (b: bool)
    ensures
        b == antenna(c),
{
    ('0' <= c && c <= '9') || ('a' <= c && c <= 'z') || ('A' <= c && c <= 'Z')
}

/// The cell lies on the map.
pub open spec fn on_map(m: Seq<Seq<char>>, p: (int, int)) -> bool {
    0 <= p.0 < m.len() && 0 <= p.1 < m[p.0].len()
}

/// Two different cells hold antennas of the same frequency.
pub open spec fn pair(m: Seq<Seq<char>>, a: (int, int), b: (int, int)) -> bool {
    &&& on_map(m, a) && on_map(m, b) && a != b
    &&& antenna(m[a.0][a.1]) && m[a.0][a.1] == m[b.0][b.1]
}

/// `p` is an antinode: twice as far from one antenna of a pair as from the other, on their
/// line, beyond the first.
pub open spec fn antinode(m: Seq<Seq<char>>, p: (int, int)) -> bool {
    exists|a: (int, int), b: (int, int)| #[trigger] pair(m, a, b) && p == (2 * a.0 - b.0, 2 * a.1 - b.1)
}

/// `k` times the step from `b` to `a`, from `a`.
pub open spec fn at_step(a: (int, int), b: (int, int), k: int) -> (int, int) {
    (a.0 + k * (a.0 - b.0), a.1 + k * (a.1 - b.1))
}

/// `p` lies on the line through `a` and `b`, a whole number of their distances from `a`.
pub open spec fn on_ray(a: (int, int), b: (int, int), p: (int, int)) -> bool {
    exists|k: int| #[trigger] at_step(a, b, k) == p
}

/// `p` lies on the line of a pair, at a whole multiple of their distance from the first.
pub open spec fn on_line(m: Seq<Seq<char>>, p: (int, int)) -> bool {
    exists|a: (int, int), b: (int, int)| #[trigger] pair(m, a, b) && on_ray(a, b, p)
}

/// Number of the cells of row `r`, left of column `c`, that `f` holds.
pub open spec fn row_count(m: Seq<Seq<char>>, f: spec_fn(Seq<Seq<char>>, (int, int)) -> bool, r: int, c: int) -> nat
    decreases c,
{
    if c <= 0 {
        0
    } else {
        row_count(m, f, r, c - 1) + if f(m, (r, c - 1)) { 1nat } else { 0 }
    }
}

/// Number of the cells of the rows above `r` that `f` holds.
pub open spec fn map_count(m: Seq<Seq<char>>, f: spec_fn(Seq<Seq<char>>, (int, int)) -> bool, r: int) -> nat
    decreases r,
{
    if r <= 0 {
        0
    } else {
        map_count(m, f, r - 1) + row_count(m, f, r - 1, m[r - 1].len() as int)
    }
}

/// The map fits: rectangular, and small enough for every coordinate reached.
pub open spec fn map_ok(input: Seq<char>) -> bool {
    let m = parse::lines_of(input);
    &&& array2d::rectangular(m)
    &&& m.len() < 0x1000_0000
    &&& m.len() > 0 ==> m[0].len() < 0x1000_0000 && m.len() * m[0].len() <= usize::MAX
}

/// The antennas of the map, row by row, with their frequencies.
pub fn get_antennas(g: &Grid<char>) -> (v: Vec<(char, Ix2s)>)
    requires
        g.wf(),
        g.height() < 0x1000_0000,
        g.width < 0x1000_0000,
    ensures
        forall|i: int|
            0 <= i < v@.len() ==> {
                let (ch, p) = #[trigger] v@[i];
                &&& on_map(g.rows(), (p.0 as int, p.1 as int))
                &&& g.rows()[p.0 as int][p.1 as int] == ch
                &&& antenna(ch)
            },
        forall|r: int, c: int|
            on_map(g.rows(), (r, c)) && antenna(#[trigger] g.rows()[r][c]) ==> exists|i: int|
                0 <= i < v@.len() && #[trigger] v@[i] == (g.rows()[r][c], Ix2s(r as isize, c as isize)),
        forall|i: int, j: int| 0 <= i < j < v@.len() ==> #[trigger] v@[i].1 != #[trigger] v@[j].1,
{
    let ghost m = g.rows();
    let mut v: Vec<(char, Ix2s)> = Vec::new();
    let mut r: usize = 0;
    proof {
        assert forall|r: int| 0 <= r < g.height() implies (#[trigger] m[r]) == g.cells@[r]@ by {}
    }
    while r < g.cells.len()
        invariant
            g.wf(),
            m == g.rows(),
            g.height() < 0x1000_0000,
            g.width < 0x1000_0000,
            r <= g.height(),
            forall|i: int|
                0 <= i < v@.len() ==> {
                    let (ch, p) = #[trigger] v@[i];
                    &&& on_map(m, (p.0 as int, p.1 as int))
                    &&& m[p.0 as int][p.1 as int] == ch
                    &&& antenna(ch)
                    &&& p.0 < r
                },
            forall|r2: int, c: int|
                on_map(m, (r2, c)) && r2 < r && antenna(#[trigger] m[r2][c]) ==> exists|i: int|
                    0 <= i < v@.len() && #[trigger] v@[i] == (m[r2][c], Ix2s(r2 as isize, c as isize)),
            forall|i: int, j: int|
                0 <= i < j < v@.len() ==> (v@[i].1.0 < v@[j].1.0 || (v@[i].1.0 == v@[j].1.0 && v@[i].1.1 < v@[j].1.1)),
        decreases g.height() - r,
    {
        let mut c: usize = 0;
        let ghost v0 = v@;
        while c < g.width
            invariant
                g.wf(),
                m == g.rows(),
                g.height() < 0x1000_0000,
                g.width < 0x1000_0000,
                r < g.height(),
                c <= g.width,
                v0.len() <= v@.len(),
                forall|i: int| 0 <= i < v0.len() ==> #[trigger] v@[i] == v0[i],
                forall|i: int|
                    0 <= i < v@.len() ==> {
                        let (ch, p) = #[trigger] v@[i];
                        &&& on_map(m, (p.0 as int, p.1 as int))
                        &&& m[p.0 as int][p.1 as int] == ch
                        &&& antenna(ch)
                        &&& p.0 <= r
                        &&& (i >= v0.len() ==> p.0 == r && p.1 < c)
                    },
                forall|i: int| 0 <= i < v0.len() ==> (#[trigger] v@[i]).1.0 < r,
                forall|r2: int, c2: int|
                    on_map(m, (r2, c2)) && (r2 < r || (r2 == r && c2 < c)) && antenna(#[trigger] m[r2][c2]) ==> exists|i: int|
                        0 <= i < v@.len() && #[trigger] v@[i] == (m[r2][c2], Ix2s(r2 as isize, c2 as isize)),
                forall|i: int, j: int|
                    0 <= i < j < v@.len() ==> (v@[i].1.0 < v@[j].1.0 || (v@[i].1.0 == v@[j].1.0 && v@[i].1.1 < v@[j].1.1)),
            decreases g.width - c,
        {
            let ch = g.cells[r][c];
            proof {
                assert(m[r as int] == g.cells@[r as int]@);
            }
            if is_antenna(ch) {
                let ghost vb = v@;
                v.push((ch, Ix2s(r as isize, c as isize)));
                proof {
                    assert(v@[vb.len() as int] == (m[r as int][c as int], Ix2s(r as isize, c as isize)));
                    assert forall|r2: int, c2: int|
                        on_map(m, (r2, c2)) && (r2 < r || (r2 == r && c2 < c + 1)) && antenna(#[trigger] m[r2][c2]) implies exists|i: int|
                            0 <= i < v@.len() && #[trigger] v@[i] == (m[r2][c2], Ix2s(r2 as isize, c2 as isize)) by {
                        if r2 == r && c2 == c {
                            assert(v@[vb.len() as int] == (m[r2][c2], Ix2s(r2 as isize, c2 as isize)));
                        } else {
                            let i = choose|i: int| 0 <= i < vb.len() && #[trigger] vb[i] == (m[r2][c2], Ix2s(r2 as isize, c2 as isize));
                            assert(v@[i] == vb[i]);
                        }
                    }
                }
            }
            c += 1;
        }
        proof {
            assert forall|i: int| 0 <= i < v@.len() implies (#[trigger] v@[i]).1.0 < r + 1 by {
                if i < v0.len() {
                    assert(v@[i] == v0[i]);
                }
            }
        }
        r += 1;
    }
    v
}

/// The antenna `v[i]` and the antenna `v[j]` make a pair.
pub open spec fn list_pair(v: Seq<(char, Ix2s)>, i: int, j: int) -> bool {
    0 <= i < v.len() && 0 <= j < v.len() && i != j && v[i].0 == v[j].0
}

/// The position as a pair of integers.
pub open spec fn ipos(p: Ix2s) -> (int, int) {
    (p.0 as int, p.1 as int)
}

/// The list holds exactly the antennas of the map, each once.
pub open spec fn lists_antennas(m: Seq<Seq<char>>, v: Seq<(char, Ix2s)>) -> bool {
    &&& forall|i: int|
        0 <= i < v.len() ==> {
            let (ch, p) = #[trigger] v[i];
            &&& on_map(m, ipos(p))
            &&& m[p.0 as int][p.1 as int] == ch
            &&& antenna(ch)
        }
    &&& forall|r: int, c: int|
        on_map(m, (r, c)) && antenna(#[trigger] m[r][c]) ==> exists|i: int|
            0 <= i < v.len() && #[trigger] v[i] == (m[r][c], Ix2s(r as isize, c as isize))
    &&& forall|i: int, j: int| 0 <= i < j < v.len() ==> #[trigger] v[i].1 != #[trigger] v[j].1
}

/// The pairs of the map are the pairs of the list.
proof fn lemma_pairs(m: Seq<Seq<char>>, v: Seq<(char, Ix2s)>, a: (int, int), b: (int, int))
    requires
        lists_antennas(m, v),
        forall|r: int, c: int| #[trigger] on_map(m, (r, c)) ==> r <= isize::MAX && c <= isize::MAX,
    ensures
        pair(m, a, b) <==> exists|i: int, j: int| #[trigger] list_pair(v, i, j) && ipos(v[i].1) == a && ipos(v[j].1) == b,
{
    if pair(m, a, b) {
        assert(on_map(m, (a.0, a.1)));
        assert(on_map(m, (b.0, b.1)));
        assert(m[b.0][b.1] == m[a.0][a.1]);
        let i = choose|i: int| 0 <= i < v.len() && #[trigger] v[i] == (m[a.0][a.1], Ix2s(a.0 as isize, a.1 as isize));
        let j = choose|j: int| 0 <= j < v.len() && #[trigger] v[j] == (m[b.0][b.1], Ix2s(b.0 as isize, b.1 as isize));
        assert(list_pair(v, i, j));
    }
    if exists|i: int, j: int| #[trigger] list_pair(v, i, j) && ipos(v[i].1) == a && ipos(v[j].1) == b {
        let (i, j) = choose|i: int, j: int| #[trigger] list_pair(v, i, j) && ipos(v[i].1) == a && ipos(v[j].1) == b;
        let vi = v[i];
        let vj = v[j];
        if i < j {
            assert(v[i].1 != v[j].1);
        } else {
            assert(v[j].1 != v[i].1);
        }
    }
}

/// Each cell's mark.
pub(crate) fn new_marks(h: usize, w: usize) -> (marks: Vec<Vec<bool>>)
    ensures
        marks@.len() == h,
        forall|r: int| 0 <= r < h ==> (#[trigger] marks@[r])@.len() == w,
        forall|r: int, c: int| 0 <= r < h && 0 <= c < w ==> !#[trigger] marks@[r]@[c],
{
    let mut marks: Vec<Vec<bool>> = Vec::new();
    let mut r: usize = 0;
    while r < h
        invariant
            r <= h,
            marks@.len() == r,
            forall|q: int| 0 <= q < r ==> (#[trigger] marks@[q])@.len() == w,
            forall|q: int, c: int| 0 <= q < r && 0 <= c < w ==> !#[trigger] marks@[q]@[c],
        decreases h - r,
    {
        let mut row: Vec<bool> = Vec::new();
        let mut c: usize = 0;
        while c < w
            invariant
                c <= w,
                row@.len() == c,
                forall|x: int| 0 <= x < c ==> !row@[x],
            decreases w - c,
        {
            row.push(false);
            c += 1;
        }
        marks.push(row);
        r += 1;
    }
    marks
}

/// Number of marked cells, counted as `f` would be.
pub(crate) fn count_marks(marks: &Vec<Vec<bool>>, w: usize, Ghost(m): Ghost<Seq<Seq<char>>>, Ghost(f): Ghost<spec_fn(Seq<Seq<char>>, (int, int)) -> bool>) -> (n: usize)
    requires
        marks@.len() == m.len(),
        forall|r: int| 0 <= r < m.len() ==> (#[trigger] marks@[r])@.len() == m[r].len(),
        forall|r: int| 0 <= r < m.len() ==> (#[trigger] m[r]).len() == w,
        forall|r: int, c: int| 0 <= r < m.len() && 0 <= c < m[r].len() ==> #[trigger] marks@[r]@[c] == f(m, (r, c)),
        m.len() * w <= usize::MAX,
    ensures
        n == map_count(m, f, m.len() as int),
{
    let mut n: usize = 0;
    let mut r: usize = 0;
    while r < marks.len()
        invariant
            marks@.len() == m.len(),
            forall|q: int| 0 <= q < m.len() ==> (#[trigger] marks@[q])@.len() == m[q].len(),
            forall|q: int| 0 <= q < m.len() ==> (#[trigger] m[q]).len() == w,
            forall|q: int, c: int| 0 <= q < m.len() && 0 <= c < m[q].len() ==> #[trigger] marks@[q]@[c] == f(m, (q, c)),
            m.len() * w <= usize::MAX,
            r <= m.len(),
            n == map_count(m, f, r as int),
            n <= r * w,
        decreases m.len() - r,
    {
        let mut rc: usize = 0;
        let mut c: usize = 0;
        proof {
            assert(marks@[r as int]@.len() == m[r as int].len());
            assert(m[r as int].len() == w);
        }
        while c < marks[r].len()
            invariant
                marks@.len() == m.len(),
                r < m.len(),
                marks@[r as int]@.len() == m[r as int].len(),
                m[r as int].len() == w,
                forall|q: int, x: int| 0 <= q < m.len() && 0 <= x < m[q].len() ==> #[trigger] marks@[q]@[x] == f(m, (q, x)),
                c <= m[r as int].len(),
                rc == row_count(m, f, r as int, c as int),
                rc <= c,
            decreases m[r as int].len() - c,
        {
            if marks[r][c] {
                rc += 1;
            }
            c += 1;
        }
        proof {
            assert(n + rc <= (r + 1) * w) by (nonlinear_arith)
                requires
                    n <= r * w,
                    rc <= w,
            ;
            assert((r + 1) * w <= m.len() * w) by (nonlinear_arith)
                requires
                    r < m.len(),
            ;
        }
        n += rc;
        r += 1;
    }
    n
}

/// The map of the input.
pub fn read_map(input: &str) -> (g: Grid<char>)
    requires
        map_ok(input@),
    ensures
        g.wf(),
        g.rows() == parse::lines_of(input@),
        g.height() < 0x1000_0000,
        g.width < 0x1000_0000,
        g.height() * g.width <= usize::MAX,
{
    let g = array2d::from_chars(input);
    proof {
        let m = parse::lines_of(input@);
        if g.height() > 0 {
            assert(g.rows()[0] == g.cells@[0]@);
            assert(g.cells@[0]@.len() == g.width);
        }
    }
    g
}

/// Number of cells of the map that are antinodes of a pair.
pub fn part1(input: &str) -> (n: usize)
    requires
        map_ok(input@),
    ensures
        n == map_count(parse::lines_of(input@), |m: Seq<Seq<char>>, p: (int, int)| antinode(m, p), parse::lines_of(input@).len() as int),
{
    let ghost m = parse::lines_of(input@);
    let ghost f = |m: Seq<Seq<char>>, p: (int, int)| antinode(m, p);
    let g = read_map(input);
    let ants = get_antennas(&g);
    let h = g.cells.len();
    let w = g.width;
    let mut marks = new_marks(h, w);
    proof {
        assert forall|r: int| 0 <= r < h implies (#[trigger] m[r]).len() == w by {
            assert(m[r] == g.cells@[r]@);
        }
    }
    let n = ants.len();
    let mut i: usize = 0;
    while i < n
        invariant
            m == g.rows(),
            g.wf(),
            h == m.len(),
            w == g.width,
            h < 0x1000_0000,
            w < 0x1000_0000,
            forall|r: int| 0 <= r < h ==> (#[trigger] m[r]).len() == w,
            lists_antennas(m, ants@),
            n == ants@.len(),
            i <= n,
            marks@.len() == h,
            forall|r: int| 0 <= r < h ==> (#[trigger] marks@[r])@.len() == w,
            forall|r: int, c: int|
                0 <= r < h && 0 <= c < w ==> (#[trigger] marks@[r]@[c] <==> exists|i2: int, j2: int|
                    #[trigger] list_pair(ants@, i2, j2) && i2 < i && (r, c) == (2 * ants@[i2].1.0 - ants@[j2].1.0, 2 * ants@[i2].1.1 - ants@[j2].1.1)),
        decreases n - i,
    {
        let mut j: usize = 0;
        while j < n
            invariant
                m == g.rows(),
                g.wf(),
                h == m.len(),
                w == g.width,
                h < 0x1000_0000,
                w < 0x1000_0000,
                lists_antennas(m, ants@),
                n == ants@.len(),
                i < n,
                j <= n,
                marks@.len() == h,
                forall|r: int| 0 <= r < h ==> (#[trigger] marks@[r])@.len() == w,
                forall|r: int, c: int|
                    0 <= r < h && 0 <= c < w ==> (#[trigger] marks@[r]@[c] <==> exists|i2: int, j2: int|
                        #[trigger] list_pair(ants@, i2, j2) && (i2 < i || (i2 == i && j2 < j)) && (r, c) == (2 * ants@[i2].1.0 - ants@[j2].1.0, 2 * ants@[i2].1.1 - ants@[j2].1.1)),
            decreases n - j,
        {
            let ghost mk = marks@;
            if i != j && ants[i].0 == ants[j].0 {
                let a = ants[i].1;
                let b = ants[j].1;
                proof {
                    let vi = ants@[i as int];
                    let vj = ants@[j as int];
                    assert(on_map(m, ipos(a)));
                    assert(on_map(m, ipos(b)));
                }
                let node = Ix2s(2 * a.0 - b.0, 2 * a.1 - b.1);
                if array2d::contains(&g, node) {
                    let r = node.0 as usize;
                    let c = node.1 as usize;
                    marks[r].set(c, true);
                }
            }
            proof {
                assert forall|r: int, c: int|
                    0 <= r < h && 0 <= c < w implies (#[trigger] marks@[r]@[c] <==> exists|i2: int, j2: int|
                        #[trigger] list_pair(ants@, i2, j2) && (i2 < i || (i2 == i && j2 < j + 1)) && (r, c) == (2 * ants@[i2].1.0 - ants@[j2].1.0, 2 * ants@[i2].1.1 - ants@[j2].1.1)) by {
                    if list_pair(ants@, i as int, j as int) && (r, c) == (2 * ants@[i as int].1.0 - ants@[j as int].1.0, 2 * ants@[i as int].1.1 - ants@[j as int].1.1) {
                        assert(marks@[r]@[c]);
                    } else {
                        assert(marks@[r]@[c] == mk[r]@[c]);
                        if exists|i2: int, j2: int|
                            #[trigger] list_pair(ants@, i2, j2) && (i2 < i || (i2 == i && j2 < j + 1)) && (r, c) == (2 * ants@[i2].1.0 - ants@[j2].1.0, 2 * ants@[i2].1.1 - ants@[j2].1.1) {
                            let (i2, j2) = choose|i2: int, j2: int|
                                #[trigger] list_pair(ants@, i2, j2) && (i2 < i || (i2 == i && j2 < j + 1)) && (r, c) == (2 * ants@[i2].1.0 - ants@[j2].1.0, 2 * ants@[i2].1.1 - ants@[j2].1.1);
                            assert(i2 < i || (i2 == i && j2 < j));
                        }
                    }
                }
            }
            j += 1;
        }
        i += 1;
    }
    proof {
        assert forall|r: int, c: int| 0 <= r < m.len() && 0 <= c < m[r].len() implies #[trigger] marks@[r]@[c] == f(m, (r, c)) by {
            assert forall|r2: int, c2: int| #[trigger] on_map(m, (r2, c2)) implies r2 <= isize::MAX && c2 <= isize::MAX by {
                assert(m[r2].len() == w);
            }
            if marks@[r]@[c] {
                let (i2, j2) = choose|i2: int, j2: int|
                    #[trigger] list_pair(ants@, i2, j2) && i2 < n && (r, c) == (2 * ants@[i2].1.0 - ants@[j2].1.0, 2 * ants@[i2].1.1 - ants@[j2].1.1);
                let a = ipos(ants@[i2].1);
                let b = ipos(ants@[j2].1);
                lemma_pairs(m, ants@, a, b);
                assert(pair(m, a, b));
            }
            if f(m, (r, c)) {
                let (a, b) = choose|a: (int, int), b: (int, int)| #[trigger] pair(m, a, b) && (r, c) == (2 * a.0 - b.0, 2 * a.1 - b.1);
                lemma_pairs(m, ants@, a, b);
                let (i2, j2) = choose|i2: int, j2: int| #[trigger] list_pair(ants@, i2, j2) && ipos(ants@[i2].1) == a && ipos(ants@[j2].1) == b;
                assert(list_pair(ants@, i2, j2) && i2 < n);
            }
        }
    }
    count_marks(&marks, w, Ghost(m), Ghost(f))
}

/// On a line, the points within bounds on both axes form an interval of steps.
proof fn lemma_between(x0: int, d: int, k1: int, k2: int, k3: int, hi: int)
    requires
        k1 <= k2 <= k3,
        0 <= x0 + k1 * d < hi,
        0 <= x0 + k3 * d < hi,
    ensures
        0 <= x0 + k2 * d < hi,
{
    if d >= 0 {
        assert(k1 * d <= k2 * d <= k3 * d) by (nonlinear_arith)
            requires
                k1 <= k2 <= k3,
                d >= 0,
        ;
    } else {
        assert(k1 * d >= k2 * d >= k3 * d) by (nonlinear_arith)
            requires
                k1 <= k2 <= k3,
                d < 0,
        ;
    }
}

/// Walking from `x0` by a step `d` other than 0 leaves `[0, hi)` within `hi` steps.
proof fn lemma_steps_bound(x0: int, d: int, k: int, hi: int)
    requires
        0 <= x0 < hi,
        0 <= x0 + k * d < hi,
        d != 0,
        k >= 0,
    ensures
        k < hi,
{
    assert(k <= k * d || k <= -(k * d)) by (nonlinear_arith)
        requires
            d != 0,
            k >= 0,
    ;
}

proof fn lemma_ray_on_map(m: Seq<Seq<char>>, h: int, w: int, a: (int, int), b: (int, int), k1: int, k2: int, k3: int)
    requires
        m.len() == h,
        forall|r: int| 0 <= r < h ==> (#[trigger] m[r]).len() == w,
        k1 <= k2 <= k3,
        on_map(m, at_step(a, b, k1)),
        on_map(m, at_step(a, b, k3)),
    ensures
        on_map(m, at_step(a, b, k2)),
{
    let p1 = at_step(a, b, k1);
    let p3 = at_step(a, b, k3);
    assert(m[p1.0].len() == w);
    assert(m[p3.0].len() == w);
    lemma_between(a.0, a.0 - b.0, k1, k2, k3, h);
    lemma_between(a.1, a.1 - b.1, k1, k2, k3, w);
    assert(m[at_step(a, b, k2).0].len() == w);
}

/// Mark every cell of the map on the line of antennas `a` and `b`.
fn mark_line(g: &Grid<char>, marks: &mut Vec<Vec<bool>>, a: Ix2s, b: Ix2s)
    requires
        g.wf(),
        g.height() < 0x1000_0000,
        g.width < 0x1000_0000,
        on_map(g.rows(), ipos(a)),
        on_map(g.rows(), ipos(b)),
        a != b,
        old(marks)@.len() == g.height(),
        forall|r: int| 0 <= r < g.height() ==> (#[trigger] old(marks)@[r])@.len() == g.width,
    ensures
        final(marks)@.len() == g.height(),
        forall|r: int| 0 <= r < g.height() ==> (#[trigger] final(marks)@[r])@.len() == g.width,
        forall|r: int, c: int|
            0 <= r < g.height() && 0 <= c < g.width ==> (#[trigger] final(marks)@[r]@[c] == (old(marks)@[r]@[c]
                || on_ray(ipos(a), ipos(b), (r, c)))),
{
    let ghost m = g.rows();
    let ghost h = g.height();
    let ghost w = g.width as int;
    let ghost ai = ipos(a);
    let ghost bi = ipos(b);
    let ghost m0 = marks@;
    proof {
        assert forall|r: int| 0 <= r < h implies (#[trigger] m[r]).len() == w by {
            assert(m[r] == g.cells@[r]@);
        }
        assert(m[ai.0].len() == w);
        assert(m[bi.0].len() == w);
        assert(at_step(ai, bi, 0) == ai);
    }
    let d = Ix2s(a.0 - b.0, a.1 - b.1);
    // Forward from `a`.
    let mut pos = a;
    let ghost mut k: int = 0;
    while array2d::contains(g, pos)
        invariant
            g.wf(),
            m == g.rows(),
            h == g.height(),
            w == g.width,
            h < 0x1000_0000,
            w < 0x1000_0000,
            forall|r: int| 0 <= r < h ==> (#[trigger] m[r]).len() == w,
            on_map(m, ai),
            ai == ipos(a),
            bi == ipos(b),
            a != b,
            d.0 == ai.0 - bi.0 && d.1 == ai.1 - bi.1,
            0 <= k <= h + w,
            ipos(pos) == at_step(ai, bi, k),
            -0x1000_0000 < d.0 < 0x1000_0000 && -0x1000_0000 < d.1 < 0x1000_0000,
            -0x2000_0000 < pos.0 < 0x2000_0000 && -0x2000_0000 < pos.1 < 0x2000_0000,
            forall|x: int| 0 <= x < k ==> #[trigger] on_map(m, at_step(ai, bi, x)),
            marks@.len() == h,
            forall|r: int| 0 <= r < h ==> (#[trigger] marks@[r])@.len() == w,
            forall|r: int, c: int|
                0 <= r < h && 0 <= c < w ==> (#[trigger] marks@[r]@[c] == (m0[r]@[c] || exists|x: int|
                    0 <= x < k && #[trigger] at_step(ai, bi, x) == (r, c))),
        decreases h + w - k,
    {
        let ghost mk = marks@;
        marks[pos.0 as usize].set(pos.1 as usize, true);
        proof {
            assert(on_map(m, at_step(ai, bi, k)));
            if ai.0 != bi.0 {
                lemma_steps_bound(ai.0, d.0 as int, k, h);
            } else {
                lemma_steps_bound(ai.1, d.1 as int, k, w);
            }
            assert forall|r: int, c: int|
                0 <= r < h && 0 <= c < w implies (#[trigger] marks@[r]@[c] == (m0[r]@[c] || exists|x: int|
                    0 <= x < k + 1 && #[trigger] at_step(ai, bi, x) == (r, c))) by {
                if (r, c) == at_step(ai, bi, k) {
                    assert(marks@[r]@[c]);
                } else {
                    assert(marks@[r]@[c] == mk[r]@[c]);
                    if exists|x: int| 0 <= x < k + 1 && #[trigger] at_step(ai, bi, x) == (r, c) {
                        let x = choose|x: int| 0 <= x < k + 1 && #[trigger] at_step(ai, bi, x) == (r, c);
                        assert(x < k);
                    }
                }
            }
            assert(at_step(ai, bi, k + 1) == (at_step(ai, bi, k).0 + d.0, at_step(ai, bi, k).1 + d.1)) by (nonlinear_arith)
                requires
                    d.0 == ai.0 - bi.0,
                    d.1 == ai.1 - bi.1,
            ;
        }
        pos = Ix2s(pos.0 + d.0, pos.1 + d.1);
        proof {
            k = k + 1;
        }
    }
    let ghost kf = k;
    proof {
        if kf == 0 {
            assert(at_step(ai, bi, 0) == ai);
        }
    }
    // Backward from `a`.
    let mut pos = Ix2s(a.0 - d.0, a.1 - d.1);
    let ghost mut k: int = 1;
    proof {
        assert(at_step(ai, bi, -1) == (ai.0 - d.0, ai.1 - d.1));
    }
    while array2d::contains(g, pos)
        invariant
            g.wf(),
            m == g.rows(),
            h == g.height(),
            w == g.width,
            h < 0x1000_0000,
            w < 0x1000_0000,
            forall|r: int| 0 <= r < h ==> (#[trigger] m[r]).len() == w,
            on_map(m, ai),
            ai == ipos(a),
            bi == ipos(b),
            a != b,
            d.0 == ai.0 - bi.0 && d.1 == ai.1 - bi.1,
            1 <= k <= h + w,
            ipos(pos) == at_step(ai, bi, -k),
            -0x1000_0000 < d.0 < 0x1000_0000 && -0x1000_0000 < d.1 < 0x1000_0000,
            -0x2000_0000 < pos.0 < 0x2000_0000 && -0x2000_0000 < pos.1 < 0x2000_0000,
            forall|x: int| 0 <= x < kf ==> #[trigger] on_map(m, at_step(ai, bi, x)),
            !on_map(m, at_step(ai, bi, kf)),
            kf >= 1,
            forall|x: int| -k < x <= 0 ==> #[trigger] on_map(m, at_step(ai, bi, x)),
            marks@.len() == h,
            forall|r: int| 0 <= r < h ==> (#[trigger] marks@[r])@.len() == w,
            forall|r: int, c: int|
                0 <= r < h && 0 <= c < w ==> (#[trigger] marks@[r]@[c] == (m0[r]@[c] || exists|x: int|
                    -k < x < kf && #[trigger] at_step(ai, bi, x) == (r, c))),
        decreases h + w - k,
    {
        let ghost mk = marks@;
        marks[pos.0 as usize].set(pos.1 as usize, true);
        proof {
            assert(on_map(m, at_step(ai, bi, -k)));
            assert(k * (-(d.0 as int)) == (-k) * (d.0 as int)) by (nonlinear_arith);
            assert(k * (-(d.1 as int)) == (-k) * (d.1 as int)) by (nonlinear_arith);
            assert(m[at_step(ai, bi, -k).0].len() == w);
            if ai.0 != bi.0 {
                lemma_steps_bound(ai.0, -(d.0 as int), k, h);
            } else {
                lemma_steps_bound(ai.1, -(d.1 as int), k, w);
            }
            assert forall|r: int, c: int|
                0 <= r < h && 0 <= c < w implies (#[trigger] marks@[r]@[c] == (m0[r]@[c] || exists|x: int|
                    -(k + 1) < x < kf && #[trigger] at_step(ai, bi, x) == (r, c))) by {
                let nk = -k;
                if (r, c) == at_step(ai, bi, nk) {
                    assert(marks@[r]@[c]);
                    assert(-(k + 1) < nk < kf && at_step(ai, bi, nk) == (r, c));
                } else {
                    assert(marks@[r]@[c] == mk[r]@[c]);
                    if exists|x: int| -(k + 1) < x < kf && #[trigger] at_step(ai, bi, x) == (r, c) {
                        let x = choose|x: int| -(k + 1) < x < kf && #[trigger] at_step(ai, bi, x) == (r, c);
                        assert(x != nk);
                        assert(-k < x < kf);
                    }
                    if exists|x: int| -k < x < kf && #[trigger] at_step(ai, bi, x) == (r, c) {
                        let x = choose|x: int| -k < x < kf && #[trigger] at_step(ai, bi, x) == (r, c);
                        assert(-(k + 1) < x < kf);
                    }
                }
            }
            assert(at_step(ai, bi, -(k + 1)) == (at_step(ai, bi, -k).0 - d.0, at_step(ai, bi, -k).1 - d.1)) by (nonlinear_arith)
                requires
                    d.0 == ai.0 - bi.0,
                    d.1 == ai.1 - bi.1,
            ;
        }
        pos = Ix2s(pos.0 - d.0, pos.1 - d.1);
        proof {
            k = k + 1;
        }
    }
    proof {
        assert forall|r: int, c: int|
            0 <= r < h && 0 <= c < w implies (#[trigger] marks@[r]@[c] == (m0[r]@[c] || on_ray(ai, bi, (r, c)))) by {
            if on_ray(ai, bi, (r, c)) {
                let x = choose|x: int| #[trigger] at_step(ai, bi, x) == (r, c);
                assert(m[r].len() == w);
                assert(on_map(m, at_step(ai, bi, x)));
                if x >= kf {
                    lemma_ray_on_map(m, h, w, ai, bi, 0, kf, x);
                }
                if x <= -k {
                    lemma_ray_on_map(m, h, w, ai, bi, x, -k, 0);
                }
            }
        }
    }
}

/// Number of cells of the map on the line of a pair.
pub fn part2(input: &str) -> (n: usize)
    requires
        map_ok(input@),
    ensures
        n == map_count(parse::lines_of(input@), |m: Seq<Seq<char>>, p: (int, int)| on_line(m, p), parse::lines_of(input@).len() as int),
{
    let ghost m = parse::lines_of(input@);
    let ghost f = |m: Seq<Seq<char>>, p: (int, int)| on_line(m, p);
    let g = read_map(input);
    let ants = get_antennas(&g);
    let h = g.cells.len();
    let w = g.width;
    let mut marks = new_marks(h, w);
    proof {
        assert forall|r: int| 0 <= r < h implies (#[trigger] m[r]).len() == w by {
            assert(m[r] == g.cells@[r]@);
        }
    }
    let n = ants.len();
    let mut i: usize = 0;
    while i < n
        invariant
            m == g.rows(),
            g.wf(),
            h == m.len(),
            w == g.width,
            h < 0x1000_0000,
            w < 0x1000_0000,
            forall|r: int| 0 <= r < h ==> (#[trigger] m[r]).len() == w,
            lists_antennas(m, ants@),
            n == ants@.len(),
            i <= n,
            marks@.len() == h,
            forall|r: int| 0 <= r < h ==> (#[trigger] marks@[r])@.len() == w,
            forall|r: int, c: int|
                0 <= r < h && 0 <= c < w ==> (#[trigger] marks@[r]@[c] <==> exists|i2: int, j2: int|
                    #[trigger] list_pair(ants@, i2, j2) && i2 < i && on_ray(ipos(ants@[i2].1), ipos(ants@[j2].1), (r, c))),
        decreases n - i,
    {
        let mut j: usize = 0;
        while j < n
            invariant
                m == g.rows(),
                g.wf(),
                h == m.len(),
                w == g.width,
                h < 0x1000_0000,
                w < 0x1000_0000,
                lists_antennas(m, ants@),
                n == ants@.len(),
                i < n,
                j <= n,
                marks@.len() == h,
                forall|r: int| 0 <= r < h ==> (#[trigger] marks@[r])@.len() == w,
                forall|r: int, c: int|
                    0 <= r < h && 0 <= c < w ==> (#[trigger] marks@[r]@[c] <==> exists|i2: int, j2: int|
                        #[trigger] list_pair(ants@, i2, j2) && (i2 < i || (i2 == i && j2 < j)) && on_ray(ipos(ants@[i2].1), ipos(ants@[j2].1), (r, c))),
            decreases n - j,
        {
            let ghost mk = marks@;
            if i != j && ants[i].0 == ants[j].0 {
                let a = ants[i].1;
                let b = ants[j].1;
                proof {
                    let vi = ants@[i as int];
                    let vj = ants@[j as int];
                    if i < j {
                        assert(ants@[i as int].1 != ants@[j as int].1);
                    } else {
                        assert(ants@[j as int].1 != ants@[i as int].1);
                    }
                }
                mark_line(&g, &mut marks, a, b);
            }
            proof {
                assert forall|r: int, c: int|
                    0 <= r < h && 0 <= c < w implies (#[trigger] marks@[r]@[c] <==> exists|i2: int, j2: int|
                        #[trigger] list_pair(ants@, i2, j2) && (i2 < i || (i2 == i && j2 < j + 1)) && on_ray(ipos(ants@[i2].1), ipos(ants@[j2].1), (r, c))) by {
                    if list_pair(ants@, i as int, j as int) && on_ray(ipos(ants@[i as int].1), ipos(ants@[j as int].1), (r, c)) {
                        assert(marks@[r]@[c]);
                    } else {
                        assert(marks@[r]@[c] == mk[r]@[c]);
                        if exists|i2: int, j2: int|
                            #[trigger] list_pair(ants@, i2, j2) && (i2 < i || (i2 == i && j2 < j + 1)) && on_ray(ipos(ants@[i2].1), ipos(ants@[j2].1), (r, c)) {
                            let (i2, j2) = choose|i2: int, j2: int|
                                #[trigger] list_pair(ants@, i2, j2) && (i2 < i || (i2 == i && j2 < j + 1)) && on_ray(ipos(ants@[i2].1), ipos(ants@[j2].1), (r, c));
                            assert(i2 < i || (i2 == i && j2 < j));
                        }
                    }
                }
            }
            j += 1;
        }
        i += 1;
    }
    proof {
        assert forall|r: int, c: int| 0 <= r < m.len() && 0 <= c < m[r].len() implies #[trigger] marks@[r]@[c] == f(m, (r, c)) by {
            assert forall|r2: int, c2: int| #[trigger] on_map(m, (r2, c2)) implies r2 <= isize::MAX && c2 <= isize::MAX by {
                assert(m[r2].len() == w);
            }
            if marks@[r]@[c] {
                let (i2, j2) = choose|i2: int, j2: int|
                    #[trigger] list_pair(ants@, i2, j2) && i2 < n && on_ray(ipos(ants@[i2].1), ipos(ants@[j2].1), (r, c));
                let a = ipos(ants@[i2].1);
                let b = ipos(ants@[j2].1);
                lemma_pairs(m, ants@, a, b);
                assert(pair(m, a, b));
            }
            if f(m, (r, c)) {
                let (a, b) = choose|a: (int, int), b: (int, int)| #[trigger] pair(m, a, b) && on_ray(a, b, (r, c));
                lemma_pairs(m, ants@, a, b);
                let (i2, j2) = choose|i2: int, j2: int| #[trigger] list_pair(ants@, i2, j2) && ipos(ants@[i2].1) == a && ipos(ants@[j2].1) == b;
                assert(list_pair(ants@, i2, j2) && i2 < n);
            }
        }
    }
    count_marks(&marks, w, Ghost(m), Ghost(f))
}

} // verus!
