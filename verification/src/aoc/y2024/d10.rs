use crate::lgl::data::array2d::{self, Grid};
use crate::lgl::data::index::Ix2s;
use crate::lgl::parse;
use std::collections::HashSet;
use vstd::prelude::*;

verus! {

broadcast use vstd::std_specs::hash::group_hash_axioms;

// ---------------------------------------------------------------------------
// The map

/// A height far from the limits of `i32`.
pub open spec fn height_ok(v: i32) -> bool {
    -1_000_000_000 < v < 1_000_000_000
}

/// The heights of the map, row by row.
pub open spec fn hmap(g: &Grid<i32>) -> Seq<Seq<int>> {
    g.cells@.map_values(|row: Vec<i32>| row@.map_values(|h: i32| h as int))
}

/// A rectangular map whose cells can be numbered `r * width + c` in a `usize`, with heights
/// far from the limits of `i32`.
pub open spec fn valid_map(g: &Grid<i32>) -> bool {
    &&& g.wf()
    &&& g.height() < isize::MAX
    &&& g.width < isize::MAX
    &&& g.height() * g.width <= usize::MAX
    &&& forall|r: int, c: int| 0 <= r < g.height() && 0 <= c < g.width ==> height_ok(#[trigger] g.at(r, c))
}

pub open spec fn in_grid(m: Seq<Seq<int>>, p: (int, int)) -> bool {
    0 <= p.0 < m.len() && 0 <= p.1 < m[p.0].len()
}

pub open spec fn hgt(m: Seq<Seq<int>>, p: (int, int)) -> int {
    m[p.0][p.1]
}

/// The four directions, in the order down, up, right, left.
pub open spec fn dir(k: int) -> (int, int) {
    if k == 0 {
        (1, 0)
    } else if k == 1 {
        (-1, 0)
    } else if k == 2 {
        (0, 1)
    } else {
        (0, -1)
    }
}

pub open spec fn neighbor(p: (int, int), k: int) -> (int, int) {
    (p.0 + dir(k).0, p.1 + dir(k).1)
}

/// The neighbours of `pos` among the first `k` directions that have height `target`.
pub open spec fn adjacent(m: Seq<Seq<int>>, pos: (int, int), target: int, k: int) -> Seq<(int, int)>
    decreases k,
{
    if k <= 0 {
        seq![]
    } else {
        let q = neighbor(pos, k - 1);
        adjacent(m, pos, target, k - 1) + if in_grid(m, q) && hgt(m, q) == target {
            seq![q]
        } else {
            seq![]
        }
    }
}

/// The tiles one step up from `p`.
pub open spec fn children(m: Seq<Seq<int>>, p: (int, int)) -> Seq<(int, int)> {
    adjacent(m, p, hgt(m, p) + 1, 4)
}

/// The tiles one step down from `p`.
pub open spec fn parents(m: Seq<Seq<int>>, p: (int, int)) -> Seq<(int, int)> {
    adjacent(m, p, hgt(m, p) - 1, 4)
}

pub open spec fn upos(v: (usize, usize)) -> (int, int) {
    (v.0 as int, v.1 as int)
}

pub open spec fn upos_seq(v: Seq<(usize, usize)>) -> Seq<(int, int)> {
    v.map_values(|p: (usize, usize)| upos(p))
}

proof fn lemma_adjacent(m: Seq<Seq<int>>, pos: (int, int), target: int, k: int)
    requires
        0 <= k <= 4,
    ensures
        forall|j: int|
            0 <= j < adjacent(m, pos, target, k).len() ==> in_grid(m, #[trigger] adjacent(m, pos, target, k)[j])
                && hgt(m, adjacent(m, pos, target, k)[j]) == target,
        forall|q: (int, int)|
            adjacent(m, pos, target, k).contains(q) <==> exists|d: int|
                0 <= d < k && #[trigger] neighbor(pos, d) == q && in_grid(m, q) && hgt(m, q) == target,
        adjacent(m, pos, target, k).no_duplicates(),
        adjacent(m, pos, target, k).len() <= k,
    decreases k,
{
    if k > 0 {
        lemma_adjacent(m, pos, target, k - 1);
        let a = adjacent(m, pos, target, k - 1);
        let q = neighbor(pos, k - 1);
        assert forall|q2: (int, int)|
            adjacent(m, pos, target, k).contains(q2) <==> exists|d: int|
                0 <= d < k && #[trigger] neighbor(pos, d) == q2 && in_grid(m, q2) && hgt(m, q2) == target by {
            if adjacent(m, pos, target, k).contains(q2) {
                let j = choose|j: int| 0 <= j < adjacent(m, pos, target, k).len() && adjacent(m, pos, target, k)[j] == q2;
                if j < a.len() {
                    assert(a[j] == q2);
                    assert(a.contains(q2));
                } else {
                    assert(neighbor(pos, k - 1) == q2);
                }
            }
            if exists|d: int|
                0 <= d < k && #[trigger] neighbor(pos, d) == q2 && in_grid(m, q2) && hgt(m, q2) == target {
                let d = choose|d: int|
                    0 <= d < k && #[trigger] neighbor(pos, d) == q2 && in_grid(m, q2) && hgt(m, q2) == target;
                if d < k - 1 {
                    assert(a.contains(q2));
                    let j = choose|j: int| 0 <= j < a.len() && a[j] == q2;
                    assert(adjacent(m, pos, target, k)[j] == q2);
                } else {
                    assert(adjacent(m, pos, target, k)[a.len() as int] == q2);
                }
            }
        }
        if in_grid(m, q) && hgt(m, q) == target {
            assert(!a.contains(q)) by {
                if a.contains(q) {
                    let d = choose|d: int|
                        0 <= d < k - 1 && #[trigger] neighbor(pos, d) == q && in_grid(m, q) && hgt(m, q) == target;
                }
            }
        }
    }
}

/// The heights of the input: each character's code less that of '0'.
pub open spec fn heights_of(input: Seq<char>) -> Seq<Seq<int>> {
    parse::lines_of(input).map_values(|l: Seq<char>| l.map_values(|c: char| c as int - 48))
}

/// Every character is a Unicode scalar value, from 0 to 0x10FFFF (true of any `char`).
pub open spec fn scalar_chars(lines: Seq<Seq<char>>) -> bool {
    forall|i: int, j: int| 0 <= i < lines.len() && 0 <= j < lines[i].len() ==> 0 <= (#[trigger] lines[i][j]) as int <= 0x10FFFF
}

/// The map of the input.
pub fn parse_input(input: &str) -> (g: Grid<i32>)
    requires
        array2d::rectangular(parse::lines_of(input@)),
        scalar_chars(parse::lines_of(input@)),
    ensures
        g.wf(),
        g.height() == parse::lines_of(input@).len(),
        forall|r: int, c: int|
            0 <= r < g.height() && 0 <= c < g.width ==> #[trigger] g.at(r, c) as int == heights_of(input@)[r][c],
        g.height() > 0 ==> g.width == parse::lines_of(input@)[0].len(),
        hmap(&g) == heights_of(input@),
{
    let chars = array2d::from_chars(input);
    let ghost lines = parse::lines_of(input@);
    let mut cells: Vec<Vec<i32>> = Vec::new();
    let mut r: usize = 0;
    proof {
        assert forall|i: int| 0 <= i < chars.cells@.len() implies (#[trigger] chars.cells@[i])@ == lines[i] by {
            assert(chars.rows()[i] == chars.cells@[i]@);
        }
    }
    while r < chars.cells.len()
        invariant
            chars.wf(),
            lines == parse::lines_of(input@),
            scalar_chars(lines),
            chars.cells@.len() == lines.len(),
            forall|i: int| 0 <= i < chars.cells@.len() ==> (#[trigger] chars.cells@[i])@ == lines[i],
            r <= chars.cells@.len(),
            cells@.len() == r,
            forall|i: int| 0 <= i < r ==> (#[trigger] cells@[i])@.len() == chars.width,
            forall|i: int, c: int|
                0 <= i < r && 0 <= c < chars.width ==> #[trigger] cells@[i]@[c] as int == lines[i][c] as int - 48,
        decreases chars.cells@.len() - r,
    {
        let mut row: Vec<i32> = Vec::new();
        let mut c: usize = 0;
        while c < chars.width
            invariant
                chars.wf(),
                scalar_chars(lines),
                chars.cells@.len() == lines.len(),
                forall|i: int| 0 <= i < chars.cells@.len() ==> (#[trigger] chars.cells@[i])@ == lines[i],
                r < chars.cells@.len(),
                chars.cells@[r as int]@.len() == chars.width,
                c <= chars.width,
                row@.len() == c,
                forall|j: int| 0 <= j < c ==> #[trigger] row@[j] as int == chars.cells@[r as int]@[j] as int - 48,
            decreases chars.width - c,
        {
            let ch = chars.cells[r][c];
            assert(lines[r as int][c as int] == ch);
            assert(0 <= ch as int <= 0x10FFFF);
            let code = ch as u32;
            assert(code as int == ch as int);
            assert(code as i32 as int == code as int);
            row.push(code as i32 - '0' as i32);
            c += 1;
        }
        cells.push(row);
        r += 1;
    }
    let g = Grid { cells, width: chars.width };
    proof {
        assert forall|i: int| 0 <= i < g.height() implies #[trigger] hmap(&g)[i] =~= heights_of(input@)[i] by {
            assert(lines[i].len() == chars.width) by {
                assert(chars.cells@[i]@ == lines[i]);
            }
        }
        assert(hmap(&g) =~= heights_of(input@));
    }
    g
}

/// The neighbours of `pos`, down, up, right, left, that have height `target`.
pub fn get_adjacent(map: &Grid<i32>, pos: (usize, usize), target: i32) -> (v: Vec<(usize, usize)>)
    requires
        valid_map(map),
        in_grid(hmap(map), upos(pos)),
    ensures
        upos_seq(v@) == adjacent(hmap(map), upos(pos), target as int, 4),
{
    let drs = vec![Ix2s(1, 0), Ix2s(-1, 0), Ix2s(0, 1), Ix2s(0, -1)];
    let p = Ix2s(pos.0 as isize, pos.1 as isize);
    let mut out: Vec<(usize, usize)> = Vec::new();
    let mut k: usize = 0;
    while k < 4
        invariant
            valid_map(map),
            in_grid(hmap(map), upos(pos)),
            p.0 == pos.0 && p.1 == pos.1,
            drs@ == seq![Ix2s(1, 0), Ix2s(-1isize, 0), Ix2s(0, 1), Ix2s(0, -1isize)],
            k <= 4,
            upos_seq(out@) == adjacent(hmap(map), upos(pos), target as int, k as int),
        decreases 4 - k,
    {
        let d = drs[k];
        assert(d.0 == dir(k as int).0 && d.1 == dir(k as int).1);
        let r = p.add(d);
        let ghost before = out@;
        match array2d::get(map, r) {
            Some(h) => {
                if *h == target {
                    out.push((r.0 as usize, r.1 as usize));
                }
            },
            None => {},
        }
        proof {
            let q = neighbor(upos(pos), k as int);
            assert(r.0 == q.0 && r.1 == q.1);
            assert(upos_seq(out@) =~= adjacent(hmap(map), upos(pos), target as int, k + 1));
        }
        k += 1;
    }
    out
}

/// All adjacent tiles accessible from the given position.
pub fn get_children(map: &Grid<i32>, pos: (usize, usize)) -> (v: Vec<(usize, usize)>)
    requires
        valid_map(map),
        in_grid(hmap(map), upos(pos)),
    ensures
        upos_seq(v@) == children(hmap(map), upos(pos)),
{
    assert(height_ok(map.at(pos.0 as int, pos.1 as int)));
    let target_height = map.cells[pos.0][pos.1] + 1;
    get_adjacent(map, pos, target_height)
}

/// All adjacent tiles with access to the given position.
pub fn get_parents(map: &Grid<i32>, pos: (usize, usize)) -> (v: Vec<(usize, usize)>)
    requires
        valid_map(map),
        in_grid(hmap(map), upos(pos)),
    ensures
        upos_seq(v@) == parents(hmap(map), upos(pos)),
{
    assert(height_ok(map.at(pos.0 as int, pos.1 as int)));
    let target_height = map.cells[pos.0][pos.1] - 1;
    get_adjacent(map, pos, target_height)
}

// ---------------------------------------------------------------------------
// Trail scores

/// The tiles reachable from `p` by exactly `k` steps up.
pub open spec fn reach(m: Seq<Seq<int>>, p: (int, int), k: nat) -> Set<(int, int)>
    decreases k,
{
    if k == 0 {
        set![p]
    } else {
        Set::new(
            |q: (int, int)|
                exists|r: (int, int)|
                    #[trigger] reach(m, p, (k - 1) as nat).contains(r) && children(m, r).contains(q),
        )
    }
}

/// The tiles reachable from `p` by fewer than `k` steps up.
pub open spec fn reach_before(m: Seq<Seq<int>>, p: (int, int), k: nat) -> Set<(int, int)> {
    Set::new(|q: (int, int)| exists|j: nat| j < k && #[trigger] reach(m, p, j).contains(q))
}

/// The tiles reachable from `p` by steps up.
pub open spec fn reachable(m: Seq<Seq<int>>, p: (int, int), q: (int, int)) -> bool {
    exists|k: nat| #[trigger] reach(m, p, k).contains(q)
}

/// The tiles of height 9 reachable from `p`.
pub open spec fn reachable_nines(m: Seq<Seq<int>>, p: (int, int)) -> Set<(int, int)> {
    Set::new(|q: (int, int)| reachable(m, p, q) && hgt(m, q) == 9)
}

/// The tiles that some tile of `us` leads up to.
pub open spec fn kids_of(m: Seq<Seq<int>>, us: Seq<(int, int)>) -> Set<(int, int)> {
    Set::new(|q: (int, int)| exists|r: (int, int)| us.contains(r) && #[trigger] children(m, r).contains(q))
}

/// The number of a tile in a map `w` wide: `r * w + c`.
pub open spec fn key(w: int, q: (int, int)) -> int {
    q.0 * w + q.1
}

pub open spec fn keys_of(w: int, s: Seq<(int, int)>) -> Set<u64> {
    Set::new(|k: u64| exists|q: (int, int)| s.contains(q) && key(w, q) == k as int)
}

proof fn lemma_key(g: &Grid<i32>, a: (int, int), b: (int, int))
    requires
        valid_map(g),
        in_grid(hmap(g), a),
        in_grid(hmap(g), b),
    ensures
        0 <= key(g.width as int, a) < g.height() * g.width,
        key(g.width as int, a) == key(g.width as int, b) ==> a == b,
{
    let w = g.width as int;
    let h = g.height();
    assert(hmap(g)[a.0].len() == g.cells@[a.0]@.len());
    assert(hmap(g)[b.0].len() == g.cells@[b.0]@.len());
    assert(0 <= a.0 * w + a.1 < h * w) by (nonlinear_arith)
        requires
            0 <= a.0 < h,
            0 <= a.1 < w,
    ;
    if key(w, a) == key(w, b) {
        if a.0 < b.0 {
            assert(a.0 * w + a.1 < b.0 * w + b.1) by (nonlinear_arith)
                requires
                    a.0 < b.0,
                    0 <= a.1 < w,
                    0 <= b.1,
            ;
        } else if b.0 < a.0 {
            assert(b.0 * w + b.1 < a.0 * w + a.1) by (nonlinear_arith)
                requires
                    b.0 < a.0,
                    0 <= b.1 < w,
                    0 <= a.1,
            ;
        }
    }
}

/// Tiles reachable in `k` steps stand `k` above the start.
proof fn lemma_reach_height(m: Seq<Seq<int>>, p: (int, int), k: nat, q: (int, int))
    requires
        in_grid(m, p),
        reach(m, p, k).contains(q),
    ensures
        in_grid(m, q),
        hgt(m, q) == hgt(m, p) + k,
    decreases k,
{
    if k > 0 {
        let r = choose|r: (int, int)|
            #[trigger] reach(m, p, (k - 1) as nat).contains(r) && children(m, r).contains(q);
        lemma_reach_height(m, p, (k - 1) as nat, r);
        lemma_adjacent(m, r, hgt(m, r) + 1, 4);
        let j = choose|j: int| 0 <= j < children(m, r).len() && children(m, r)[j] == q;
    }
}

/// Nothing is reachable past a step that reaches nothing.
proof fn lemma_reach_empty(m: Seq<Seq<int>>, p: (int, int), k: nat, j: nat)
    requires
        reach(m, p, k).is_empty(),
        k <= j,
    ensures
        reach(m, p, j).is_empty(),
    decreases j - k,
{
    if k < j {
        assert(reach(m, p, k + 1) =~= Set::empty()) by {
            assert forall|q: (int, int)| !#[trigger] reach(m, p, k + 1).contains(q) by {
                if reach(m, p, k + 1).contains(q) {
                    let r = choose|r: (int, int)| #[trigger] reach(m, p, k).contains(r) && children(m, r).contains(q);
                }
            }
        }
        lemma_reach_empty(m, p, k + 1, j);
    }
}

proof fn lemma_push_to_set<A>(s: Seq<A>, x: A)
    ensures
        s.push(x).to_set() == s.to_set().insert(x),
{
    assert forall|y: A| #[trigger] s.push(x).to_set().contains(y) <==> s.to_set().insert(x).contains(y) by {
        if s.push(x).contains(y) && y != x {
            let m = choose|m: int| 0 <= m < s.push(x).len() && s.push(x)[m] == y;
            assert(s[m] == y);
        }
        if s.contains(y) {
            let m = choose|m: int| 0 <= m < s.len() && s[m] == y;
            assert(s.push(x)[m] == y);
        }
        if y == x {
            assert(s.push(x)[s.len() as int] == x);
        }
    }
    assert(s.push(x).to_set() =~= s.to_set().insert(x));
}

/// The number of tile `q`.
fn tile_key(map: &Grid<i32>, q: (usize, usize)) -> (k: u64)
    requires
        valid_map(map),
        in_grid(hmap(map), upos(q)),
    ensures
        k == key(map.width as int, upos(q)),
{
    proof {
        lemma_key(map, upos(q), upos(q));
    }
    (q.0 * map.width + q.1) as u64
}

/// Expands visited tiles by one step: the unexplored tiles move to the explored ones, and
/// the unexplored ones become the tiles they lead up to that were not visited yet.
pub fn add_adjacent_tiles(
    map: &Grid<i32>,
    unexplored: &mut Vec<(usize, usize)>,
    explored: &mut Vec<(usize, usize)>,
    seen: &mut HashSet<u64>,
)
    requires
        valid_map(map),
        forall|i: int| 0 <= i < old(unexplored)@.len() ==> in_grid(hmap(map), #[trigger] upos(old(unexplored)@[i])),
        forall|i: int| 0 <= i < old(explored)@.len() ==> in_grid(hmap(map), #[trigger] upos(old(explored)@[i])),
        old(seen)@ == keys_of(map.width as int, upos_seq(old(unexplored)@) + upos_seq(old(explored)@)),
        upos_seq(old(unexplored)@).no_duplicates(),
    ensures
        final(explored)@ == old(explored)@ + old(unexplored)@,
        upos_seq(final(unexplored)@).to_set() == kids_of(hmap(map), upos_seq(old(unexplored)@)).difference(
            (upos_seq(old(unexplored)@) + upos_seq(old(explored)@)).to_set(),
        ),
        upos_seq(final(unexplored)@).no_duplicates(),
        forall|i: int| 0 <= i < final(unexplored)@.len() ==> in_grid(hmap(map), #[trigger] upos(final(unexplored)@[i])),
        final(seen)@ == keys_of(map.width as int, upos_seq(final(unexplored)@) + upos_seq(final(explored)@)),
{
    let ghost u0 = upos_seq(unexplored@);
    let ghost e0 = upos_seq(explored@);
    let ghost old_seen = seen@;
    let ghost visited = u0 + e0;
    let mut unvisited: Vec<(usize, usize)> = Vec::new();
    let mut i: usize = 0;
    while i < unexplored.len()
        invariant
            valid_map(map),
            u0 == upos_seq(unexplored@),
            e0 == upos_seq(explored@),
            visited == u0 + e0,
            forall|k: int| 0 <= k < unexplored@.len() ==> in_grid(hmap(map), #[trigger] upos(unexplored@[k])),
            forall|k: int| 0 <= k < explored@.len() ==> in_grid(hmap(map), #[trigger] upos(explored@[k])),
            i <= u0.len(),
            upos_seq(unvisited@).to_set() == kids_of(hmap(map), u0.take(i as int)).difference(visited.to_set()),
            upos_seq(unvisited@).no_duplicates(),
            forall|k: int| 0 <= k < unvisited@.len() ==> in_grid(hmap(map), #[trigger] upos(unvisited@[k])),
            seen@ == keys_of(map.width as int, visited + upos_seq(unvisited@)),
        decreases u0.len() - i,
    {
        let pos = unexplored[i];
        let kids = get_children(map, pos);
        proof {
            lemma_adjacent(hmap(map), upos(pos), hgt(hmap(map), upos(pos)) + 1, 4);
        }
        let mut j: usize = 0;
        while j < kids.len()
            invariant
                valid_map(map),
                u0 == upos_seq(unexplored@),
                e0 == upos_seq(explored@),
                visited == u0 + e0,
                forall|k: int| 0 <= k < unexplored@.len() ==> in_grid(hmap(map), #[trigger] upos(unexplored@[k])),
                forall|k: int| 0 <= k < explored@.len() ==> in_grid(hmap(map), #[trigger] upos(explored@[k])),
                i < u0.len(),
                pos == unexplored@[i as int],
                upos_seq(kids@) == children(hmap(map), upos(pos)),
                forall|k: int|
                    0 <= k < children(hmap(map), upos(pos)).len() ==> in_grid(hmap(map), #[trigger] children(hmap(map), upos(pos))[k]),
                j <= kids@.len(),
                upos_seq(unvisited@).to_set() == kids_of(hmap(map), u0.take(i as int)).union(
                    upos_seq(kids@).take(j as int).to_set(),
                ).difference(visited.to_set()),
                upos_seq(unvisited@).no_duplicates(),
                forall|k: int| 0 <= k < unvisited@.len() ==> in_grid(hmap(map), #[trigger] upos(unvisited@[k])),
                seen@ == keys_of(map.width as int, visited + upos_seq(unvisited@)),
            decreases kids@.len() - j,
        {
            let c = kids[j];
            proof {
                assert(upos_seq(kids@)[j as int] == upos(c));
                assert(in_grid(hmap(map), children(hmap(map), upos(pos))[j as int]));
            }
            let kc = tile_key(map, c);
            let ghost before = unvisited@;
            let ghost found = kids_of(hmap(map), u0.take(i as int)).union(upos_seq(kids@).take(j as int).to_set());
            let ghost found2 = kids_of(hmap(map), u0.take(i as int)).union(upos_seq(kids@).take(j + 1).to_set());
            proof {
                assert(upos_seq(kids@).take(j + 1) =~= upos_seq(kids@).take(j as int).push(upos(c)));
                lemma_push_to_set(upos_seq(kids@).take(j as int), upos(c));
                assert(found2 =~= found.insert(upos(c)));
            }
            // Whether the tile was visited or found before.
            let fresh = !seen.contains(&kc);
            proof {
                let all = visited + upos_seq(before);
                if fresh {
                    assert(!all.contains(upos(c))) by {
                        if all.contains(upos(c)) {
                            assert(keys_of(map.width as int, all).contains(kc));
                        }
                    }
                } else {
                    assert(keys_of(map.width as int, all).contains(kc));
                    let q = choose|q: (int, int)| all.contains(q) && key(map.width as int, q) == kc as int;
                    let m = choose|m: int| 0 <= m < all.len() && all[m] == q;
                    if m < u0.len() {
                        assert(in_grid(hmap(map), upos(unexplored@[m])));
                        assert(all[m] == upos(unexplored@[m]));
                    } else if m < visited.len() {
                        assert(in_grid(hmap(map), upos(explored@[m - u0.len()])));
                        assert(all[m] == upos(explored@[m - u0.len()]));
                    } else {
                        assert(in_grid(hmap(map), upos(before[m - visited.len()])));
                        assert(all[m] == upos(before[m - visited.len()]));
                    }
                    lemma_key(map, q, upos(c));
                    assert(all.contains(upos(c)));
                }
            }
            if fresh {
                seen.insert(kc);
                unvisited.push(c);
                proof {
                    assert(upos_seq(unvisited@) =~= upos_seq(before).push(upos(c)));
                    assert(!upos_seq(before).contains(upos(c))) by {
                        if upos_seq(before).contains(upos(c)) {
                            let m = choose|m: int| 0 <= m < upos_seq(before).len() && upos_seq(before)[m] == upos(c);
                            assert((visited + upos_seq(before))[visited.len() + m] == upos(c));
                        }
                    }
                    assert(!visited.contains(upos(c))) by {
                        if visited.contains(upos(c)) {
                            let m = choose|m: int| 0 <= m < visited.len() && visited[m] == upos(c);
                            assert((visited + upos_seq(before))[m] == upos(c));
                        }
                    }
                    lemma_push_to_set(upos_seq(before), upos(c));
                    assert(upos_seq(unvisited@).to_set() =~= found2.difference(visited.to_set()));
                    assert(seen@ =~= keys_of(map.width as int, visited + upos_seq(unvisited@))) by {
                        assert((visited + upos_seq(unvisited@)) =~= (visited + upos_seq(before)).push(upos(c)));
                        assert forall|w: u64| seen@.contains(w) <==> #[trigger] keys_of(
                            map.width as int,
                            visited + upos_seq(unvisited@),
                        ).contains(w) by {
                            let all2 = visited + upos_seq(unvisited@);
                            if w == kc {
                                assert(all2[(visited.len() + before.len()) as int] == upos(c));
                                assert(all2.contains(upos(c)));
                            } else if keys_of(map.width as int, visited + upos_seq(before)).contains(w) {
                                let q = choose|q: (int, int)| (visited + upos_seq(before)).contains(q) && key(map.width as int, q) == w as int;
                                let m = choose|m: int| 0 <= m < (visited + upos_seq(before)).len() && (visited + upos_seq(before))[m] == q;
                                assert(all2[m] == q);
                            }
                            if keys_of(map.width as int, all2).contains(w) {
                                let q = choose|q: (int, int)| all2.contains(q) && key(map.width as int, q) == w as int;
                                let m = choose|m: int| 0 <= m < all2.len() && all2[m] == q;
                                if m < all2.len() - 1 {
                                    assert((visited + upos_seq(before))[m] == q);
                                    assert(keys_of(map.width as int, visited + upos_seq(before)).contains(w));
                                }
                            }
                        }
                    }
                    assert forall|k: int| 0 <= k < unvisited@.len() implies in_grid(hmap(map), #[trigger] upos(unvisited@[k])) by {
                        if k < before.len() {
                            assert(unvisited@[k] == before[k]);
                        }
                    }
                }
            } else {
                proof {
                    assert(upos_seq(unvisited@).to_set() =~= found2.difference(visited.to_set())) by {
                        if !visited.contains(upos(c)) {
                            assert(upos_seq(before).contains(upos(c)));
                        }
                    }
                }
            }
            j += 1;
        }
        proof {
            assert(upos_seq(kids@).take(kids@.len() as int) =~= upos_seq(kids@));
            let t1 = u0.take(i + 1);
            let t0 = u0.take(i as int);
            assert(t1 =~= t0.push(upos(pos)));
            assert(u0[i as int] == upos(pos));
            assert forall|q: (int, int)| #[trigger] kids_of(hmap(map), t1).contains(q) <==> kids_of(
                hmap(map),
                t0,
            ).contains(q) || upos_seq(kids@).to_set().contains(q) by {
                if kids_of(hmap(map), t1).contains(q) {
                    let r = choose|r: (int, int)| t1.contains(r) && #[trigger] children(hmap(map), r).contains(q);
                    if r != upos(pos) {
                        let m = choose|m: int| 0 <= m < t1.len() && t1[m] == r;
                        assert(t0[m] == r);
                        assert(t0.contains(r));
                    }
                }
                if kids_of(hmap(map), t0).contains(q) {
                    let r = choose|r: (int, int)| t0.contains(r) && #[trigger] children(hmap(map), r).contains(q);
                    let m = choose|m: int| 0 <= m < t0.len() && t0[m] == r;
                    assert(t1[m] == r);
                }
                if upos_seq(kids@).to_set().contains(q) {
                    assert(t1[i as int] == upos(pos));
                    assert(t1.contains(upos(pos)));
                }
            }
            assert(kids_of(hmap(map), t1) =~= kids_of(hmap(map), t0).union(upos_seq(kids@).to_set()));
        }
        i += 1;
    }
    proof {
        assert(u0.take(u0.len() as int) =~= u0);
    }
    let mut k: usize = 0;
    let ghost e_start = explored@;
    while k < unexplored.len()
        invariant
            k <= unexplored@.len(),
            explored@ == e_start + unexplored@.take(k as int),
        decreases unexplored@.len() - k,
    {
        explored.push(unexplored[k]);
        assert(unexplored@.take(k + 1) =~= unexplored@.take(k as int).push(unexplored@[k as int]));
        k += 1;
    }
    proof {
        assert(unexplored@.take(unexplored@.len() as int) =~= unexplored@);
        assert(upos_seq(unvisited@) + upos_seq(explored@) =~= upos_seq(unvisited@) + (e0 + u0));
        assert forall|w: u64| #[trigger] keys_of(map.width as int, visited + upos_seq(unvisited@)).contains(w) <==> keys_of(
            map.width as int,
            upos_seq(unvisited@) + upos_seq(explored@),
        ).contains(w) by {
            let a = visited + upos_seq(unvisited@);
            let b = upos_seq(unvisited@) + upos_seq(explored@);
            assert(a.to_set() =~= b.to_set()) by {
                assert forall|q: (int, int)| a.contains(q) <==> #[trigger] b.contains(q) by {
                    if a.contains(q) {
                        let m = choose|m: int| 0 <= m < a.len() && a[m] == q;
                        if m < u0.len() {
                            assert(b[unvisited@.len() + e0.len() + m] == q);
                        } else if m < visited.len() {
                            assert(b[unvisited@.len() + (m - u0.len())] == q);
                        } else {
                            assert(b[m - visited.len()] == q);
                        }
                    }
                    if b.contains(q) {
                        let m = choose|m: int| 0 <= m < b.len() && b[m] == q;
                        if m < unvisited@.len() {
                            assert(a[visited.len() + m] == q);
                        } else if m < unvisited@.len() + e0.len() {
                            assert(a[u0.len() + (m - unvisited@.len())] == q);
                        } else {
                            assert(a[m - unvisited@.len() - e0.len()] == q);
                        }
                    }
                }
            }
            if keys_of(map.width as int, a).contains(w) {
                let q = choose|q: (int, int)| a.contains(q) && key(map.width as int, q) == w as int;
                assert(a.to_set().contains(q));
                assert(b.contains(q));
            }
            if keys_of(map.width as int, b).contains(w) {
                let q = choose|q: (int, int)| b.contains(q) && key(map.width as int, q) == w as int;
                assert(b.to_set().contains(q));
                assert(a.contains(q));
            }
        }
        assert(seen@ =~= keys_of(map.width as int, upos_seq(unvisited@) + upos_seq(explored@)));
    }
    *unexplored = unvisited;
}

/// Number of tiles with height 9 that are reachable from this position.
pub fn get_trail_score(map: &Grid<i32>, trailhead: (usize, usize)) -> (score: usize)
    requires
        valid_map(map),
        in_grid(hmap(map), upos(trailhead)),
    ensures
        score == reachable_nines(hmap(map), upos(trailhead)).len(),
{
    let ghost m = hmap(map);
    let ghost p = upos(trailhead);
    let mut unexplored: Vec<(usize, usize)> = Vec::new();
    unexplored.push(trailhead);
    let mut explored: Vec<(usize, usize)> = Vec::new();
    let mut seen: HashSet<u64> = HashSet::new();
    let k0 = tile_key(map, trailhead);
    seen.insert(k0);
    let ghost mut k: nat = 0;
    proof {
        assert(height_ok(map.at(p.0, p.1)));
        assert(upos_seq(unexplored@) =~= seq![p]);
        assert(upos_seq(unexplored@).to_set() =~= reach(m, p, 0)) by {
            assert(seq![p][0] == p);
            assert(seq![p].contains(p));
        }
        assert(upos_seq(explored@).to_set() =~= reach_before(m, p, 0));
        assert(seen@ =~= keys_of(map.width as int, upos_seq(unexplored@) + upos_seq(explored@))) by {
            assert(upos_seq(unexplored@) + upos_seq(explored@) =~= seq![p]);
            assert forall|w: u64| #[trigger] seen@.contains(w) <==> keys_of(map.width as int, seq![p]).contains(w) by {
                if w == k0 {
                    assert(seq![p][0] == p);
                }
            }
        }
    }
    while unexplored.len() > 0
        invariant
            valid_map(map),
            m == hmap(map),
            in_grid(m, p),
            upos_seq(unexplored@).to_set() == reach(m, p, k),
            upos_seq(unexplored@).no_duplicates(),
            upos_seq(explored@).to_set() == reach_before(m, p, k),
            upos_seq(explored@).no_duplicates(),
            forall|i: int| 0 <= i < unexplored@.len() ==> in_grid(m, #[trigger] upos(unexplored@[i])),
            forall|i: int| 0 <= i < explored@.len() ==> in_grid(m, #[trigger] upos(explored@[i])),
            seen@ == keys_of(map.width as int, upos_seq(unexplored@) + upos_seq(explored@)),
            hgt(m, p) + k <= 1_000_000_000,
        decreases 1_000_000_000 - hgt(m, p) - k,
    {
        let ghost u = upos_seq(unexplored@);
        let ghost e = upos_seq(explored@);
        proof {
            let q = u[0];
            assert(u.to_set().contains(q));
            lemma_reach_height(m, p, k, q);
            assert(height_ok(map.at(q.0, q.1)));
        }
        add_adjacent_tiles(map, &mut unexplored, &mut explored, &mut seen);
        proof {
            // The new frontier: everything one step up from the old one, since no tile of it
            // was visited (it stands higher than all of them).
            assert(kids_of(m, u) =~= reach(m, p, k + 1)) by {
                assert forall|q: (int, int)| #[trigger] kids_of(m, u).contains(q) <==> reach(m, p, k + 1).contains(q) by {
                    if kids_of(m, u).contains(q) {
                        let r = choose|r: (int, int)| u.contains(r) && #[trigger] children(m, r).contains(q);
                        assert(u.to_set().contains(r));
                        assert(reach(m, p, k).contains(r));
                    }
                    if reach(m, p, k + 1).contains(q) {
                        let r = choose|r: (int, int)| #[trigger] reach(m, p, k).contains(r) && children(m, r).contains(q);
                        assert(u.to_set().contains(r));
                    }
                }
            }
            assert forall|q: (int, int)| reach(m, p, k + 1).contains(q) implies !#[trigger] (u + e).to_set().contains(q) by {
                lemma_reach_height(m, p, k + 1, q);
                if (u + e).contains(q) {
                    let i = choose|i: int| 0 <= i < (u + e).len() && (u + e)[i] == q;
                    if i < u.len() {
                        assert(u.to_set().contains(q));
                        lemma_reach_height(m, p, k, q);
                    } else {
                        assert(e[i - u.len()] == q);
                        assert(e.to_set().contains(q));
                        let j = choose|j: nat| j < k && #[trigger] reach(m, p, j).contains(q);
                        lemma_reach_height(m, p, j, q);
                    }
                }
            }
            assert(upos_seq(unexplored@).to_set() =~= reach(m, p, k + 1));
            assert(upos_seq(explored@) =~= e + u);
            assert(upos_seq(explored@).to_set() =~= reach_before(m, p, k + 1)) by {
                assert forall|q: (int, int)| #[trigger] (e + u).contains(q) <==> reach_before(m, p, k + 1).contains(q) by {
                    if (e + u).contains(q) {
                        let i = choose|i: int| 0 <= i < (e + u).len() && (e + u)[i] == q;
                        if i < e.len() {
                            assert(e.to_set().contains(q));
                            let j = choose|j: nat| j < k && #[trigger] reach(m, p, j).contains(q);
                            assert(reach(m, p, j).contains(q));
                        } else {
                            assert(u[i - e.len()] == q);
                            assert(u.to_set().contains(q));
                            assert(reach(m, p, k).contains(q));
                        }
                    }
                    if reach_before(m, p, k + 1).contains(q) {
                        let j = choose|j: nat| j < k + 1 && #[trigger] reach(m, p, j).contains(q);
                        if j < k {
                            assert(reach_before(m, p, k).contains(q));
                            assert(e.to_set().contains(q));
                            let i = choose|i: int| 0 <= i < e.len() && e[i] == q;
                            assert((e + u)[i] == q);
                        } else {
                            assert(u.to_set().contains(q));
                            let i = choose|i: int| 0 <= i < u.len() && u[i] == q;
                            assert((e + u)[e.len() + i] == q);
                        }
                    }
                }
            }
            assert((e + u).no_duplicates()) by {
                assert forall|i: int, j: int| 0 <= i < j < (e + u).len() implies (e + u)[i] != (e + u)[j] by {
                    if i < e.len() && j >= e.len() {
                        let q = e[i];
                        assert(e.to_set().contains(q));
                        let jj = choose|jj: nat| jj < k && #[trigger] reach(m, p, jj).contains(q);
                        lemma_reach_height(m, p, jj, q);
                        assert(u[j - e.len()] == (e + u)[j]);
                        assert(u.to_set().contains(u[j - e.len()]));
                        lemma_reach_height(m, p, k, u[j - e.len()]);
                    }
                }
            }
            assert forall|i: int| 0 <= i < explored@.len() implies in_grid(m, #[trigger] upos(explored@[i])) by {
                assert(upos_seq(explored@)[i] == upos(explored@[i]));
                if i < e.len() {
                    assert(e[i] == upos(explored@[i]));
                } else {
                    assert(u[i - e.len()] == upos(explored@[i]));
                }
            }
            k = k + 1;
        }
    }
    proof {
        assert forall|j: nat| k <= j implies #[trigger] reach(m, p, j).is_empty() by {
            assert(upos_seq(unexplored@) =~= seq![]);
            assert(reach(m, p, k) =~= Set::empty());
            lemma_reach_empty(m, p, k, j);
        }
    }
    let ghost e = upos_seq(explored@);
    let mut count: usize = 0;
    let ghost mut ns: Seq<(int, int)> = seq![];
    let mut i: usize = 0;
    while i < explored.len()
        invariant
            valid_map(map),
            m == hmap(map),
            e == upos_seq(explored@),
            e.no_duplicates(),
            forall|j: int| 0 <= j < explored@.len() ==> in_grid(m, #[trigger] upos(explored@[j])),
            i <= explored@.len(),
            ns.no_duplicates(),
            count == ns.len(),
            ns.len() <= i,
            forall|q: (int, int)| #[trigger] ns.contains(q) <==> e.take(i as int).contains(q) && hgt(m, q) == 9,
        decreases explored@.len() - i,
    {
        let q = explored[i];
        let ghost t0 = e.take(i as int);
        let ghost t1 = e.take(i + 1);
        proof {
            assert(e[i as int] == upos(q));
            assert(t1 =~= t0.push(upos(q)));
            assert(!t0.contains(upos(q))) by {
                if t0.contains(upos(q)) {
                    let j = choose|j: int| 0 <= j < i && t0[j] == upos(q);
                    assert(e[j] == e[i as int]);
                }
            }
            assert(map.cells@[q.0 as int]@[q.1 as int] as int == hgt(m, upos(q)));
        }
        if map.cells[q.0][q.1] == 9 {
            count += 1;
            proof {
                let ns0 = ns;
                assert(!ns0.contains(upos(q)));
                ns = ns.push(upos(q));
                assert forall|x: (int, int)| #[trigger] ns.contains(x) <==> t1.contains(x) && hgt(m, x) == 9 by {
                    if x == upos(q) {
                        assert(ns[ns.len() - 1] == x);
                        assert(t1[i as int] == x);
                    } else {
                        if ns.contains(x) {
                            let j = choose|j: int| 0 <= j < ns.len() && ns[j] == x;
                            assert(ns0[j] == x);
                            assert(ns0.contains(x));
                            assert(t0.contains(x));
                            let j2 = choose|j2: int| 0 <= j2 < t0.len() && t0[j2] == x;
                            assert(t1[j2] == x);
                        }
                        if t1.contains(x) && hgt(m, x) == 9 {
                            let j = choose|j: int| 0 <= j < t1.len() && t1[j] == x;
                            assert(j != i);
                            assert(t0[j] == x);
                            assert(t0.contains(x));
                            assert(ns0.contains(x));
                            let j3 = choose|j3: int| 0 <= j3 < ns0.len() && ns0[j3] == x;
                            assert(ns[j3] == x);
                        }
                    }
                }
            }
        } else {
            proof {
                assert forall|x: (int, int)| #[trigger] ns.contains(x) <==> t1.contains(x) && hgt(m, x) == 9 by {
                    if t1.contains(x) && hgt(m, x) == 9 {
                        let j = choose|j: int| 0 <= j < i + 1 && t1[j] == x;
                        if j < i {
                            assert(t0[j] == x);
                        }
                    }
                    if ns.contains(x) {
                        assert(t0.contains(x));
                        let j2 = choose|j2: int| 0 <= j2 < t0.len() && t0[j2] == x;
                        assert(t1[j2] == x);
                    }
                }
            }
        }
        i += 1;
    }
    proof {
        assert(e.take(e.len() as int) =~= e);
        assert(ns.to_set() =~= reachable_nines(m, p)) by {
            assert forall|q: (int, int)| #[trigger] ns.to_set().contains(q) <==> reachable_nines(m, p).contains(q) by {
                if reachable(m, p, q) {
                    let j = choose|j: nat| #[trigger] reach(m, p, j).contains(q);
                    if j >= k {
                        assert(reach(m, p, j).is_empty());
                    }
                    assert(reach_before(m, p, k).contains(q));
                    assert(e.to_set().contains(q));
                }
                if e.contains(q) {
                    assert(e.to_set().contains(q));
                    let j = choose|j: nat| j < k && #[trigger] reach(m, p, j).contains(q);
                    assert(reachable(m, p, q));
                }
            }
        }
        ns.unique_seq_to_set();
    }
    count
}

/// The positions in row `r`, before column `c`, with height `val`.
pub open spec fn row_matches(m: Seq<Seq<int>>, val: int, r: int, c: int) -> Seq<(int, int)>
    decreases c,
{
    if c <= 0 {
        seq![]
    } else {
        row_matches(m, val, r, c - 1) + if m[r][c - 1] == val {
            seq![(r, c - 1)]
        } else {
            seq![]
        }
    }
}

/// The positions in the rows before `r` with height `val`, row by row.
pub open spec fn matches_upto(m: Seq<Seq<int>>, val: int, r: int) -> Seq<(int, int)>
    decreases r,
{
    if r <= 0 {
        seq![]
    } else {
        matches_upto(m, val, r - 1) + row_matches(m, val, r - 1, m[r - 1].len() as int)
    }
}

/// All the positions with height `val`, in row-major order.
pub open spec fn indexes_of(m: Seq<Seq<int>>, val: int) -> Seq<(int, int)> {
    matches_upto(m, val, m.len() as int)
}

/// All the indexes with the given value
pub fn find_indexes(map: &Grid<i32>, val: i32) -> (v: Vec<(usize, usize)>)
    requires
        valid_map(map),
    ensures
        upos_seq(v@) == indexes_of(hmap(map), val as int),
        forall|i: int|
            0 <= i < v@.len() ==> in_grid(hmap(map), #[trigger] upos(v@[i])) && hgt(hmap(map), upos(v@[i]))
                == val,
{
    let ghost m = hmap(map);
    let mut out: Vec<(usize, usize)> = Vec::new();
    let mut r: usize = 0;
    while r < map.cells.len()
        invariant
            valid_map(map),
            m == hmap(map),
            r <= m.len(),
            upos_seq(out@) == matches_upto(m, val as int, r as int),
            forall|i: int|
                0 <= i < out@.len() ==> in_grid(m, #[trigger] upos(out@[i])) && hgt(m, upos(out@[i])) == val,
        decreases m.len() - r,
    {
        let ghost base = upos_seq(out@);
        assert(m[r as int].len() == map.width);
        let mut c: usize = 0;
        while c < map.width
            invariant
                valid_map(map),
                m == hmap(map),
                r < m.len(),
                m[r as int].len() == map.width,
                c <= map.width,
                upos_seq(out@) == base + row_matches(m, val as int, r as int, c as int),
                forall|i: int|
                    0 <= i < out@.len() ==> in_grid(m, #[trigger] upos(out@[i])) && hgt(m, upos(out@[i])) == val,
            decreases map.width - c,
        {
            let ghost before = out@;
            assert(m[r as int][c as int] == map.cells@[r as int]@[c as int] as int);
            if map.cells[r][c] == val {
                out.push((r, c));
            }
            proof {
                let c1 = c + 1;
                let hit = m[r as int][c as int] == val as int;
                assert(row_matches(m, val as int, r as int, c1) == row_matches(m, val as int, r as int, c as int) + if hit {
                    seq![(r as int, c as int)]
                } else {
                    seq![]
                });
                if hit {
                    assert(upos_seq(out@) =~= upos_seq(before).push((r as int, c as int)));
                } else {
                    assert(upos_seq(out@) =~= upos_seq(before));
                }
                assert(upos_seq(out@) =~= base + row_matches(m, val as int, r as int, c1));
                assert forall|i: int|
                    0 <= i < out@.len() implies in_grid(m, #[trigger] upos(out@[i])) && hgt(m, upos(out@[i])) == val by {
                    if i < before.len() {
                        assert(out@[i] == before[i]);
                    }
                }
            }
            c += 1;
        }
        proof {
            assert(upos_seq(out@) =~= matches_upto(m, val as int, r + 1));
        }
        r += 1;
    }
    out
}

/// The positions of height 0, where trails start.
pub fn get_trailheads(map: &Grid<i32>) -> (v: Vec<(usize, usize)>)
    requires
        valid_map(map),
    ensures
        upos_seq(v@) == indexes_of(hmap(map), 0),
        forall|i: int|
            0 <= i < v@.len() ==> in_grid(hmap(map), #[trigger] upos(v@[i])) && hgt(hmap(map), upos(v@[i]))
                == 0,
{
    find_indexes(map, 0)
}

/// Sum over the trailheads of the number of height-9 tiles each reaches.
pub open spec fn score_sum(m: Seq<Seq<int>>, heads: Seq<(int, int)>) -> int
    decreases heads.len(),
{
    if heads.len() == 0 {
        0
    } else {
        score_sum(m, heads.drop_last()) + reachable_nines(m, heads.last()).len()
    }
}

/// The map of the input fits the limits: its size, as `r * width + c`, fits a `usize`.
pub open spec fn map_fits(input: Seq<char>) -> bool {
    let lines = parse::lines_of(input);
    &&& array2d::rectangular(lines)
    &&& scalar_chars(lines)
    &&& lines.len() < isize::MAX
    &&& (lines.len() > 0 ==> lines[0].len() < isize::MAX && lines.len() * lines[0].len() <= usize::MAX)
}

proof fn lemma_map_of(input: Seq<char>, g: &Grid<i32>)
    requires
        map_fits(input),
        g.wf(),
        g.height() == parse::lines_of(input).len(),
        forall|r: int, c: int|
            0 <= r < g.height() && 0 <= c < g.width ==> #[trigger] g.at(r, c) as int == heights_of(input)[r][c],
        g.height() > 0 ==> g.width == parse::lines_of(input)[0].len(),
        hmap(g) == heights_of(input),
    ensures
        valid_map(g) || g.height() == 0,
{
    let lines = parse::lines_of(input);
    if g.height() > 0 {
        assert forall|r: int, c: int| 0 <= r < g.height() && 0 <= c < g.width implies height_ok(#[trigger] g.at(r, c)) by {
            assert(lines[r].len() == lines[0].len());
            assert(0 <= lines[r][c] as int <= 0x10FFFF);
        }
    }
}

/// Sum of the trailheads' scores: the number of height-9 tiles each reaches.
pub fn part1(input: &str) -> (total: usize)
    requires
        map_fits(input@),
        score_sum(heights_of(input@), indexes_of(heights_of(input@), 0)) <= usize::MAX,
    ensures
        total == score_sum(heights_of(input@), indexes_of(heights_of(input@), 0)),
{
    let map = parse_input(input);
    if map.cells.len() == 0 {
        proof {
            assert(indexes_of(heights_of(input@), 0) =~= seq![]);
        }
        return 0;
    }
    proof {
        lemma_map_of(input@, &map);
    }
    let heads = get_trailheads(&map);
    let ghost m = hmap(&map);
    let ghost hs = upos_seq(heads@);
    let mut total: usize = 0;
    let mut i: usize = 0;
    proof {
        lemma_score_sum_prefix(m, hs, hs.len() as int);
        assert(hs.take(hs.len() as int) =~= hs);
    }
    while i < heads.len()
        invariant
            valid_map(&map),
            m == hmap(&map),
            hs == upos_seq(heads@),
            i <= hs.len(),
            forall|j: int| 0 <= j < heads@.len() ==> in_grid(m, #[trigger] upos(heads@[j])),
            score_sum(m, hs) <= usize::MAX,
            total == score_sum(m, hs.take(i as int)),
        decreases hs.len() - i,
    {
        let s = get_trail_score(&map, heads[i]);
        proof {
            assert(hs.take(i + 1).drop_last() =~= hs.take(i as int));
            assert(hs.take(i + 1).last() == upos(heads@[i as int]));
            lemma_score_sum_prefix(m, hs, i + 1);
        }
        total += s;
        i += 1;
    }
    proof {
        assert(hs.take(hs.len() as int) =~= hs);
    }
    total
}

proof fn lemma_score_sum_prefix(m: Seq<Seq<int>>, hs: Seq<(int, int)>, k: int)
    requires
        0 <= k <= hs.len(),
    ensures
        0 <= score_sum(m, hs.take(k)) <= score_sum(m, hs),
    decreases hs.len(),
{
    if hs.len() > 0 {
        if k < hs.len() {
            lemma_score_sum_prefix(m, hs.drop_last(), k);
            assert(hs.drop_last().take(k) =~= hs.take(k));
        } else {
            assert(hs.take(k) =~= hs);
            lemma_score_sum_prefix(m, hs.drop_last(), k - 1);
            assert(hs.drop_last().take(k - 1) =~= hs.drop_last());
        }
    } else {
        assert(hs.take(k) =~= hs);
    }
}

// ---------------------------------------------------------------------------
// Trail ratings

/// One if `p` is at height 9.
pub open spec fn nine(m: Seq<Seq<int>>, p: (int, int)) -> int {
    if hgt(m, p) == 9 {
        1
    } else {
        0
    }
}

/// A step up from `p` in direction `d` stays on the map.
pub open spec fn up_ok(m: Seq<Seq<int>>, p: (int, int), d: int) -> bool {
    in_grid(m, neighbor(p, d)) && hgt(m, neighbor(p, d)) == hgt(m, p) + 1
}

/// The number of trails from `p`: one ending here if `p` is at height 9, and those going on
/// up through each neighbour one higher.
pub open spec fn paths(m: Seq<Seq<int>>, p: (int, int)) -> int
    decreases 1_000_000_000 - hgt(m, p), 5int,
{
    if !in_grid(m, p) || hgt(m, p) <= -1_000_000_000 || hgt(m, p) >= 1_000_000_000 {
        0
    } else {
        nine(m, p) + dir_paths(m, p, 4)
    }
}

/// The trails from `p` going up through its first `k` directions.
pub open spec fn dir_paths(m: Seq<Seq<int>>, p: (int, int), k: int) -> int
    decreases 1_000_000_000 - hgt(m, p), k,
{
    if k <= 0 || !in_grid(m, p) || hgt(m, p) <= -1_000_000_000 || hgt(m, p) >= 1_000_000_000 {
        0
    } else {
        dir_paths(m, p, k - 1) + if up_ok(m, p, k - 1) {
            paths(m, neighbor(p, k - 1))
        } else {
            0
        }
    }
}

/// Sum of the trails from the tiles of `cs` that are among `done`.
pub open spec fn done_sum(m: Seq<Seq<int>>, cs: Seq<(int, int)>, done: Set<(int, int)>) -> int
    decreases cs.len(),
{
    if cs.len() == 0 {
        0
    } else {
        done_sum(m, cs.drop_last(), done) + if done.contains(cs.last()) {
            paths(m, cs.last())
        } else {
            0
        }
    }
}

/// Number of the tiles of `cs` not among `done`.
pub open spec fn undone(cs: Seq<(int, int)>, done: Set<(int, int)>) -> nat
    decreases cs.len(),
{
    if cs.len() == 0 {
        0
    } else {
        undone(cs.drop_last(), done) + if done.contains(cs.last()) {
            0nat
        } else {
            1
        }
    }
}

proof fn lemma_paths_nonneg(m: Seq<Seq<int>>, p: (int, int))
    ensures
        paths(m, p) >= 0,
    decreases 1_000_000_000 - hgt(m, p), 5int,
{
    if in_grid(m, p) && -1_000_000_000 < hgt(m, p) < 1_000_000_000 {
        lemma_dir_paths_nonneg(m, p, 4);
    }
}

proof fn lemma_dir_paths_nonneg(m: Seq<Seq<int>>, p: (int, int), k: int)
    ensures
        dir_paths(m, p, k) >= 0,
    decreases 1_000_000_000 - hgt(m, p), k,
{
    if k > 0 && in_grid(m, p) && -1_000_000_000 < hgt(m, p) < 1_000_000_000 {
        lemma_dir_paths_nonneg(m, p, k - 1);
        if up_ok(m, p, k - 1) {
            lemma_paths_nonneg(m, neighbor(p, k - 1));
        }
    }
}

/// With every child among `done`, the sum over them is all the trails going up from `p`.
proof fn lemma_done_sum_all(m: Seq<Seq<int>>, p: (int, int), done: Set<(int, int)>, k: int)
    requires
        in_grid(m, p),
        -1_000_000_000 < hgt(m, p) < 1_000_000_000,
        0 <= k <= 4,
        forall|j: int| 0 <= j < adjacent(m, p, hgt(m, p) + 1, k).len() ==> done.contains(
            #[trigger] adjacent(m, p, hgt(m, p) + 1, k)[j],
        ),
    ensures
        done_sum(m, adjacent(m, p, hgt(m, p) + 1, k), done) == dir_paths(m, p, k),
    decreases k,
{
    if k > 0 {
        let a = adjacent(m, p, hgt(m, p) + 1, k - 1);
        let b = adjacent(m, p, hgt(m, p) + 1, k);
        assert forall|j: int| 0 <= j < a.len() implies done.contains(#[trigger] a[j]) by {
            assert(b[j] == a[j]);
        }
        lemma_done_sum_all(m, p, done, k - 1);
        if up_ok(m, p, k - 1) {
            assert(b.drop_last() =~= a);
            assert(b.last() == neighbor(p, k - 1));
            assert(done.contains(b[b.len() - 1]));
        } else {
            assert(b =~= a);
        }
    }
}

/// Adding a tile of `cs` (which holds it once) to `done` adds its trails and removes one
/// from the tiles not done.
proof fn lemma_done_insert(m: Seq<Seq<int>>, cs: Seq<(int, int)>, done: Set<(int, int)>, x: (int, int))
    requires
        cs.no_duplicates(),
        !done.contains(x),
    ensures
        done_sum(m, cs, done.insert(x)) == done_sum(m, cs, done) + if cs.contains(x) {
            paths(m, x)
        } else {
            0
        },
        undone(cs, done.insert(x)) + if cs.contains(x) {
            1nat
        } else {
            0
        } == undone(cs, done),
    decreases cs.len(),
{
    if cs.len() > 0 {
        let d = cs.drop_last();
        assert(d.no_duplicates()) by {
            assert forall|i: int, j: int| 0 <= i < j < d.len() implies d[i] != d[j] by {
                assert(cs[i] != cs[j]);
            }
        }
        lemma_done_insert(m, d, done, x);
        if cs.last() == x {
            assert(!d.contains(x)) by {
                if d.contains(x) {
                    let i = choose|i: int| 0 <= i < d.len() && d[i] == x;
                    assert(cs[i] == cs[cs.len() - 1]);
                }
            }
            assert(cs[cs.len() - 1] == x);
        } else {
            if cs.contains(x) {
                let i = choose|i: int| 0 <= i < cs.len() && cs[i] == x;
                assert(i < cs.len() - 1);
                assert(d[i] == x);
            }
            if d.contains(x) {
                let i = choose|i: int| 0 <= i < d.len() && d[i] == x;
                assert(cs[i] == x);
            }
        }
    }
}

proof fn lemma_done_sum_le(m: Seq<Seq<int>>, p: (int, int), done: Set<(int, int)>, k: int)
    requires
        in_grid(m, p),
        -1_000_000_000 < hgt(m, p) < 1_000_000_000,
        0 <= k <= 4,
    ensures
        0 <= done_sum(m, adjacent(m, p, hgt(m, p) + 1, k), done) <= dir_paths(m, p, k),
    decreases k,
{
    if k > 0 {
        let a = adjacent(m, p, hgt(m, p) + 1, k - 1);
        let b = adjacent(m, p, hgt(m, p) + 1, k);
        lemma_done_sum_le(m, p, done, k - 1);
        if up_ok(m, p, k - 1) {
            assert(b.drop_last() =~= a);
            assert(b.last() == neighbor(p, k - 1));
            lemma_paths_nonneg(m, neighbor(p, k - 1));
        } else {
            assert(b =~= a);
        }
    }
}

/// Number of trails from a tile, and how many of its children have not yet passed theirs on.
#[derive(Clone, Copy, Debug)]
pub struct TrailVertex {
    pub nb_paths: usize,
    pub nb_unexhausted_neighbors: usize,
}

pub open spec fn vtx(r: &Grid<TrailVertex>, p: (int, int)) -> TrailVertex {
    r.cells@[p.0]@[p.1]
}

/// Every tile counts the trails through its children among `done`, and the children not
/// among `done`.
pub open spec fn ratings_ok(m: Seq<Seq<int>>, r: &Grid<TrailVertex>, done: Set<(int, int)>) -> bool {
    &&& r.cells@.len() == m.len()
    &&& forall|i: int| 0 <= i < m.len() ==> (#[trigger] r.cells@[i])@.len() == m[i].len()
    &&& forall|p: (int, int)|
        #[trigger] in_grid(m, p) ==> vtx(r, p).nb_paths == nine(m, p) + done_sum(m, children(m, p), done)
            && vtx(r, p).nb_unexhausted_neighbors == undone(children(m, p), done)
}

/// The tiles not yet done whose children are all done.
pub open spec fn pending(m: Seq<Seq<int>>, r: &Grid<TrailVertex>, done: Set<(int, int)>) -> Set<(int, int)> {
    Set::new(|p: (int, int)| in_grid(m, p) && !done.contains(p) && vtx(r, p).nb_unexhausted_neighbors == 0)
}

/// A tile is done only once all its children are.
pub open spec fn closed(m: Seq<Seq<int>>, done: Set<(int, int)>) -> bool {
    forall|p: (int, int)| #[trigger] done.contains(p) ==> in_grid(m, p) && undone(children(m, p), done) == 0
}

/// Every tile has at most `usize::MAX` trails.
pub open spec fn paths_fit(m: Seq<Seq<int>>) -> bool {
    forall|p: (int, int)| #[trigger] in_grid(m, p) ==> paths(m, p) <= usize::MAX
}

proof fn lemma_undone_zero(cs: Seq<(int, int)>, done: Set<(int, int)>)
    ensures
        undone(cs, done) == 0 <==> forall|j: int| 0 <= j < cs.len() ==> done.contains(#[trigger] cs[j]),
    decreases cs.len(),
{
    if cs.len() > 0 {
        lemma_undone_zero(cs.drop_last(), done);
        if undone(cs, done) == 0 {
            assert forall|j: int| 0 <= j < cs.len() implies done.contains(#[trigger] cs[j]) by {
                if j < cs.len() - 1 {
                    assert(cs.drop_last()[j] == cs[j]);
                }
            }
        } else {
            if forall|j: int| 0 <= j < cs.len() ==> done.contains(#[trigger] cs[j]) {
                assert forall|j: int| 0 <= j < cs.drop_last().len() implies done.contains(#[trigger] cs.drop_last()[j]) by {
                    assert(cs.drop_last()[j] == cs[j]);
                }
                assert(done.contains(cs[cs.len() - 1]));
            }
        }
    }
}

/// The tiles of the map not among `done`, row `r` before column `c`.
pub open spec fn undone_row(m: Seq<Seq<int>>, done: Set<(int, int)>, r: int, c: int) -> nat
    decreases c,
{
    if c <= 0 {
        0
    } else {
        undone_row(m, done, r, c - 1) + if done.contains((r, c - 1)) {
            0nat
        } else {
            1
        }
    }
}

/// The tiles of the rows before `r` not among `done`.
pub open spec fn undone_rows(m: Seq<Seq<int>>, done: Set<(int, int)>, r: int) -> nat
    decreases r,
{
    if r <= 0 {
        0
    } else {
        undone_rows(m, done, r - 1) + undone_row(m, done, r - 1, m[r - 1].len() as int)
    }
}

proof fn lemma_undone_row(m: Seq<Seq<int>>, done: Set<(int, int)>, r: int, c: int, v: (int, int))
    requires
        !done.contains(v),
    ensures
        undone_row(m, done.insert(v), r, c) + if v.0 == r && 0 <= v.1 < c {
            1nat
        } else {
            0
        } == undone_row(m, done, r, c),
    decreases c,
{
    if c > 0 {
        lemma_undone_row(m, done, r, c - 1, v);
    }
}

proof fn lemma_undone_rows(m: Seq<Seq<int>>, done: Set<(int, int)>, r: int, v: (int, int))
    requires
        !done.contains(v),
        0 <= r <= m.len(),
    ensures
        undone_rows(m, done.insert(v), r) + if 0 <= v.0 < r && 0 <= v.1 < m[v.0].len() {
            1nat
        } else {
            0
        } == undone_rows(m, done, r),
    decreases r,
{
    if r > 0 {
        lemma_undone_rows(m, done, r - 1, v);
        lemma_undone_row(m, done, r - 1, m[r - 1].len() as int, v);
    }
}

/// All heights are far from the limits of `i32`.
pub open spec fn heights_fine(m: Seq<Seq<int>>) -> bool {
    forall|p: (int, int)| #[trigger] in_grid(m, p) ==> -1_000_000_000 < hgt(m, p) < 1_000_000_000
}

proof fn lemma_opposite(m: Seq<Seq<int>>, a: (int, int), b: (int, int), d: int)
    requires
        0 <= d < 4,
        neighbor(a, d) == b,
    ensures
        exists|e: int| 0 <= e < 4 && #[trigger] neighbor(b, e) == a,
{
    let od = if d == 0 {
        1int
    } else if d == 1 {
        0int
    } else if d == 2 {
        3int
    } else {
        2int
    };
    assert(neighbor(b, od) == a);
}

/// `q` is a parent of `p` exactly when `p` is a child of `q`.
proof fn lemma_parent_child(m: Seq<Seq<int>>, p: (int, int), q: (int, int))
    requires
        in_grid(m, p),
        in_grid(m, q),
    ensures
        parents(m, p).contains(q) <==> children(m, q).contains(p),
{
    lemma_adjacent(m, p, hgt(m, p) - 1, 4);
    lemma_adjacent(m, q, hgt(m, q) + 1, 4);
    if parents(m, p).contains(q) {
        let d = choose|d: int| 0 <= d < 4 && #[trigger] neighbor(p, d) == q && in_grid(m, q) && hgt(m, q) == hgt(m, p) - 1;
        lemma_opposite(m, p, q, d);
        let e = choose|e: int| 0 <= e < 4 && #[trigger] neighbor(q, e) == p;
        assert(neighbor(q, e) == p && in_grid(m, p) && hgt(m, p) == hgt(m, q) + 1);
    }
    if children(m, q).contains(p) {
        let d = choose|d: int| 0 <= d < 4 && #[trigger] neighbor(q, d) == p && in_grid(m, p) && hgt(m, p) == hgt(m, q) + 1;
        lemma_opposite(m, q, p, d);
        let e = choose|e: int| 0 <= e < 4 && #[trigger] neighbor(p, e) == q;
        assert(neighbor(p, e) == q && in_grid(m, q) && hgt(m, q) == hgt(m, p) - 1);
    }
}

/// Passing the trails of `p` (done now) to a parent `q`: `q` is not done, and gains the
/// trails of `p` and loses one child to wait for; its count stays within its trails.
proof fn lemma_parent_gain(m: Seq<Seq<int>>, p: (int, int), q: (int, int), done: Set<(int, int)>)
    requires
        heights_fine(m),
        in_grid(m, p),
        in_grid(m, q),
        parents(m, p).contains(q),
        closed(m, done),
        !done.contains(p),
    ensures
        !done.contains(q),
        q != p,
        done_sum(m, children(m, q), done.insert(p)) == done_sum(m, children(m, q), done) + paths(m, p),
        undone(children(m, q), done.insert(p)) + 1 == undone(children(m, q), done),
        nine(m, q) + done_sum(m, children(m, q), done.insert(p)) <= paths(m, q),
{
    lemma_parent_child(m, p, q);
    lemma_adjacent(m, q, hgt(m, q) + 1, 4);
    if done.contains(q) {
        lemma_undone_zero(children(m, q), done);
        let i = choose|i: int| 0 <= i < children(m, q).len() && children(m, q)[i] == p;
    }
    lemma_done_insert(m, children(m, q), done, p);
    lemma_done_sum_le(m, q, done.insert(p), 4);
}

/// A tile that is not a parent of `p` keeps its counts when `p` is done.
proof fn lemma_not_parent(m: Seq<Seq<int>>, p: (int, int), q: (int, int), done: Set<(int, int)>)
    requires
        in_grid(m, p),
        in_grid(m, q),
        !parents(m, p).contains(q),
        !done.contains(p),
    ensures
        done_sum(m, children(m, q), done.insert(p)) == done_sum(m, children(m, q), done),
        undone(children(m, q), done.insert(p)) == undone(children(m, q), done),
{
    lemma_parent_child(m, p, q);
    lemma_adjacent(m, q, hgt(m, q) + 1, 4);
    lemma_done_insert(m, children(m, q), done, p);
}

/// The counts of tile `q` once the parents in `ps` have received the trails of `p`.
pub open spec fn counts_after(m: Seq<Seq<int>>, r: &Grid<TrailVertex>, done: Set<(int, int)>, p: (int, int), ps: Seq<(int, int)>) -> bool {
    forall|q: (int, int)|
        #[trigger] in_grid(m, q) ==> {
            let d = if ps.contains(q) {
                done.insert(p)
            } else {
                done
            };
            &&& vtx(r, q).nb_paths == nine(m, q) + done_sum(m, children(m, q), d)
            &&& vtx(r, q).nb_unexhausted_neighbors == undone(children(m, q), d)
        }
}

/// Pass the trails of tile `pos`, whose children are all done, on to its parents: the
/// parents left with no child to wait for, in order.
fn propagate(
    map: &Grid<i32>,
    rating_map: &mut Grid<TrailVertex>,
    pos: (usize, usize),
    Ghost(done): Ghost<Set<(int, int)>>,
) -> (added: Vec<(usize, usize)>)
    requires
        valid_map(map),
        heights_fine(hmap(map)),
        paths_fit(hmap(map)),
        ratings_ok(hmap(map), old(rating_map), done),
        closed(hmap(map), done),
        pending(hmap(map), old(rating_map), done).contains(upos(pos)),
    ensures
        ratings_ok(hmap(map), final(rating_map), done.insert(upos(pos))),
        upos_seq(added@).to_set() == Set::new(
            |q: (int, int)| parents(hmap(map), upos(pos)).contains(q) && vtx(final(rating_map), q).nb_unexhausted_neighbors == 0,
        ),
        upos_seq(added@).no_duplicates(),
        forall|q: (int, int)|
            #[trigger] in_grid(hmap(map), q) && !parents(hmap(map), upos(pos)).contains(q) ==> vtx(final(rating_map), q)
                == vtx(old(rating_map), q),
        final(rating_map).width == old(rating_map).width,
{
    let ghost m = hmap(map);
    let ghost p = upos(pos);
    let ghost r0 = *rating_map;
    proof {
        lemma_adjacent(m, p, hgt(m, p) + 1, 4);
        lemma_undone_zero(children(m, p), done);
        lemma_done_sum_all(m, p, done, 4);
    }
    let nb_paths = rating_map.cells[pos.0][pos.1].nb_paths;
    let ps = get_parents(map, pos);
    let ghost all = parents(m, p);
    proof {
        lemma_adjacent(m, p, hgt(m, p) - 1, 4);
        assert(all.take(0) =~= seq![]);
    }
    let mut added: Vec<(usize, usize)> = Vec::new();
    let mut j: usize = 0;
    while j < ps.len()
        invariant
            valid_map(map),
            m == hmap(map),
            heights_fine(m),
            paths_fit(m),
            in_grid(m, p),
            !done.contains(p),
            closed(m, done),
            nb_paths == paths(m, p),
            upos_seq(ps@) == all,
            all == parents(m, p),
            all.no_duplicates(),
            forall|i: int| 0 <= i < all.len() ==> in_grid(m, #[trigger] all[i]),
            j <= ps@.len(),
            rating_map.cells@.len() == m.len(),
            rating_map.width == r0.width,
            forall|i: int| 0 <= i < m.len() ==> (#[trigger] rating_map.cells@[i])@.len() == m[i].len(),
            counts_after(m, rating_map, done, p, all.take(j as int)),
            forall|q: (int, int)|
                #[trigger] in_grid(m, q) && !all.take(j as int).contains(q) ==> vtx(rating_map, q) == vtx(&r0, q),
            upos_seq(added@).to_set() == Set::new(
                |q: (int, int)| all.take(j as int).contains(q) && vtx(rating_map, q).nb_unexhausted_neighbors == 0,
            ),
            upos_seq(added@).no_duplicates(),
            forall|i: int| 0 <= i < added@.len() ==> all.take(j as int).contains(#[trigger] upos(added@[i])),
        decreases ps@.len() - j,
    {
        let q = ps[j];
        let ghost qq = upos(q);
        let ghost t0 = all.take(j as int);
        let ghost t1 = all.take(j + 1);
        proof {
            assert(upos_seq(ps@)[j as int] == qq);
            assert(all[j as int] == qq);
            assert(all.contains(qq));
            assert(in_grid(m, qq));
            lemma_parent_gain(m, p, qq, done);
            assert(!t0.contains(qq)) by {
                if t0.contains(qq) {
                    let i = choose|i: int| 0 <= i < t0.len() && t0[i] == qq;
                    assert(all[i] == all[j as int]);
                }
            }
            assert(t1 =~= t0.push(qq));
            lemma_push_to_set(t0, qq);
            assert(vtx(rating_map, qq) == vtx(&r0, qq));
            assert(paths(m, qq) <= usize::MAX);
        }
        let mut v = rating_map.cells[q.0][q.1];
        v.nb_paths = v.nb_paths + nb_paths;
        v.nb_unexhausted_neighbors = v.nb_unexhausted_neighbors - 1;
        let ghost before = *rating_map;
        let ghost added0 = upos_seq(added@);
        assert(counts_after(m, &before, done, p, t0));
        rating_map.cells[q.0].set(q.1, v);
        if v.nb_unexhausted_neighbors == 0 {
            added.push(q);
        }
        proof {
            assert forall|x: (int, int)| #[trigger] in_grid(m, x) && x != qq implies vtx(rating_map, x) == vtx(&before, x) by {
                if x.0 == qq.0 {
                    assert(rating_map.cells@[x.0]@[x.1] == before.cells@[x.0]@[x.1]);
                } else {
                    assert(rating_map.cells@[x.0] == before.cells@[x.0]);
                }
            }
            assert(vtx(rating_map, qq) == v);
            assert forall|i: int| 0 <= i < m.len() implies (#[trigger] rating_map.cells@[i])@.len() == m[i].len() by {
                if i == qq.0 {
                    assert(rating_map.cells@[i]@.len() == before.cells@[i]@.len());
                }
            }
            assert(counts_after(m, rating_map, done, p, t1)) by {
                assert forall|x: (int, int)| #[trigger] in_grid(m, x) implies {
                    let d = if t1.contains(x) {
                        done.insert(p)
                    } else {
                        done
                    };
                    &&& vtx(rating_map, x).nb_paths == nine(m, x) + done_sum(m, children(m, x), d)
                    &&& vtx(rating_map, x).nb_unexhausted_neighbors == undone(children(m, x), d)
                } by {
                    if x != qq {
                        assert(t1.contains(x) == t0.contains(x));
                        assert(vtx(rating_map, x) == vtx(&before, x));
                    } else {
                        assert(t1[j as int] == qq);
                        assert(t1.contains(qq));
                        assert(!t0.contains(qq));
                        assert(vtx(&before, qq).nb_paths == nine(m, qq) + done_sum(m, children(m, qq), done));
                        assert(vtx(&before, qq).nb_unexhausted_neighbors == undone(children(m, qq), done));
                    }
                }
            }
            if v.nb_unexhausted_neighbors == 0 {
                assert(upos_seq(added@) =~= added0.push(qq));
                assert(!added0.contains(qq)) by {
                    if added0.contains(qq) {
                        let i = choose|i: int| 0 <= i < added0.len() && added0[i] == qq;
                        assert(upos(added@[i]) == qq);
                    }
                }
                lemma_push_to_set(added0, qq);
            } else {
                assert(upos_seq(added@) =~= added0);
            }
            assert(upos_seq(added@).to_set() =~= Set::new(
                |x: (int, int)| t1.contains(x) && vtx(rating_map, x).nb_unexhausted_neighbors == 0,
            )) by {
                assert forall|x: (int, int)| #[trigger] t1.contains(x) && x != qq implies vtx(rating_map, x) == vtx(&before, x) by {
                    let i = choose|i: int| 0 <= i < t1.len() && t1[i] == x;
                    assert(in_grid(m, all[i]));
                }
            }
            assert forall|i: int| 0 <= i < added@.len() implies t1.contains(#[trigger] upos(added@[i])) by {
                if i < added0.len() {
                    assert(t0.contains(added0[i]));
                }
            }
        }
        j += 1;
    }
    proof {
        assert(all.take(ps@.len() as int) =~= all);
        assert forall|q: (int, int)| #[trigger] in_grid(m, q) implies vtx(rating_map, q).nb_paths == nine(m, q) + done_sum(
            m,
            children(m, q),
            done.insert(p),
        ) && vtx(rating_map, q).nb_unexhausted_neighbors == undone(children(m, q), done.insert(p)) by {
            if !all.contains(q) {
                lemma_not_parent(m, p, q, done);
            }
        }
    }
    added
}

proof fn lemma_counts_empty(m: Seq<Seq<int>>, cs: Seq<(int, int)>)
    ensures
        done_sum(m, cs, Set::empty()) == 0,
        undone(cs, Set::empty()) == cs.len(),
    decreases cs.len(),
{
    if cs.len() > 0 {
        lemma_counts_empty(m, cs.drop_last());
    }
}

/// Once nothing is pending, every tile is done.
proof fn lemma_all_done(m: Seq<Seq<int>>, r: &Grid<TrailVertex>, done: Set<(int, int)>, v: (int, int))
    requires
        heights_fine(m),
        ratings_ok(m, r, done),
        pending(m, r, done) =~= Set::empty(),
        in_grid(m, v),
    ensures
        done.contains(v),
    decreases 1_000_000_000 - hgt(m, v),
{
    if !done.contains(v) {
        assert(!pending(m, r, done).contains(v));
        lemma_undone_zero(children(m, v), done);
        let j = choose|j: int| 0 <= j < children(m, v).len() && !done.contains(#[trigger] children(m, v)[j]);
        let c = children(m, v)[j];
        lemma_adjacent(m, v, hgt(m, v) + 1, 4);
        lemma_all_done(m, r, done, c);
    }
}

/// After `p` passes its trails on, the pending tiles are the others, and the parents of `p`
/// that have no child left to wait for.
proof fn lemma_pending_step(
    m: Seq<Seq<int>>,
    r: &Grid<TrailVertex>,
    r2: &Grid<TrailVertex>,
    done: Set<(int, int)>,
    p: (int, int),
    added: Set<(int, int)>,
)
    requires
        heights_fine(m),
        ratings_ok(m, r, done),
        closed(m, done),
        pending(m, r, done).contains(p),
        added == Set::new(|q: (int, int)| parents(m, p).contains(q) && vtx(r2, q).nb_unexhausted_neighbors == 0),
        forall|q: (int, int)| #[trigger] in_grid(m, q) && !parents(m, p).contains(q) ==> vtx(r2, q) == vtx(r, q),
    ensures
        pending(m, r2, done.insert(p)) == pending(m, r, done).remove(p).union(added),
        added.disjoint(pending(m, r, done)),
        closed(m, done.insert(p)),
{
    lemma_adjacent(m, p, hgt(m, p) - 1, 4);
    assert forall|q: (int, int)| #[trigger] parents(m, p).contains(q) implies in_grid(m, q) && !done.contains(q)
        && q != p && vtx(r, q).nb_unexhausted_neighbors > 0 by {
        let i = choose|i: int| 0 <= i < parents(m, p).len() && parents(m, p)[i] == q;
        assert(in_grid(m, parents(m, p)[i]));
        lemma_parent_gain(m, p, q, done);
    }
    assert(pending(m, r2, done.insert(p)) =~= pending(m, r, done).remove(p).union(added));
    assert forall|x: (int, int)| #[trigger] done.insert(p).contains(x) implies in_grid(m, x) && undone(
        children(m, x),
        done.insert(p),
    ) == 0 by {
        lemma_undone_zero(children(m, x), done);
        lemma_undone_zero(children(m, x), done.insert(p));
    }
}

/// Set facts for one step of a round: the rest of the round loses its first tile, the
/// newly evaluated tiles gain the added ones, and the tiles done gain the first.
proof fn lemma_round_sets(ev: Seq<(int, int)>, t: int, nw0: Seq<(int, int)>, add: Seq<(int, int)>)
    requires
        ev.no_duplicates(),
        0 <= t < ev.len(),
        nw0.no_duplicates(),
        add.no_duplicates(),
        nw0.to_set().disjoint(add.to_set()),
    ensures
        ev.skip(t + 1).to_set() == ev.skip(t).to_set().remove(ev[t]),
        (nw0 + add).to_set() == nw0.to_set().union(add.to_set()),
        (nw0 + add).no_duplicates(),
        ev.take(t + 1).to_set() == ev.take(t).to_set().insert(ev[t]),
{
    let p = ev[t];
    let rest0 = ev.skip(t);
    let rest1 = ev.skip(t + 1);
    assert forall|x: (int, int)| #[trigger] rest1.contains(x) <==> rest0.contains(x) && x != p by {
        if rest1.contains(x) {
            let i = choose|i: int| 0 <= i < rest1.len() && rest1[i] == x;
            assert(rest0[i + 1] == x);
            assert(ev[t + 1 + i] != ev[t]);
        }
        if rest0.contains(x) && x != p {
            let i = choose|i: int| 0 <= i < rest0.len() && rest0[i] == x;
            assert(i > 0);
            assert(rest1[i - 1] == x);
        }
    }
    assert(rest1.to_set() =~= rest0.to_set().remove(p));
    let nw = nw0 + add;
    assert forall|x: (int, int)| #[trigger] nw.contains(x) <==> nw0.contains(x) || add.contains(x) by {
        if nw.contains(x) {
            let i = choose|i: int| 0 <= i < nw.len() && nw[i] == x;
            if i < nw0.len() {
                assert(nw0[i] == x);
            } else {
                assert(add[i - nw0.len()] == x);
            }
        }
        if nw0.contains(x) {
            let i = choose|i: int| 0 <= i < nw0.len() && nw0[i] == x;
            assert(nw[i] == x);
        }
        if add.contains(x) {
            let i = choose|i: int| 0 <= i < add.len() && add[i] == x;
            assert(nw[nw0.len() + i] == x);
        }
    }
    assert(nw.to_set() =~= nw0.to_set().union(add.to_set()));
    assert forall|a: int, b: int| 0 <= a < b < nw.len() implies nw[a] != nw[b] by {
        if a < nw0.len() && b >= nw0.len() {
            assert(nw[a] == nw0[a]);
            assert(nw[b] == add[b - nw0.len()]);
            assert(nw0.to_set().contains(nw[a]));
            assert(add.to_set().contains(nw[b]));
        } else if a >= nw0.len() {
            assert(add[a - nw0.len()] != add[b - nw0.len()]);
        } else {
            assert(nw0[a] != nw0[b]);
        }
    }
    assert(ev.take(t + 1) =~= ev.take(t).push(p));
    lemma_push_to_set(ev.take(t), p);
}

/// Number of different trails from each tile.
#[verifier::rlimit(60)]
pub fn get_trail_ratings(map: &Grid<i32>) -> (rating_map: Grid<TrailVertex>)
    requires
        valid_map(map),
        paths_fit(hmap(map)),
    ensures
        rating_map.width == map.width,
        rating_map.wf(),
        rating_map.cells@.len() == hmap(map).len(),
        forall|i: int| 0 <= i < hmap(map).len() ==> (#[trigger] rating_map.cells@[i])@.len() == hmap(map)[i].len(),
        forall|p: (int, int)|
            #[trigger] in_grid(hmap(map), p) ==> vtx(&rating_map, p).nb_paths == paths(hmap(map), p)
                && vtx(&rating_map, p).nb_unexhausted_neighbors == 0,
{
    let ghost m = hmap(map);
    proof {
        assert forall|q: (int, int)| #[trigger] in_grid(m, q) implies -1_000_000_000 < hgt(m, q) < 1_000_000_000 by {
            assert(height_ok(map.at(q.0, q.1)));
        }
    }
    // Start with one trail for tiles at height 9 and none elsewhere; tiles with no child are
    // already evaluated.
    let mut evaluated: Vec<(usize, usize)> = Vec::new();
    let mut cells: Vec<Vec<TrailVertex>> = Vec::new();
    let mut i: usize = 0;
    while i < map.cells.len()
        invariant
            valid_map(map),
            m == hmap(map),
            heights_fine(m),
            i <= m.len(),
            cells@.len() == i,
            forall|k: int| 0 <= k < i ==> (#[trigger] cells@[k])@.len() == m[k].len(),
            forall|q: (int, int)|
                #[trigger] in_grid(m, q) && q.0 < i ==> cells@[q.0]@[q.1] == (TrailVertex {
                    nb_paths: nine(m, q) as usize,
                    nb_unexhausted_neighbors: children(m, q).len() as usize,
                }),
            forall|k: int| 0 <= k < evaluated@.len() ==> in_grid(m, #[trigger] upos(evaluated@[k])),
            upos_seq(evaluated@).no_duplicates(),
            upos_seq(evaluated@).to_set() == Set::new(
                |q: (int, int)| in_grid(m, q) && q.0 < i && children(m, q).len() == 0,
            ),
        decreases m.len() - i,
    {
        let mut row: Vec<TrailVertex> = Vec::new();
        let mut j: usize = 0;
        assert(m[i as int].len() == map.width);
        while j < map.width
            invariant
                valid_map(map),
                m == hmap(map),
                heights_fine(m),
                i < m.len(),
                m[i as int].len() == map.width,
                j <= map.width,
                row@.len() == j,
                forall|c: int| 0 <= c < j ==> #[trigger] row@[c] == (TrailVertex {
                    nb_paths: nine(m, (i as int, c)) as usize,
                    nb_unexhausted_neighbors: children(m, (i as int, c)).len() as usize,
                }),
                forall|k: int| 0 <= k < evaluated@.len() ==> in_grid(m, #[trigger] upos(evaluated@[k])),
                upos_seq(evaluated@).no_duplicates(),
                upos_seq(evaluated@).to_set() == Set::new(
                    |q: (int, int)| in_grid(m, q) && (q.0 < i || (q.0 == i && q.1 < j)) && children(m, q).len() == 0,
                ),
            decreases map.width - j,
        {
            let pos = (i, j);
            let ghost q = upos(pos);
            let kids = get_children(map, pos);
            assert(map.cells@[i as int]@[j as int] as int == hgt(m, q));
            let nine_here: usize = if map.cells[i][j] == 9 {
                1
            } else {
                0
            };
            proof {
                lemma_adjacent(m, q, hgt(m, q) + 1, 4);
            }
            row.push(TrailVertex { nb_paths: nine_here, nb_unexhausted_neighbors: kids.len() });
            let ghost ev0 = upos_seq(evaluated@);
            if kids.len() == 0 {
                evaluated.push(pos);
                proof {
                    assert(upos_seq(evaluated@) =~= ev0.push(q));
                    assert(!ev0.contains(q)) by {
                        if ev0.contains(q) {
                            assert(ev0.to_set().contains(q));
                        }
                    }
                    lemma_push_to_set(ev0, q);
                }
            }
            proof {
                assert(upos_seq(evaluated@).to_set() =~= Set::new(
                    |x: (int, int)| in_grid(m, x) && (x.0 < i || (x.0 == i && x.1 < j + 1)) && children(m, x).len() == 0,
                ));
                assert forall|k: int| 0 <= k < evaluated@.len() implies in_grid(m, #[trigger] upos(evaluated@[k])) by {
                    if k < ev0.len() {
                        assert(upos(evaluated@[k]) == ev0[k]);
                    }
                }
            }
            j += 1;
        }
        cells.push(row);
        proof {
            assert(upos_seq(evaluated@).to_set() =~= Set::new(
                |x: (int, int)| in_grid(m, x) && x.0 < i + 1 && children(m, x).len() == 0,
            ));
        }
        i += 1;
    }
    let mut rating_map = Grid { cells, width: map.width };
    let ghost mut done: Set<(int, int)> = Set::empty();
    proof {
        assert forall|q: (int, int)| #[trigger] in_grid(m, q) implies vtx(&rating_map, q).nb_paths == nine(m, q)
            + done_sum(m, children(m, q), done) && vtx(&rating_map, q).nb_unexhausted_neighbors == undone(
            children(m, q),
            done,
        ) by {
            lemma_counts_empty(m, children(m, q));
            lemma_adjacent(m, q, hgt(m, q) + 1, 4);
        }
        assert(pending(m, &rating_map, done) =~= upos_seq(evaluated@).to_set()) by {
            assert forall|q: (int, int)| #[trigger] in_grid(m, q) implies (children(m, q).len() == 0 <==> undone(
                children(m, q),
                done,
            ) == 0) by {
                lemma_counts_empty(m, children(m, q));
            }
        }
    }
    while evaluated.len() > 0
        invariant
            valid_map(map),
            m == hmap(map),
            heights_fine(m),
            paths_fit(m),
            ratings_ok(m, &rating_map, done),
            rating_map.width == map.width,
            closed(m, done),
            pending(m, &rating_map, done) == upos_seq(evaluated@).to_set(),
            upos_seq(evaluated@).no_duplicates(),
        decreases undone_rows(m, done, m.len() as int),
    {
        let ghost done0 = done;
        let ghost ev = upos_seq(evaluated@);
        let mut newly_evaluated: Vec<(usize, usize)> = Vec::new();
        let mut t: usize = 0;
        proof {
            assert(ev.skip(0) =~= ev);
            assert(upos_seq(newly_evaluated@) =~= seq![]);
            assert(upos_seq(newly_evaluated@).to_set() =~= Set::empty());
            assert(ev.take(0).to_set() =~= Set::empty());
            assert(done =~= done0.union(ev.take(0).to_set()));
            assert forall|k: int| 0 <= k < ev.len() implies !done.contains(#[trigger] ev[k]) by {
                assert(ev.to_set().contains(ev[k]));
            }
            assert(pending(m, &rating_map, done) =~= ev.skip(0).to_set().union(upos_seq(newly_evaluated@).to_set()));
        }
        while t < evaluated.len()
            invariant
                valid_map(map),
                m == hmap(map),
                heights_fine(m),
                paths_fit(m),
                ev == upos_seq(evaluated@),
                ev.no_duplicates(),
                t <= ev.len(),
                ev.len() > 0,
                ratings_ok(m, &rating_map, done),
            rating_map.width == map.width,
                closed(m, done),
                done == done0.union(ev.take(t as int).to_set()),
                forall|k: int| t <= k < ev.len() ==> !done.contains(#[trigger] ev[k]),
                pending(m, &rating_map, done) == ev.skip(t as int).to_set().union(
                    upos_seq(newly_evaluated@).to_set(),
                ),
                ev.skip(t as int).to_set().disjoint(upos_seq(newly_evaluated@).to_set()),
                upos_seq(newly_evaluated@).no_duplicates(),
                undone_rows(m, done, m.len() as int) + t == undone_rows(m, done0, m.len() as int),
            decreases ev.len() - t,
        {
            let pos = evaluated[t];
            let ghost p = upos(pos);
            let ghost r_before = rating_map;
            proof {
                assert(ev[t as int] == p);
                assert(ev.skip(t as int)[0] == p);
                assert(pending(m, &rating_map, done).contains(p));
            }
            let added = propagate(map, &mut rating_map, pos, Ghost(done));
            let ghost add = upos_seq(added@);
            proof {
                lemma_pending_step(m, &r_before, &rating_map, done, p, add.to_set());
                lemma_undone_rows(m, done, m.len() as int, p);
            }
            let ghost nw0 = upos_seq(newly_evaluated@);
            let mut k: usize = 0;
            while k < added.len()
                invariant
                    k <= added@.len(),
                    add == upos_seq(added@),
                    upos_seq(newly_evaluated@) == nw0 + add.take(k as int),
                decreases added@.len() - k,
            {
                let ghost nb = upos_seq(newly_evaluated@);
                newly_evaluated.push(added[k]);
                proof {
                    assert(add[k as int] == upos(added@[k as int]));
                    assert(upos_seq(newly_evaluated@) =~= nb.push(add[k as int]));
                    assert(add.take(k + 1) =~= add.take(k as int).push(add[k as int]));
                    assert(upos_seq(newly_evaluated@) =~= nw0 + add.take(k + 1));
                }
                k += 1;
            }
            proof {
                assert(add.take(add.len() as int) =~= add);
                let nw = upos_seq(newly_evaluated@);
                assert(nw == nw0 + add);
                let rest1 = ev.skip(t + 1);
                lemma_round_sets(ev, t as int, nw0, add);
                done = done.insert(p);
                assert(done =~= done0.union(ev.take(t + 1).to_set()));
                assert(pending(m, &rating_map, done) =~= rest1.to_set().union(nw.to_set()));
                assert forall|k2: int| t + 1 <= k2 < ev.len() implies !done.contains(#[trigger] ev[k2]) by {
                    assert(ev[k2] != ev[t as int]);
                }
            }
            t += 1;
        }
        proof {
            assert(ev.skip(ev.len() as int) =~= seq![]);
        }
        evaluated = newly_evaluated;
    }
    proof {
        assert(upos_seq(evaluated@) =~= seq![]);
        assert forall|p: (int, int)| #[trigger] in_grid(m, p) implies vtx(&rating_map, p).nb_paths == paths(m, p)
            && vtx(&rating_map, p).nb_unexhausted_neighbors == 0 by {
            lemma_all_done(m, &rating_map, done, p);
            lemma_adjacent(m, p, hgt(m, p) + 1, 4);
            assert forall|j: int| 0 <= j < children(m, p).len() implies done.contains(#[trigger] children(m, p)[j]) by {
                lemma_all_done(m, &rating_map, done, children(m, p)[j]);
            }
            lemma_done_sum_all(m, p, done, 4);
            lemma_undone_zero(children(m, p), done);
        }
    }
    proof {
        assert forall|i: int| 0 <= i < rating_map.cells@.len() implies (#[trigger] rating_map.cells@[i])@.len()
            == rating_map.width by {
            assert(m[i].len() == map.cells@[i]@.len());
        }
    }
    rating_map
}

/// Sum over the trailheads of the number of trails from each.
pub open spec fn rating_sum(m: Seq<Seq<int>>, heads: Seq<(int, int)>) -> int
    decreases heads.len(),
{
    if heads.len() == 0 {
        0
    } else {
        rating_sum(m, heads.drop_last()) + paths(m, heads.last())
    }
}

proof fn lemma_rating_sum_prefix(m: Seq<Seq<int>>, hs: Seq<(int, int)>, k: int)
    requires
        0 <= k <= hs.len(),
    ensures
        0 <= rating_sum(m, hs.take(k)) <= rating_sum(m, hs),
    decreases hs.len(),
{
    if hs.len() > 0 {
        lemma_paths_nonneg(m, hs.last());
        if k < hs.len() {
            lemma_rating_sum_prefix(m, hs.drop_last(), k);
            assert(hs.drop_last().take(k) =~= hs.take(k));
        } else {
            assert(hs.take(k) =~= hs);
            lemma_rating_sum_prefix(m, hs.drop_last(), k - 1);
            assert(hs.drop_last().take(k - 1) =~= hs.drop_last());
        }
    } else {
        assert(hs.take(k) =~= hs);
    }
}

/// Sum of the trailheads' ratings: the number of distinct trails from each.
pub fn part2(input: &str) -> (total: usize)
    requires
        map_fits(input@),
        paths_fit(heights_of(input@)),
        rating_sum(heights_of(input@), indexes_of(heights_of(input@), 0)) <= usize::MAX,
    ensures
        total == rating_sum(heights_of(input@), indexes_of(heights_of(input@), 0)),
{
    let map = parse_input(input);
    if map.cells.len() == 0 {
        proof {
            assert(indexes_of(heights_of(input@), 0) =~= seq![]);
        }
        return 0;
    }
    proof {
        lemma_map_of(input@, &map);
    }
    let ratings = get_trail_ratings(&map);
    let heads = get_trailheads(&map);
    let ghost m = hmap(&map);
    let ghost hs = upos_seq(heads@);
    let mut total: usize = 0;
    let mut i: usize = 0;
    proof {
        lemma_rating_sum_prefix(m, hs, hs.len() as int);
        assert(hs.take(hs.len() as int) =~= hs);
    }
    while i < heads.len()
        invariant
            m == hmap(&map),
            hs == upos_seq(heads@),
            i <= hs.len(),
            forall|j: int| 0 <= j < heads@.len() ==> in_grid(m, #[trigger] upos(heads@[j])),
            ratings.cells@.len() == m.len(),
            forall|r: int| 0 <= r < m.len() ==> (#[trigger] ratings.cells@[r])@.len() == m[r].len(),
            forall|p: (int, int)| #[trigger] in_grid(m, p) ==> vtx(&ratings, p).nb_paths == paths(m, p),
            rating_sum(m, hs) <= usize::MAX,
            total == rating_sum(m, hs.take(i as int)),
        decreases hs.len() - i,
    {
        let (r, c) = heads[i];
        proof {
            assert(in_grid(m, upos(heads@[i as int])));
        }
        let n = ratings.cells[r][c].nb_paths;
        proof {
            assert(hs.take(i + 1).drop_last() =~= hs.take(i as int));
            assert(hs.take(i + 1).last() == upos(heads@[i as int]));
            lemma_rating_sum_prefix(m, hs, i + 1);
        }
        total += n;
        i += 1;
    }
    proof {
        assert(hs.take(hs.len() as int) =~= hs);
    }
    total
}

} // verus!
