use crate::aoc::y2024::d08_antenna_lines::{count_marks, map_count, new_marks};
use crate::aoc::y2024::d15::{falses, lemma_falses_set};
use crate::aoc::y2024::d16_turning_maze::{dc, dr, lemma_node_bounds, lemma_node_inj, node};
use crate::lgl::data::array2d;
use crate::lgl::data::table;
use crate::lgl::parse;
use vstd::prelude::*;

verus! {

// ---------------------------------------------------------------------------
// The guard's walk
//
// A state of the guard is its row, its column and the direction it faces, numbered
// clockwise from up: 0 up, 1 right, 2 down, 3 left.

/// The cell is on the map.
pub open spec fn inside(o: Seq<Seq<bool>>, r: int, c: int) -> bool {
    0 <= r < o.len() && 0 <= c < o[r].len()
}

/// The guard's next state on the map of obstructions `o`: it steps forward, or turns right
/// when the cell ahead is obstructed; `None` when the step ahead leaves the map.
pub open spec fn tick(o: Seq<Seq<bool>>, s: (int, int, int)) -> Option<(int, int, int)> {
    let (r, c, t) = s;
    let (nr, nc) = (r + dr(t), c + dc(t));
    if !inside(o, nr, nc) {
        None
    } else if o[nr][nc] {
        Some((r, c, (t + 1) % 4))
    } else {
        Some((nr, nc, t))
    }
}

/// The guard's state after `n` ticks, `None` once it has left.
pub open spec fn walk(o: Seq<Seq<bool>>, s: (int, int, int), n: nat) -> Option<(int, int, int)>
    decreases n,
{
    if n == 0 {
        Some(s)
    } else {
        match walk(o, s, (n - 1) as nat) {
            Some(x) => tick(o, x),
            None => None,
        }
    }
}

/// The guard leaves the map at some point.
pub open spec fn leaves(o: Seq<Seq<bool>>, s: (int, int, int)) -> bool {
    exists|n: nat| #[trigger] walk(o, s, n) is None
}

/// After `n` ticks the guard stands on cell (`r`, `c`).
pub open spec fn at_cell(o: Seq<Seq<bool>>, s: (int, int, int), n: nat, r: int, c: int) -> bool {
    walk(o, s, n) matches Some(x) && x.0 == r && x.1 == c
}

/// The guard stands on cell `p` at some point.
pub open spec fn on_path(o: Seq<Seq<bool>>, s: (int, int, int), p: (int, int)) -> bool {
    exists|n: nat| #[trigger] at_cell(o, s, n, p.0, p.1)
}

proof fn lemma_none_stays(o: Seq<Seq<bool>>, s: (int, int, int), a: nat, b: nat)
    requires
        a <= b,
        walk(o, s, a) is None,
    ensures
        walk(o, s, b) is None,
    decreases b,
{
    if a < b {
        lemma_none_stays(o, s, a, (b - 1) as nat);
    }
}

proof fn lemma_shift(o: Seq<Seq<bool>>, s: (int, int, int), j: nat, k: nat, i: nat)
    requires
        walk(o, s, j) == walk(o, s, k),
    ensures
        walk(o, s, j + i) == walk(o, s, k + i),
    decreases i,
{
    if i > 0 {
        lemma_shift(o, s, j, k, (i - 1) as nat);
        assert(walk(o, s, j + i) == match walk(o, s, (j + i - 1) as nat) {
            Some(x) => tick(o, x),
            None => None,
        });
        assert(walk(o, s, k + i) == match walk(o, s, (k + i - 1) as nat) {
            Some(x) => tick(o, x),
            None => None,
        });
    }
}

/// A state met twice comes round forever: the guard never leaves.
proof fn lemma_cycle(o: Seq<Seq<bool>>, s: (int, int, int), j: nat, k: nat, n: nat)
    requires
        j < k,
        walk(o, s, j) == walk(o, s, k),
        walk(o, s, k) is Some,
    ensures
        walk(o, s, n) is Some,
    decreases n,
{
    if n <= k {
        if walk(o, s, n) is None {
            lemma_none_stays(o, s, n, k);
        }
    } else {
        lemma_shift(o, s, j, k, (n - k) as nat);
        lemma_cycle(o, s, j, k, (n - (k - j)) as nat);
    }
}

proof fn lemma_walk_inside(o: Seq<Seq<bool>>, s: (int, int, int), n: nat)
    requires
        inside(o, s.0, s.1),
        0 <= s.2 < 4,
    ensures
        walk(o, s, n) matches Some(x) ==> inside(o, x.0, x.1) && 0 <= x.2 < 4,
    decreases n,
{
    if n > 0 {
        lemma_walk_inside(o, s, (n - 1) as nat);
    }
}

// ---------------------------------------------------------------------------
// Following the guard

/// The map of obstructions is rectangular and small enough to number its states.
pub open spec fn grid_ok(o: Seq<Seq<bool>>, w: int) -> bool {
    &&& forall|r: int| 0 <= r < o.len() ==> (#[trigger] o[r]).len() == w
    &&& o.len() < 0x1000_0000 && w < 0x1000_0000
    &&& 4 * o.len() * w <= usize::MAX
}

/// The state as integers.
pub open spec fn st(g: (usize, usize, usize)) -> (int, int, int) {
    (g.0 as int, g.1 as int, g.2 as int)
}

/// The guard's next state.
fn tick_guard(obs: &Vec<Vec<bool>>, w: usize, g: (usize, usize, usize)) -> (r: Option<(usize, usize, usize)>)
    requires
        grid_ok(table::deep(obs@), w as int),
        inside(table::deep(obs@), g.0 as int, g.1 as int),
        g.2 < 4,
    ensures
        match r {
            Some(x) => tick(table::deep(obs@), st(g)) == Some(st(x)),
            None => tick(table::deep(obs@), st(g)) is None,
        },
{
    let ghost o = table::deep(obs@);
    let nr: isize = g.0 as isize + if g.2 == 0 { -1 } else if g.2 == 2 { 1 } else { 0 };
    let nc: isize = g.1 as isize + if g.2 == 1 { 1 } else if g.2 == 3 { -1 } else { 0 };
    proof {
        assert(o[g.0 as int].len() == w);
    }
    if nr < 0 || nr as usize >= obs.len() || nc < 0 || nc as usize >= w {
        return None;
    }
    proof {
        assert(o[nr as int] == obs@[nr as int]@);
        assert(o[nr as int].len() == w);
    }
    if obs[nr as usize][nc as usize] {
        Some((g.0, g.1, if g.2 == 3 { 0 } else { g.2 + 1 }))
    } else {
        Some((nr as usize, nc as usize, g.2))
    }
}

/// The cells the guard walks on, unless it walks in a loop (`None`).
fn get_open_path(obs: &Vec<Vec<bool>>, w: usize, g0: (usize, usize, usize)) -> (path: Option<Vec<Vec<bool>>>)
    requires
        grid_ok(table::deep(obs@), w as int),
        inside(table::deep(obs@), g0.0 as int, g0.1 as int),
        g0.2 < 4,
    ensures
        path is Some <==> leaves(table::deep(obs@), st(g0)),
        path matches Some(v) ==> v@.len() == obs@.len() && (forall|r: int| 0 <= r < v@.len() ==> (#[trigger] v@[r])@.len() == w)
            && forall|r: int, c: int|
            0 <= r < obs@.len() && 0 <= c < w ==> #[trigger] v@[r]@[c] == on_path(table::deep(obs@), st(g0), (r, c)),
{
    let ghost o = table::deep(obs@);
    let ghost s0 = st(g0);
    let h = obs.len();
    proof {
        assert(4 * h * w <= usize::MAX);
    }
    let n = 4 * h * w;
    let mut seen: Vec<bool> = Vec::new();
    let mut i: usize = 0;
    while i < n
        invariant
            i <= n,
            seen@.len() == i,
            forall|x: int| 0 <= x < i ==> !seen@[x],
        decreases n - i,
    {
        seen.push(false);
        i += 1;
    }
    let mut visited = new_marks(h, w);
    let mut g = g0;
    let ghost mut k: nat = 0;
    proof {
        assert forall|r: int, c: int, t: int|
            0 <= r < h && 0 <= c < w && 0 <= t < 4 implies (#[trigger] seen@[node(w as int, r, c, t)] <==> exists|j: nat|
                j < k && #[trigger] walk(o, s0, j) == Some((r, c, t))) by {
            lemma_node_bounds(h as int, w as int, r, c, t);
        }
    }
    loop
        invariant
            o == table::deep(obs@),
            inside(o, s0.0, s0.1) && 0 <= s0.2 < 4,
            grid_ok(o, w as int),
            h == o.len(),
            n == 4 * h * w,
            s0 == st(g0),
            inside(o, g.0 as int, g.1 as int),
            g.2 < 4,
            walk(o, s0, k) == Some(st(g)),
            seen@.len() == n,
            forall|r: int, c: int, t: int|
                0 <= r < h && 0 <= c < w && 0 <= t < 4 ==> (#[trigger] seen@[node(w as int, r, c, t)] <==> exists|j: nat|
                    j < k && #[trigger] walk(o, s0, j) == Some((r, c, t))),
            visited@.len() == h,
            forall|r: int| 0 <= r < h ==> (#[trigger] visited@[r])@.len() == w,
            forall|r: int, c: int|
                0 <= r < h && 0 <= c < w ==> (#[trigger] visited@[r]@[c] <==> exists|j: nat|
                    j < k && #[trigger] at_cell(o, s0, j, r, c)),
        decreases falses(seen@),
    {
        proof {
            lemma_node_bounds(h as int, w as int, g.0 as int, g.1 as int, g.2 as int);
            assert(o[g.0 as int].len() == w);
        }
        let id = (g.0 * w + g.1) * 4 + g.2;
        if seen[id] {
            proof {
                let j = choose|j: nat| j < k && #[trigger] walk(o, s0, j) == Some((g.0 as int, g.1 as int, g.2 as int));
                assert forall|m: nat| #[trigger] walk(o, s0, m) is Some by {
                    lemma_cycle(o, s0, j, k, m);
                }
            }
            return None;
        }
        let ghost sb = seen@;
        proof {
            lemma_falses_set(sb, id as int);
        }
        seen.set(id, true);
        let ghost vb = visited@;
        visited[g.0].set(g.1, true);
        proof {
            assert forall|r: int, c: int, t: int|
                0 <= r < h && 0 <= c < w && 0 <= t < 4 implies (#[trigger] seen@[node(w as int, r, c, t)] <==> exists|j: nat|
                    j < k + 1 && #[trigger] walk(o, s0, j) == Some((r, c, t))) by {
                lemma_node_bounds(h as int, w as int, r, c, t);
                if (r, c, t) == st(g) {
                    assert(walk(o, s0, k) == Some((r, c, t)));
                } else {
                    if node(w as int, r, c, t) == id {
                        lemma_node_bounds(h as int, w as int, g.0 as int, g.1 as int, g.2 as int);
                        lemma_node_inj(h as int, w as int, r, c, g.0 as int, g.1 as int);
                    }
                    assert(seen@[node(w as int, r, c, t)] == sb[node(w as int, r, c, t)]);
                    if exists|j: nat| j < k + 1 && #[trigger] walk(o, s0, j) == Some((r, c, t)) {
                        let j = choose|j: nat| j < k + 1 && #[trigger] walk(o, s0, j) == Some((r, c, t));
                        assert(j != k);
                    }
                }
            }
            assert forall|r: int, c: int|
                0 <= r < h && 0 <= c < w implies (#[trigger] visited@[r]@[c] <==> exists|j: nat|
                    j < k + 1 && #[trigger] at_cell(o, s0, j, r, c)) by {
                if r == g.0 && c == g.1 {
                    assert(at_cell(o, s0, k, r, c));
                } else {
                    assert(visited@[r]@[c] == vb[r]@[c]);
                    if exists|j: nat| j < k + 1 && #[trigger] at_cell(o, s0, j, r, c) {
                        let j = choose|j: nat| j < k + 1 && #[trigger] at_cell(o, s0, j, r, c);
                        assert(j != k);
                    }
                }
            }
        }
        match tick_guard(obs, w, g) {
            Some(next) => {
                proof {
                    assert(walk(o, s0, k + 1) == tick(o, walk(o, s0, k)->0));
                    lemma_walk_inside(o, s0, k + 1);
                    k = k + 1;
                }
                g = next;
            },
            None => {
                proof {
                    assert(walk(o, s0, k + 1) is None);
                    assert forall|r: int, c: int|
                        0 <= r < obs@.len() && 0 <= c < w implies #[trigger] visited@[r]@[c] == on_path(o, s0, (r, c)) by {
                        if on_path(o, s0, (r, c)) {
                            let j = choose|j: nat| #[trigger] at_cell(o, s0, j, r, c);
                            if j > k {
                                lemma_none_stays(o, s0, k + 1, j);
                            }
                            assert(j < k + 1 && at_cell(o, s0, j, r, c));
                        }
                        if visited@[r]@[c] {
                            let j = choose|j: nat| j < k + 1 && #[trigger] at_cell(o, s0, j, r, c);
                            let p = (r, c);
                            assert(at_cell(o, s0, j, p.0, p.1));
                            assert(on_path(o, s0, p));
                        }
                    }
                }
                return Some(visited);
            },
        }
    }
}

// ---------------------------------------------------------------------------
// The puzzle

/// The obstructions of the map: its '#' cells.
pub open spec fn obs_of(m: Seq<Seq<char>>) -> Seq<Seq<bool>> {
    m.map_values(|row: Seq<char>| row.map_values(|c: char| c == '#'))
}

/// The direction a guard character faces.
pub open spec fn guard_dir(c: char) -> Option<int> {
    if c == '^' {
        Some(0)
    } else if c == '>' {
        Some(1)
    } else if c == 'v' {
        Some(2)
    } else if c == '<' {
        Some(3)
    } else {
        None
    }
}

/// The direction a guard character faces.
pub fn parse_guard_dir(c: char) -> (d: Option<usize>)
    ensures
        d matches Some(t) ==> guard_dir(c) == Some(t as int),
        d is None <==> guard_dir(c) is None,
{
    if c == '^' {
        Some(0)
    } else if c == '>' {
        Some(1)
    } else if c == 'v' {
        Some(2)
    } else if c == '<' {
        Some(3)
    } else {
        None
    }
}

/// `s` is the first guard of the map, row by row, and the way it faces.
pub open spec fn first_guard(m: Seq<Seq<char>>, s: (int, int, int)) -> bool {
    &&& 0 <= s.0 < m.len() && 0 <= s.1 < m[s.0].len() && guard_dir(m[s.0][s.1]) == Some(s.2)
    &&& forall|r: int, c: int|
        0 <= r < m.len() && 0 <= c < m[r].len() && (r < s.0 || (r == s.0 && c < s.1)) ==> guard_dir(#[trigger] m[r][c]) is None
}

/// The guard at the start.
pub open spec fn start_of(m: Seq<Seq<char>>) -> (int, int, int) {
    choose|s: (int, int, int)| first_guard(m, s)
}

/// The map is rectangular, small enough, and shows a guard.
pub open spec fn lab_ok(input: Seq<char>) -> bool {
    let m = parse::lines_of(input);
    &&& array2d::rectangular(m)
    &&& m.len() > 0
    &&& grid_ok(obs_of(m), m[0].len() as int)
    &&& exists|r: int, c: int| 0 <= r < m.len() && 0 <= c < m[r].len() && #[trigger] guard_dir(m[r][c]) is Some
}

proof fn lemma_first_guard_unique(m: Seq<Seq<char>>, a: (int, int, int), b: (int, int, int))
    requires
        first_guard(m, a),
        first_guard(m, b),
    ensures
        a == b,
{
    assert(guard_dir(m[a.0][a.1]) is Some);
    assert(guard_dir(m[b.0][b.1]) is Some);
}

/// The obstructions of the map and the guard at the start.
pub fn parse_input(input: &str) -> (r: (Vec<Vec<bool>>, (usize, usize, usize), usize))
    requires
        lab_ok(input@),
    ensures
        table::deep(r.0@) == obs_of(parse::lines_of(input@)),
        st(r.1) == start_of(parse::lines_of(input@)),
        r.2 == parse::lines_of(input@)[0].len(),
        grid_ok(table::deep(r.0@), r.2 as int),
        inside(table::deep(r.0@), r.1.0 as int, r.1.1 as int),
        r.1.2 < 4,
{
    let ghost m = parse::lines_of(input@);
    let g = array2d::from_chars(input);
    proof {
        assert(g.rows()[0] == g.cells@[0]@);
    }
    let w = g.width;
    let mut obs: Vec<Vec<bool>> = Vec::new();
    let mut guard: Option<(usize, usize, usize)> = None;
    let mut r: usize = 0;
    while r < g.cells.len()
        invariant
            g.wf(),
            g.rows() == m,
            w == g.width,
            m.len() > 0 && w == m[0].len(),
            array2d::rectangular(m),
            r <= m.len(),
            table::deep(obs@) == obs_of(m).take(r as int),
            match guard {
                Some(s) => first_guard(m, st(s)) && s.0 < r,
                None => forall|r2: int, c: int| 0 <= r2 < r && 0 <= c < m[r2].len() ==> guard_dir(#[trigger] m[r2][c]) is None,
            },
        decreases m.len() - r,
    {
        let row = &g.cells[r];
        proof {
            assert(m[r as int] == row@);
            assert(m[r as int].len() == w);
        }
        let mut out: Vec<bool> = Vec::new();
        let mut c: usize = 0;
        while c < w
            invariant
                g.wf(),
                g.rows() == m,
                w == g.width,
                r < m.len(),
                m[r as int] == row@,
                row@.len() == w,
                c <= w,
                out@ == obs_of(m)[r as int].take(c as int),
                match guard {
                    Some(s) => first_guard(m, st(s)) && s.0 <= r,
                    None => (forall|r2: int, c2: int| 0 <= r2 < r && 0 <= c2 < m[r2].len() ==> guard_dir(#[trigger] m[r2][c2]) is None)
                        && forall|c2: int| 0 <= c2 < c ==> guard_dir(#[trigger] m[r as int][c2]) is None,
                },
            decreases w - c,
        {
            let ch = row[c];
            out.push(ch == '#');
            proof {
                assert(out@ =~= obs_of(m)[r as int].take(c + 1));
            }
            if guard.is_none() {
                if let Some(t) = parse_guard_dir(ch) {
                    guard = Some((r, c, t));
                    proof {
                        assert forall|r2: int, c2: int|
                            0 <= r2 < m.len() && 0 <= c2 < m[r2].len() && (r2 < r || (r2 == r && c2 < c)) implies guard_dir(
                                #[trigger] m[r2][c2],
                            ) is None by {
                            if r2 == r {
                                assert(guard_dir(m[r as int][c2]) is None);
                            }
                        }
                    }
                }
            }
            c += 1;
        }
        proof {
            assert(out@ =~= obs_of(m)[r as int]);
        }
        let ghost ob = obs@;
        let ghost ov = out@;
        obs.push(out);
        proof {
            assert(table::deep(obs@) =~= table::deep(ob).push(ov));
            assert(table::deep(obs@) =~= obs_of(m).take(r + 1));
        }
        r += 1;
    }
    proof {
        assert(obs_of(m).take(m.len() as int) =~= obs_of(m));
    }
    let s = match guard {
        Some(s) => s,
        None => {
            proof {
                let (r0, c0) = choose|r: int, c: int| 0 <= r < m.len() && 0 <= c < m[r].len() && #[trigger] guard_dir(m[r][c]) is Some;
            }
            (0, 0, 0)
        },
    };
    proof {
        lemma_first_guard_unique(m, st(s), start_of(m));
        assert(m[s.0 as int].len() == w);
    }
    (obs, s, w)
}

/// The guard leaves the map from the start: what the puzzle assumes.
pub open spec fn guard_leaves(input: Seq<char>) -> bool {
    leaves(obs_of(parse::lines_of(input)), start_of(parse::lines_of(input)))
}

/// Number of distinct cells the guard walks on before it leaves the map.
pub fn part1(input: &str) -> (n: usize)
    requires
        lab_ok(input@),
        guard_leaves(input@),
    ensures
        n == map_count(
            parse::lines_of(input@),
            |m: Seq<Seq<char>>, p: (int, int)| on_path(obs_of(m), start_of(m), p),
            parse::lines_of(input@).len() as int,
        ),
{
    let ghost m = parse::lines_of(input@);
    let ghost f = |m: Seq<Seq<char>>, p: (int, int)| on_path(obs_of(m), start_of(m), p);
    let (obs, g, w) = parse_input(input);
    let path = get_open_path(&obs, w, g);
    let v = path.unwrap();
    proof {
        assert forall|r: int| 0 <= r < m.len() implies (#[trigger] m[r]).len() == w by {
            assert(m[r].len() == m[0].len());
        }
        assert forall|r: int| 0 <= r < m.len() implies (#[trigger] v@[r])@.len() == m[r].len() by {
            assert(m[r].len() == m[0].len());
        }
        assert(m.len() * w <= 4 * m.len() * w) by (nonlinear_arith)
            requires
                m.len() >= 0,
                w >= 0,
        ;
    }
    count_marks(&v, w, Ghost(m), Ghost(f))
}

/// The map with an obstruction added at `p`.
pub open spec fn with_block(o: Seq<Seq<bool>>, p: (int, int)) -> Seq<Seq<bool>> {
    o.update(p.0, o[p.0].update(p.1, true))
}

/// A new obstruction at `p`, a cell of the guard's walk other than its start, makes it walk
/// in a loop.
pub open spec fn loop_spot(m: Seq<Seq<char>>, p: (int, int)) -> bool {
    let s = start_of(m);
    &&& on_path(obs_of(m), s, p)
    &&& p != (s.0, s.1)
    &&& !leaves(with_block(obs_of(m), p), s)
}

/// Number of cells where one new obstruction traps the guard in a loop.
pub fn part2(input: &str) -> (n: usize)
    requires
        lab_ok(input@),
        guard_leaves(input@),
    ensures
        n == map_count(
            parse::lines_of(input@),
            |m: Seq<Seq<char>>, p: (int, int)| loop_spot(m, p),
            parse::lines_of(input@).len() as int,
        ),
{
    let ghost m = parse::lines_of(input@);
    let ghost f = |m: Seq<Seq<char>>, p: (int, int)| loop_spot(m, p);
    let (mut obs, g, w) = parse_input(input);
    let ghost o = table::deep(obs@);
    let path = get_open_path(&obs, w, g).unwrap();
    let h = obs.len();
    let mut marks = new_marks(h, w);
    let mut r: usize = 0;
    while r < h
        invariant
            o == obs_of(m),
            f == (|m: Seq<Seq<char>>, p: (int, int)| loop_spot(m, p)),
            table::deep(obs@) == o,
            grid_ok(o, w as int),
            h == o.len(),
            inside(o, g.0 as int, g.1 as int),
            g.2 < 4,
            st(g) == start_of(m),
            path@.len() == h,
            forall|q: int| 0 <= q < h ==> (#[trigger] path@[q])@.len() == w,
            forall|q: int, c: int| 0 <= q < h && 0 <= c < w ==> #[trigger] path@[q]@[c] == on_path(o, st(g), (q, c)),
            r <= h,
            marks@.len() == h,
            forall|q: int| 0 <= q < h ==> (#[trigger] marks@[q])@.len() == w,
            forall|q: int, c: int| 0 <= q < h && 0 <= c < w ==> #[trigger] marks@[q]@[c] == (q < r && f(m, (q, c))),
        decreases h - r,
    {
        let mut c: usize = 0;
        proof {
            assert(o[r as int] == obs@[r as int]@);
            assert(o[r as int].len() == w);
        }
        while c < w
            invariant
                o == obs_of(m),
                f == (|m: Seq<Seq<char>>, p: (int, int)| loop_spot(m, p)),
                table::deep(obs@) == o,
                grid_ok(o, w as int),
                h == o.len(),
                inside(o, g.0 as int, g.1 as int),
                g.2 < 4,
                st(g) == start_of(m),
                path@.len() == h,
                forall|q: int| 0 <= q < h ==> (#[trigger] path@[q])@.len() == w,
                forall|q: int, x: int| 0 <= q < h && 0 <= x < w ==> #[trigger] path@[q]@[x] == on_path(o, st(g), (q, x)),
                r < h,
                c <= w,
                marks@.len() == h,
                forall|q: int| 0 <= q < h ==> (#[trigger] marks@[q])@.len() == w,
                forall|q: int, x: int|
                    0 <= q < h && 0 <= x < w ==> #[trigger] marks@[q]@[x] == ((q < r || (q == r && x < c)) && f(m, (q, x))),
            decreases w - c,
        {
            let ghost mk = marks@;
            if path[r][c] && (r != g.0 || c != g.1) {
                proof {
                    assert(o[r as int] == obs@[r as int]@);
                }
                let old = obs[r][c];
                proof {
                    assert(old == o[r as int][c as int]);
                }
                obs[r].set(c, true);
                proof {
                    assert(table::deep(obs@) =~= with_block(o, (r as int, c as int)));
                    assert forall|q: int| 0 <= q < h implies (#[trigger] table::deep(obs@)[q]).len() == w by {
                        assert(o[q].len() == w);
                    }
                }
                let trapped = get_open_path(&obs, w, g).is_none();
                obs[r].set(c, old);
                proof {
                    assert forall|q: int| 0 <= q < h implies #[trigger] table::deep(obs@)[q] == o[q] by {
                        if q == r {
                            assert(obs@[q]@ =~= o[q]);
                        }
                    }
                    assert(table::deep(obs@) =~= o);
                }
                marks[r].set(c, trapped);
            }
            proof {
                assert forall|q: int, x: int|
                    0 <= q < h && 0 <= x < w implies #[trigger] marks@[q]@[x] == ((q < r || (q == r && x < c + 1)) && f(m, (q, x))) by {
                    if q == r && x == c {
                        assert(f(m, (q, x)) == loop_spot(m, (q, x)));
                    } else {
                        assert(marks@[q]@[x] == mk[q]@[x]);
                    }
                }
            }
            c += 1;
        }
        r += 1;
    }
    proof {
        assert forall|q: int| 0 <= q < m.len() implies (#[trigger] m[q]).len() == w by {
            assert(m[q].len() == m[0].len());
        }
        assert(m.len() * w <= 4 * m.len() * w) by (nonlinear_arith)
            requires
                m.len() >= 0,
                w >= 0,
        ;
    }
    count_marks(&marks, w, Ghost(m), Ghost(f))
}

} // verus!
