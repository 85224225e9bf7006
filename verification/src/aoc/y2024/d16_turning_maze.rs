use crate::lgl::data::array2d::{self, Grid};
use crate::lgl::data::graph::{self, weight_sum, Graph};
use crate::lgl::data::index::Ix2s;
use crate::lgl::parse;
use vstd::prelude::*;

verus! {

// ---------------------------------------------------------------------------
// Directions and states
//
// A state of the reindeer is a tile and the direction it faces; the directions are numbered
// clockwise from north: 0 north, 1 east, 2 south, 3 west.

/// Row step of direction `t`.
pub open spec fn dr(t: int) -> int {
    if t == 0 {
        -1
    } else if t == 2 {
        1
    } else {
        0
    }
}

/// Column step of direction `t`.
pub open spec fn dc(t: int) -> int {
    if t == 1 {
        1
    } else if t == 3 {
        -1
    } else {
        0
    }
}

/// The step of direction `t`, as (row, column).
pub fn cardinal(t: usize) -> (d: Ix2s)
    requires
        t < 4,
    ensures
        d.0 == dr(t as int),
        d.1 == dc(t as int),
{
    if t == 0 {
        Ix2s(-1, 0)
    } else if t == 1 {
        Ix2s(0, 1)
    } else if t == 2 {
        Ix2s(1, 0)
    } else {
        Ix2s(0, -1)
    }
}

/// The width of the maze.
pub open spec fn mw(m: Seq<Seq<char>>) -> int {
    if m.len() > 0 {
        m[0].len() as int
    } else {
        0
    }
}

/// The tile is in the maze and is not a wall.
pub open spec fn open(m: Seq<Seq<char>>, r: int, c: int) -> bool {
    0 <= r < m.len() && 0 <= c < m[r].len() && m[r][c] != '#'
}

/// The number of the state at tile (`r`, `c`) facing `t`, in a maze `w` tiles wide.
pub open spec fn node(w: int, r: int, c: int, t: int) -> int {
    (r * w + c) * 4 + t
}

/// A step forward from (`r`, `c`) facing `t` lands on an open tile.
pub open spec fn straight(m: Seq<Seq<char>>, r: int, c: int, t: int) -> bool {
    0 <= t < 4 && open(m, r, c) && open(m, r + dr(t), c + dc(t))
}

/// `t2` is a quarter turn from `t`, either way.
pub open spec fn quarter(t: int, t2: int) -> bool {
    0 <= t < 4 && 0 <= t2 < 4 && (t2 == (t + 1) % 4 || t == (t2 + 1) % 4)
}

/// The move from state `u` to state `v` costs `w`: a step forward costs 1, a quarter turn
/// on the spot 1000.
pub open spec fn step(m: Seq<Seq<char>>, u: int, v: int, w: int) -> bool {
    ||| exists|r: int, c: int, t: int|
        #[trigger] straight(m, r, c, t) && u == node(mw(m), r, c, t) && v == node(mw(m), r + dr(t), c + dc(t), t)
            && w == 1
    ||| exists|r: int, c: int, t: int, t2: int|
        #[trigger] quarter(t, t2) && open(m, r, c) && u == #[trigger] node(mw(m), r, c, t) && v == node(mw(m), r, c, t2)
            && w == 1000
}

/// A walk of total cost `c` from `s` to `v`, by moves `rel` allows.
pub open spec fn path_walk(rel: spec_fn(int, int, int) -> bool, s: int, v: int, c: nat) -> bool
    decreases c,
{
    if c == 0 {
        v == s
    } else {
        exists|u: int, w: int| 1 <= w <= c && #[trigger] rel(u, v, w) && path_walk(rel, s, u, (c - w) as nat)
    }
}

/// The moves of the maze.
pub open spec fn moves(m: Seq<Seq<char>>) -> spec_fn(int, int, int) -> bool {
    |u: int, v: int, w: int| step(m, u, v, w)
}

/// The moves of the maze taken backwards: a walk by them from the goal to `v` is a walk from
/// `v` to the goal.
pub open spec fn back_moves(m: Seq<Seq<char>>) -> spec_fn(int, int, int) -> bool {
    |u: int, v: int, w: int| step(m, v, u, w)
}

/// `c` is the least cost of a walk from `s` to `v`.
pub open spec fn least(rel: spec_fn(int, int, int) -> bool, s: int, v: int, c: nat) -> bool {
    path_walk(rel, s, v, c) && forall|y: nat| y < c ==> !#[trigger] path_walk(rel, s, v, y)
}

proof fn lemma_walk_eq(mg: &Graph, rel: spec_fn(int, int, int) -> bool, s: int, c: nat)
    requires
        mg.directed,
        forall|u: int, v: int, w: int| #[trigger] mg.has_edge(u, v, w) == rel(u, v, w),
    ensures
        forall|v: int| #[trigger] mg.walk(s, v, c) == path_walk(rel, s, v, c),
    decreases c,
{
    assert forall|v: int| #[trigger] mg.walk(s, v, c) == path_walk(rel, s, v, c) by {
        if c > 0 {
            if mg.walk(s, v, c) {
                let (u, w) = choose|u: int, w: int| 1 <= w <= c && #[trigger] mg.has_edge(u, v, w) && mg.walk(s, u, (c - w) as nat);
                lemma_walk_eq(mg, rel, s, (c - w) as nat);
                assert(rel(u, v, w));
                assert(path_walk(rel, s, u, (c - w) as nat));
            }
            if path_walk(rel, s, v, c) {
                let (u, w) = choose|u: int, w: int| 1 <= w <= c && #[trigger] rel(u, v, w) && path_walk(rel, s, u, (c - w) as nat);
                lemma_walk_eq(mg, rel, s, (c - w) as nat);
                assert(mg.has_edge(u, v, w));
                assert(mg.walk(s, u, (c - w) as nat));
            }
        }
    }
}

// ---------------------------------------------------------------------------
// The graph of the maze

/// The maze leaves room for the numbers of its states and for its costs.
pub open spec fn maze_fits(g: &Grid<char>) -> bool {
    &&& g.wf()
    &&& g.height() > 0
    &&& 24000 * g.height() * g.width <= i32::MAX
}

/// An edge of the list goes from `u` to `v` and costs `w`.
pub open spec fn listed_edge(es: Seq<(usize, usize, i32)>, u: int, v: int, w: int) -> bool {
    exists|k: int| 0 <= k < es.len() && #[trigger] es[k].2 == w && es[k].0 == u && es[k].1 == v
}

proof fn lemma_listed_push(es: Seq<(usize, usize, i32)>, x: (usize, usize, i32))
    ensures
        forall|u: int, v: int, w: int| #[trigger] listed_edge(es, u, v, w) ==> listed_edge(es.push(x), u, v, w),
        listed_edge(es.push(x), x.0 as int, x.1 as int, x.2 as int),
{
    assert forall|u: int, v: int, w: int| #[trigger] listed_edge(es, u, v, w) implies listed_edge(es.push(x), u, v, w) by {
        let k = choose|k: int| 0 <= k < es.len() && #[trigger] es[k].2 == w && es[k].0 == u && es[k].1 == v;
        assert(es.push(x)[k] == es[k]);
    }
    assert(es.push(x)[es.len() as int] == x);
}

pub(crate) proof fn lemma_node_bounds(h: int, w: int, r: int, c: int, t: int)
    requires
        0 <= r < h,
        0 <= c < w,
        0 <= t < 4,
    ensures
        0 <= node(w, r, c, t) < 4 * h * w,
        node(w, r, c, t) % 4 == t,
        node(w, r, c, t) / 4 == r * w + c,
{
    assert(0 <= r * w + c < h * w) by (nonlinear_arith)
        requires
            0 <= r < h,
            0 <= c < w,
    ;
    assert(0 <= node(w, r, c, t) < 4 * h * w) by (nonlinear_arith)
        requires
            0 <= r * w + c < h * w,
            0 <= t < 4,
            node(w, r, c, t) == (r * w + c) * 4 + t,
    ;
    assert(node(w, r, c, t) % 4 == t && node(w, r, c, t) / 4 == r * w + c) by (nonlinear_arith)
        requires
            0 <= r * w + c,
            0 <= t < 4,
    ;
}

/// The tile of a state is fixed by its number.
pub(crate) proof fn lemma_node_inj(h: int, w: int, r: int, c: int, r2: int, c2: int)
    requires
        0 <= r < h,
        0 <= c < w,
        0 <= r2 < h,
        0 <= c2 < w,
        r * w + c == r2 * w + c2,
    ensures
        r == r2 && c == c2,
{
    assert(r == r2 && c == c2) by (nonlinear_arith)
        requires
            0 <= c < w,
            0 <= c2 < w,
            r * w + c == r2 * w + c2,
            0 <= r,
            0 <= r2,
    {
        if r < r2 {
            assert(r * w + c < (r + 1) * w);
            assert((r + 1) * w <= r2 * w);
        } else if r2 < r {
            assert(r2 * w + c2 < (r2 + 1) * w);
            assert((r2 + 1) * w <= r * w);
        }
    }
}

/// The number of the state at (`r`, `c`) facing `t`.
fn state(width: usize, r: usize, c: usize, t: usize, height: usize) -> (id: usize)
    requires
        r < height,
        c < width,
        t < 4,
        4 * height * width <= usize::MAX,
    ensures
        id == node(width as int, r as int, c as int, t as int),
        id < 4 * height * width,
{
    proof {
        lemma_node_bounds(height as int, width as int, r as int, c as int, t as int);
        assert(r * width + c < height * width) by (nonlinear_arith)
            requires
                r < height,
                c < width,
        ;
    }
    (r * width + c) * 4 + t
}

/// The graph of the maze's states: a step forward, of cost 1, from each open tile to the
/// open tile ahead, for each direction in turn; then, for each open tile, a quarter turn
/// each way between each two neighbouring directions, of cost 1000.
#[verifier::rlimit(50)]
pub fn get_maze_graph(g: &Grid<char>) -> (mg: Graph)
    requires
        maze_fits(g),
    ensures
        mg.wf(),
        mg.directed,
        mg.n == 4 * g.height() * g.width,
        forall|u: int, v: int, w: int| #[trigger] mg.has_edge(u, v, w) == step(g.rows(), u, v, w),
{
    let ghost m = g.rows();
    let h = g.cells.len();
    let wd = g.width;
    proof {
        assert(m[0] == g.cells@[0]@);
        assert(mw(m) == wd);
        assert forall|r: int, c: int| #[trigger] open(m, r, c) == (0 <= r < h && 0 <= c < wd && g.at(r, c) != '#') by {
            if 0 <= r < h {
                assert(m[r] == g.cells@[r]@);
            }
        }
    }
    proof {
        assert(4 * h * wd <= 24000 * h * wd) by (nonlinear_arith)
            requires
                h >= 0,
                wd >= 0,
        ;
    }
    proof {
        assert(h * wd <= 24000 * h * wd) by (nonlinear_arith)
            requires
                h >= 0,
                wd >= 0,
        ;
        assert(4 * (h * wd) == 4 * h * wd) by (nonlinear_arith);
    }
    let n = 4 * (h * wd);
    let mut edges: Vec<(usize, usize, i32)> = Vec::new();
    let ghost mut cnt: int = 0;
    // Steps forward.
    let mut t: usize = 0;
    proof {
        assert(t * h * wd == 0) by (nonlinear_arith)
            requires
                t == 0,
        ;
    }
    while t < 4
        invariant
            maze_fits(g),
            m == g.rows(),
            mw(m) == wd,
            forall|r: int, c: int| #[trigger] open(m, r, c) == (0 <= r < h && 0 <= c < wd && g.at(r, c) != '#'),
            h == g.height(),
            wd == g.width,
            n == 4 * h * wd,
            t <= 4,
            cnt == t * h * wd,
            edges@.len() <= cnt,
            weight_sum(edges@) <= edges@.len(),
            forall|k: int| 0 <= k < edges@.len() ==> {
                let e = #[trigger] edges@[k];
                &&& e.0 < n && e.1 < n
                &&& step(m, e.0 as int, e.1 as int, e.2 as int)
                &&& e.2 == 1
            },
            forall|t2: int, r: int, c: int|
                #[trigger] straight(m, r, c, t2) && t2 < t ==> listed_edge(
                    edges@,
                    node(wd as int, r, c, t2),
                    node(wd as int, r + dr(t2), c + dc(t2), t2),
                    1,
                ),
        decreases 4 - t,
    {
        let d = cardinal(t);
        let mut r: usize = 0;
        while r < h
            invariant
                maze_fits(g),
                m == g.rows(),
                mw(m) == wd,
                forall|r: int, c: int| #[trigger] open(m, r, c) == (0 <= r < h && 0 <= c < wd && g.at(r, c) != '#'),
                h == g.height(),
                wd == g.width,
                n == 4 * h * wd,
                t < 4,
                d.0 == dr(t as int) && d.1 == dc(t as int),
                r <= h,
                cnt == t * h * wd + r * wd,
                edges@.len() <= cnt,
                weight_sum(edges@) <= edges@.len(),
                forall|k: int| 0 <= k < edges@.len() ==> {
                    let e = #[trigger] edges@[k];
                    &&& e.0 < n && e.1 < n
                    &&& step(m, e.0 as int, e.1 as int, e.2 as int)
                    &&& e.2 == 1
                },
                forall|t2: int, r2: int, c2: int|
                    #[trigger] straight(m, r2, c2, t2) && (t2 < t || (t2 == t && r2 < r)) ==> listed_edge(
                        edges@,
                        node(wd as int, r2, c2, t2),
                        node(wd as int, r2 + dr(t2), c2 + dc(t2), t2),
                        1,
                    ),
            decreases h - r,
        {
            let mut c: usize = 0;
            proof {
                assert(g.cells@[r as int]@.len() == wd);
            }
            while c < wd
                invariant
                    maze_fits(g),
                    m == g.rows(),
                    mw(m) == wd,
                    forall|r: int, c: int| #[trigger] open(m, r, c) == (0 <= r < h && 0 <= c < wd && g.at(r, c) != '#'),
                    h == g.height(),
                    wd == g.width,
                    n == 4 * h * wd,
                    t < 4,
                    d.0 == dr(t as int) && d.1 == dc(t as int),
                    r < h,
                    c <= wd,
                    cnt == t * h * wd + r * wd + c,
                    edges@.len() <= cnt,
                    weight_sum(edges@) <= edges@.len(),
                    forall|k: int| 0 <= k < edges@.len() ==> {
                        let e = #[trigger] edges@[k];
                        &&& e.0 < n && e.1 < n
                        &&& step(m, e.0 as int, e.1 as int, e.2 as int)
                        &&& e.2 == 1
                    },
                    forall|t2: int, r2: int, c2: int|
                        #[trigger] straight(m, r2, c2, t2) && (t2 < t || (t2 == t && (r2 < r || (r2 == r && c2 < c))))
                            ==> listed_edge(
                            edges@,
                            node(wd as int, r2, c2, t2),
                            node(wd as int, r2 + dr(t2), c2 + dc(t2), t2),
                            1,
                        ),
                decreases wd - c,
            {
                proof {
                    assert(h <= h * wd && wd <= h * wd) by (nonlinear_arith)
                        requires
                            wd >= 1,
                            h >= 1,
                    ;
                    assert(h * wd <= 24000 * h * wd) by (nonlinear_arith)
                        requires
                            h >= 0,
                            wd >= 0,
                    ;
                }
                let src = Ix2s(r as isize, c as isize);
                let ghost old_edges = edges@;
                if g.cells[r][c] != '#' {
                    let dst = src.add(d);
                    let there = array2d::get(g, dst);
                    if let Some(ch) = there {
                        if *ch != '#' {
                            proof {
                                assert(g.at(r as int, c as int) != '#');
                                assert(straight(m, r as int, c as int, t as int));
                                lemma_node_bounds(h as int, wd as int, dst.0 as int, dst.1 as int, t as int);
                            }
                            let a = state(wd, r, c, t, h);
                            let b = state(wd, dst.0 as usize, dst.1 as usize, t, h);
                            edges.push((a, b, 1));
                            proof {
                                lemma_listed_push(old_edges, (a, b, 1));
                                assert(weight_sum(edges@) == weight_sum(old_edges) + 1) by {
                                    assert(edges@.drop_last() =~= old_edges);
                                }
                            }
                        }
                    }
                }
                proof {
                    cnt = cnt + 1;
                    assert forall|t2: int, r2: int, c2: int|
                        #[trigger] straight(m, r2, c2, t2) && (t2 < t || (t2 == t && (r2 < r || (r2 == r && c2 < c + 1))))
                        implies listed_edge(
                        edges@,
                        node(wd as int, r2, c2, t2),
                        node(wd as int, r2 + dr(t2), c2 + dc(t2), t2),
                        1,
                    ) by {
                        if t2 == t && r2 == r && c2 == c {
                            assert(g.at(r as int, c as int) != '#');
                            assert(g.in_bounds(Ix2s((r + dr(t2)) as isize, (c + dc(t2)) as isize)));
                        } else if edges@.len() > old_edges.len() {
                            assert(listed_edge(old_edges, node(wd as int, r2, c2, t2), node(wd as int, r2 + dr(t2), c2 + dc(t2), t2), 1));
                        }
                    }
                }
                c += 1;
            }
            proof {
                assert(t * h * wd + r * wd + wd == t * h * wd + (r + 1) * wd) by (nonlinear_arith);
            }
            r += 1;
        }
        proof {
            assert(t * h * wd + h * wd == (t + 1) * h * wd) by (nonlinear_arith);
        }
        t += 1;
    }
    let ghost n_straight = edges@.len();
    // Quarter turns.
    let mut r: usize = 0;
    while r < h
        invariant
            maze_fits(g),
            m == g.rows(),
            mw(m) == wd,
            forall|r: int, c: int| #[trigger] open(m, r, c) == (0 <= r < h && 0 <= c < wd && g.at(r, c) != '#'),
            h == g.height(),
            wd == g.width,
            n == 4 * h * wd,
            r <= h,
            n_straight <= 4 * h * wd,
            edges@.len() <= n_straight + 8 * (r * wd),
            weight_sum(edges@) <= 1000 * edges@.len(),
            forall|k: int| 0 <= k < edges@.len() ==> {
                let e = #[trigger] edges@[k];
                &&& e.0 < n && e.1 < n
                &&& step(m, e.0 as int, e.1 as int, e.2 as int)
                &&& 1 <= e.2 <= 1000
            },
            forall|t2: int, r2: int, c2: int|
                #[trigger] straight(m, r2, c2, t2) ==> listed_edge(
                    edges@,
                    node(wd as int, r2, c2, t2),
                    node(wd as int, r2 + dr(t2), c2 + dc(t2), t2),
                    1,
                ),
            forall|r2: int, c2: int, t1: int, t2: int|
                #[trigger] quarter(t1, t2) && open(m, r2, c2) && r2 < r ==> listed_edge(
                    edges@,
                    #[trigger] node(wd as int, r2, c2, t1),
                    node(wd as int, r2, c2, t2),
                    1000,
                ),
        decreases h - r,
    {
        let mut c: usize = 0;
        proof {
            assert(g.cells@[r as int]@.len() == wd);
        }
        while c < wd
            invariant
                maze_fits(g),
                m == g.rows(),
                mw(m) == wd,
                forall|r: int, c: int| #[trigger] open(m, r, c) == (0 <= r < h && 0 <= c < wd && g.at(r, c) != '#'),
                h == g.height(),
                wd == g.width,
                n == 4 * h * wd,
                r < h,
                c <= wd,
                n_straight <= 4 * h * wd,
                edges@.len() <= n_straight + 8 * (r * wd + c),
                weight_sum(edges@) <= 1000 * edges@.len(),
                forall|k: int| 0 <= k < edges@.len() ==> {
                    let e = #[trigger] edges@[k];
                    &&& e.0 < n && e.1 < n
                    &&& step(m, e.0 as int, e.1 as int, e.2 as int)
                    &&& 1 <= e.2 <= 1000
                },
                forall|t2: int, r2: int, c2: int|
                    #[trigger] straight(m, r2, c2, t2) ==> listed_edge(
                        edges@,
                        node(wd as int, r2, c2, t2),
                        node(wd as int, r2 + dr(t2), c2 + dc(t2), t2),
                        1,
                    ),
                forall|r2: int, c2: int, t1: int, t2: int|
                    #[trigger] quarter(t1, t2) && open(m, r2, c2) && (r2 < r || (r2 == r && c2 < c)) ==> listed_edge(
                        edges@,
                        #[trigger] node(wd as int, r2, c2, t1),
                        node(wd as int, r2, c2, t2),
                        1000,
                    ),
            decreases wd - c,
        {
            if g.cells[r][c] != '#' {
                proof {
                    assert(open(m, r as int, c as int));
                }
                let mut t: usize = 0;
                while t < 4
                    invariant
                        maze_fits(g),
                        m == g.rows(),
                        mw(m) == wd,
                        forall|r: int, c: int| #[trigger] open(m, r, c) == (0 <= r < h && 0 <= c < wd && g.at(r, c) != '#'),
                        h == g.height(),
                        wd == g.width,
                        n == 4 * h * wd,
                        r < h,
                        c < wd,
                        open(m, r as int, c as int),
                        t <= 4,
                        n_straight <= 4 * h * wd,
                        edges@.len() <= n_straight + 8 * (r * wd + c) + 2 * t,
                        weight_sum(edges@) <= 1000 * edges@.len(),
                        forall|k: int| 0 <= k < edges@.len() ==> {
                            let e = #[trigger] edges@[k];
                            &&& e.0 < n && e.1 < n
                            &&& step(m, e.0 as int, e.1 as int, e.2 as int)
                            &&& 1 <= e.2 <= 1000
                        },
                        forall|t2: int, r2: int, c2: int|
                            #[trigger] straight(m, r2, c2, t2) ==> listed_edge(
                                edges@,
                                node(wd as int, r2, c2, t2),
                                node(wd as int, r2 + dr(t2), c2 + dc(t2), t2),
                                1,
                            ),
                        forall|r2: int, c2: int, t1: int, t2: int|
                            #[trigger] quarter(t1, t2) && open(m, r2, c2) && (r2 < r || (r2 == r && c2 < c)) ==> listed_edge(
                                edges@,
                                #[trigger] node(wd as int, r2, c2, t1),
                                node(wd as int, r2, c2, t2),
                                1000,
                            ),
                        forall|t1: int|
                            0 <= t1 < t ==> listed_edge(edges@, #[trigger] node(wd as int, r as int, c as int, t1), node(wd as int, r as int, c as int, (t1 + 1) % 4), 1000)
                                && listed_edge(edges@, node(wd as int, r as int, c as int, (t1 + 1) % 4), node(wd as int, r as int, c as int, t1), 1000),
                    decreases 4 - t,
                {
                    let t1 = if t == 3 { 0 } else { t + 1 };
                    let a = state(wd, r, c, t, h);
                    let b = state(wd, r, c, t1, h);
                    let ghost e0 = edges@;
                    proof {
                        assert(quarter(t as int, t1 as int));
                        assert(quarter(t1 as int, t as int));
                        assert(step(m, a as int, b as int, 1000));
                        assert(step(m, b as int, a as int, 1000));
                    }
                    edges.push((a, b, 1000));
                    let ghost e1 = edges@;
                    edges.push((b, a, 1000));
                    proof {
                        lemma_listed_push(e0, (a, b, 1000));
                        lemma_listed_push(e1, (b, a, 1000));
                        assert(e1.drop_last() =~= e0);
                        assert(edges@.drop_last() =~= e1);
                        assert(weight_sum(e1) == weight_sum(e0) + 1000);
                        assert(weight_sum(edges@) == weight_sum(e1) + 1000);
                    }
                    t += 1;
                }
                proof {
                    assert forall|r2: int, c2: int, t1: int, t2: int|
                        #[trigger] quarter(t1, t2) && open(m, r2, c2) && (r2 < r || (r2 == r && c2 < c + 1)) implies listed_edge(
                            edges@,
                            #[trigger] node(wd as int, r2, c2, t1),
                            node(wd as int, r2, c2, t2),
                            1000,
                        ) by {
                        if r2 == r && c2 == c {
                            if t2 == (t1 + 1) % 4 {
                                assert(listed_edge(edges@, node(wd as int, r as int, c as int, t1), node(wd as int, r as int, c as int, (t1 + 1) % 4), 1000));
                            } else {
                                assert(listed_edge(edges@, node(wd as int, r as int, c as int, t2), node(wd as int, r as int, c as int, (t2 + 1) % 4), 1000));
                            }
                        }
                    }
                }
            } else {
                proof {
                    assert forall|r2: int, c2: int, t1: int, t2: int|
                        #[trigger] quarter(t1, t2) && open(m, r2, c2) && (r2 < r || (r2 == r && c2 < c + 1)) implies listed_edge(
                            edges@,
                            #[trigger] node(wd as int, r2, c2, t1),
                            node(wd as int, r2, c2, t2),
                            1000,
                        ) by {
                        if r2 == r && c2 == c {
                            assert(g.at(r as int, c as int) == '#');
                        }
                    }
                }
            }
            c += 1;
        }
        proof {
            assert(8 * (r * wd + wd) == 8 * ((r + 1) * wd)) by (nonlinear_arith);
        }
        r += 1;
    }
    let mg = Graph { n, directed: true, edges };
    proof {
        assert(mg.edges@.len() <= 12 * h * wd) by (nonlinear_arith)
            requires
                mg.edges@.len() <= n_straight + 8 * (h * wd),
                n_straight <= 4 * h * wd,
        ;
        assert(2 * weight_sum(mg.edges@) <= 24000 * h * wd) by (nonlinear_arith)
            requires
                weight_sum(mg.edges@) <= 1000 * mg.edges@.len(),
                mg.edges@.len() <= 12 * h * wd,
        ;
        assert forall|u: int, v: int, w: int| #[trigger] mg.has_edge(u, v, w) == step(m, u, v, w) by {
            if mg.has_edge(u, v, w) {
                let k = choose|k: int|
                    0 <= k < mg.edges@.len() && #[trigger] mg.edges@[k].2 == w && ((mg.edges@[k].0 == u && mg.edges@[k].1 == v)
                        || (!mg.directed && mg.edges@[k].0 == v && mg.edges@[k].1 == u));
                assert(step(m, mg.edges@[k].0 as int, mg.edges@[k].1 as int, mg.edges@[k].2 as int));
            }
            if step(m, u, v, w) {
                if exists|r: int, c: int, t: int|
                    #[trigger] straight(m, r, c, t) && u == node(mw(m), r, c, t) && v == node(mw(m), r + dr(t), c + dc(t), t) && w == 1 {
                    let (r, c, t) = choose|r: int, c: int, t: int|
                        #[trigger] straight(m, r, c, t) && u == node(mw(m), r, c, t) && v == node(mw(m), r + dr(t), c + dc(t), t) && w == 1;
                    assert(listed_edge(mg.edges@, u, v, 1));
                    let k = choose|k: int| 0 <= k < mg.edges@.len() && #[trigger] mg.edges@[k].2 == 1 && mg.edges@[k].0 == u && mg.edges@[k].1 == v;
                } else {
                    let (r, c, t1, t2) = choose|r: int, c: int, t: int, t2: int|
                        #[trigger] quarter(t, t2) && open(m, r, c) && u == #[trigger] node(mw(m), r, c, t) && v == node(mw(m), r, c, t2) && w == 1000;
                    assert(listed_edge(mg.edges@, node(wd as int, r, c, t1), node(wd as int, r, c, t2), 1000));
                    let k = choose|k: int| 0 <= k < mg.edges@.len() && #[trigger] mg.edges@[k].2 == 1000 && mg.edges@[k].0 == u && mg.edges@[k].1 == v;
                }
            }
        }
        assert forall|k: int, k2: int|
            0 <= k < k2 < mg.edges@.len() && #[trigger] mg.key(k) == #[trigger] mg.key(k2) implies mg.edges@[k].2 == mg.edges@[k2].2 by {
            lemma_step_weight(m, mg.edges@[k].0 as int, mg.edges@[k].1 as int, mg.edges@[k].2 as int, mg.edges@[k2].2 as int);
        }
    }
    mg
}

/// A move between two states has one cost: 1 when it keeps the direction, 1000 when not.
proof fn lemma_step_weight(m: Seq<Seq<char>>, u: int, v: int, w1: int, w2: int)
    requires
        step(m, u, v, w1),
        step(m, u, v, w2),
        forall|r: int| 0 <= r < m.len() ==> (#[trigger] m[r]).len() == mw(m),
    ensures
        w1 == w2,
{
    let wd = mw(m);
    let h = m.len() as int;
    assert forall|w: int| #[trigger] step(m, u, v, w) implies (u % 4 == v % 4 <==> w == 1) by {
        if exists|r: int, c: int, t: int|
            #[trigger] straight(m, r, c, t) && u == node(wd, r, c, t) && v == node(wd, r + dr(t), c + dc(t), t) && w == 1 {
            let (r, c, t) = choose|r: int, c: int, t: int|
                #[trigger] straight(m, r, c, t) && u == node(wd, r, c, t) && v == node(wd, r + dr(t), c + dc(t), t) && w == 1;
            lemma_node_bounds(h, wd, r, c, t);
            lemma_node_bounds(h, wd, r + dr(t), c + dc(t), t);
        } else {
            let (r, c, t, t2) = choose|r: int, c: int, t: int, t2: int|
                #[trigger] quarter(t, t2) && open(m, r, c) && u == #[trigger] node(wd, r, c, t) && v == node(wd, r, c, t2) && w == 1000;
            lemma_node_bounds(h, wd, r, c, t);
            lemma_node_bounds(h, wd, r, c, t2);
        }
    }
}

/// The graph with every edge turned around.
fn reversed(mg: &Graph) -> (rg: Graph)
    requires
        mg.wf(),
        mg.directed,
    ensures
        rg.wf(),
        rg.directed,
        rg.n == mg.n,
        forall|u: int, v: int, w: int| #[trigger] rg.has_edge(u, v, w) == mg.has_edge(v, u, w),
{
    let mut edges: Vec<(usize, usize, i32)> = Vec::new();
    let mut k: usize = 0;
    while k < mg.edges.len()
        invariant
            mg.wf(),
            k <= mg.edges@.len(),
            edges@.len() == k,
            forall|j: int| 0 <= j < k ==> #[trigger] edges@[j] == (mg.edges@[j].1, mg.edges@[j].0, mg.edges@[j].2),
            weight_sum(edges@) == weight_sum(mg.edges@.take(k as int)),
        decreases mg.edges@.len() - k,
    {
        let (a, b, w) = mg.edges[k];
        let ghost e0 = edges@;
        edges.push((b, a, w));
        proof {
            assert(edges@.drop_last() =~= e0);
            assert(mg.edges@.take(k + 1).drop_last() =~= mg.edges@.take(k as int));
        }
        k += 1;
    }
    let rg = Graph { n: mg.n, directed: true, edges };
    proof {
        assert(mg.edges@.take(mg.edges@.len() as int) =~= mg.edges@);
        assert forall|u: int, v: int, w: int| #[trigger] rg.has_edge(u, v, w) == mg.has_edge(v, u, w) by {
            if rg.has_edge(u, v, w) {
                let j = choose|j: int|
                    0 <= j < rg.edges@.len() && #[trigger] rg.edges@[j].2 == w && ((rg.edges@[j].0 == u && rg.edges@[j].1 == v)
                        || (!rg.directed && rg.edges@[j].0 == v && rg.edges@[j].1 == u));
                assert(mg.edges@[j].2 == w);
            }
            if mg.has_edge(v, u, w) {
                let j = choose|j: int|
                    0 <= j < mg.edges@.len() && #[trigger] mg.edges@[j].2 == w && ((mg.edges@[j].0 == v && mg.edges@[j].1 == u)
                        || (!mg.directed && mg.edges@[j].0 == u && mg.edges@[j].1 == v));
                assert(rg.edges@[j].2 == w);
            }
        }
        assert forall|j: int, j2: int|
            0 <= j < j2 < rg.edges@.len() && #[trigger] rg.key(j) == #[trigger] rg.key(j2) implies rg.edges@[j].2 == rg.edges@[j2].2 by {
            assert(mg.key(j) == mg.key(j2));
        }
        assert forall|j: int| 0 <= j < rg.edges@.len() implies (#[trigger] rg.edges@[j]).0 < rg.n && rg.edges@[j].1 < rg.n && 1 <= rg.edges@[j].2 by {
            assert(mg.edges@[j].0 < mg.n);
        }
    }
    rg
}

/// What Dijkstra's algorithm without a goal gives: for each node, the least cost of a walk
/// to it, when there is a walk.
proof fn lemma_costs_least(mg: &Graph, rel: spec_fn(int, int, int) -> bool, s: usize, costs: Seq<Option<i32>>, v: int)
    requires
        mg.directed,
        forall|u: int, x: int, w: int| #[trigger] mg.has_edge(u, x, w) == rel(u, x, w),
        mg.dijkstra_spec(s, None, costs),
        0 <= v < mg.n,
    ensures
        costs[v] is Some ==> costs[v]->0 >= 0 && least(rel, s as int, v, costs[v]->0 as nat),
        forall|a: nat| #[trigger] least(rel, s as int, v, a) ==> costs[v] == Some(a as i32),
{
    if costs[v] is Some {
        let x = costs[v]->0 as nat;
        lemma_walk_eq(mg, rel, s as int, x);
        assert forall|y: nat| y < x implies !#[trigger] path_walk(rel, s as int, v, y) by {
            lemma_walk_eq(mg, rel, s as int, y);
            if path_walk(rel, s as int, v, y) {
                assert(mg.walk(s as int, v, y));
            }
        }
    }
    assert forall|a: nat| #[trigger] least(rel, s as int, v, a) implies costs[v] == Some(a as i32) by {
        lemma_walk_eq(mg, rel, s as int, a);
        assert(mg.walk(s as int, v, a));
        let x = costs[v]->0 as nat;
        lemma_walk_eq(mg, rel, s as int, x);
        assert(x == a);
    }
}

// ---------------------------------------------------------------------------
// The puzzle

/// `p` holds the first `ch` of the maze, row by row.
pub open spec fn first_at(m: Seq<Seq<char>>, ch: char, p: (int, int)) -> bool {
    &&& 0 <= p.0 < m.len() && 0 <= p.1 < m[p.0].len() && m[p.0][p.1] == ch
    &&& forall|r: int, c: int|
        0 <= r < m.len() && 0 <= c < m[r].len() && (r < p.0 || (r == p.0 && c < p.1)) ==> #[trigger] m[r][c] != ch
}

/// The first tile showing `ch`.
pub open spec fn spot(m: Seq<Seq<char>>, ch: char) -> (int, int) {
    choose|p: (int, int)| first_at(m, ch, p)
}

/// The reindeer starts on 'S', facing east.
pub open spec fn start_node(m: Seq<Seq<char>>) -> int {
    node(mw(m), spot(m, 'S').0, spot(m, 'S').1, 1)
}

/// On 'E', facing `t`.
pub open spec fn goal_node(m: Seq<Seq<char>>, t: int) -> int {
    node(mw(m), spot(m, 'E').0, spot(m, 'E').1, t)
}

/// `c` is the least cost from the start to the end tile, facing any way.
pub open spec fn best_cost(m: Seq<Seq<char>>, c: nat) -> bool {
    &&& exists|t: int| 0 <= t < 4 && #[trigger] path_walk(moves(m), start_node(m), goal_node(m, t), c)
    &&& forall|t: int, y: nat| 0 <= t < 4 && y < c ==> !#[trigger] path_walk(moves(m), start_node(m), goal_node(m, t), y)
}

/// The maze of the input: rectangular, not too large, with a start and an end that some
/// walk joins.
pub open spec fn maze_ok(input: Seq<char>) -> bool {
    let m = parse::lines_of(input);
    &&& array2d::rectangular(m)
    &&& m.len() > 0
    &&& 24000 * m.len() * mw(m) <= i32::MAX
    &&& exists|p: (int, int)| first_at(m, 'S', p)
    &&& exists|p: (int, int)| first_at(m, 'E', p)
    &&& exists|t: int, c: nat| 0 <= t < 4 && #[trigger] path_walk(moves(m), start_node(m), goal_node(m, t), c)
}

proof fn lemma_first_unique(m: Seq<Seq<char>>, ch: char, a: (int, int), b: (int, int))
    requires
        first_at(m, ch, a),
        first_at(m, ch, b),
    ensures
        a == b,
{
    assert(m[a.0][a.1] == ch);
    assert(m[b.0][b.1] == ch);
}

/// The maze, its graph, and where the start and the end are.
fn read_maze(input: &str) -> (r: (Grid<char>, Graph, usize, (usize, usize)))
    requires
        maze_ok(input@),
    ensures
        r.0.rows() == parse::lines_of(input@),
        maze_fits(&r.0),
        r.1.wf(),
        r.1.directed,
        r.1.n == 4 * r.0.height() * r.0.width,
        forall|u: int, v: int, w: int| #[trigger] r.1.has_edge(u, v, w) == step(r.0.rows(), u, v, w),
        r.2 == start_node(r.0.rows()),
        r.2 < r.1.n,
        r.3.0 == spot(r.0.rows(), 'E').0 && r.3.1 == spot(r.0.rows(), 'E').1,
        r.3.0 < r.0.height() && r.3.1 < r.0.width,
{
    let ghost m = parse::lines_of(input@);
    let g = array2d::from_chars(input);
    proof {
        assert(g.cells@[0]@ == m[0]);
        assert forall|r: int, c: int| 0 <= r < g.height() && 0 <= c < g.width implies #[trigger] g.at(r, c) == m[r][c] by {
            assert(g.rows()[r] == g.cells@[r]@);
        }
        assert(24000 * g.height() * g.width <= i32::MAX);
        let p = choose|p: (int, int)| first_at(m, 'S', p);
        assert(m[p.0].len() == m[0].len());
        assert(g.width >= 1);
        assert(g.height() <= 24000 * g.height() * g.width && g.width <= 24000 * g.height() * g.width) by (nonlinear_arith)
            requires
                g.height() >= 1,
                g.width >= 1,
        ;
    }
    let sp = array2d::find_position(&g, 'S');
    let ep = array2d::find_position(&g, 'E');
    proof {
        let p = choose|p: (int, int)| first_at(m, 'S', p);
        let q = choose|p: (int, int)| first_at(m, 'E', p);
        assert(m[p.0].len() == m[0].len());
        assert(m[q.0].len() == m[0].len());
        assert(g.at(p.0, p.1) == 'S');
        assert(g.at(q.0, q.1) == 'E');
    }
    let s = sp.unwrap();
    let e = ep.unwrap();
    proof {
        assert forall|r: int, c: int|
            0 <= r < m.len() && 0 <= c < m[r].len() && (r < s.0 || (r == s.0 && c < s.1)) implies #[trigger] m[r][c] != 'S' by {
            assert(m[r].len() == m[0].len());
            assert(g.at(r, c) == m[r][c]);
        }
        assert forall|r: int, c: int|
            0 <= r < m.len() && 0 <= c < m[r].len() && (r < e.0 || (r == e.0 && c < e.1)) implies #[trigger] m[r][c] != 'E' by {
            assert(m[r].len() == m[0].len());
            assert(g.at(r, c) == m[r][c]);
        }
        assert(first_at(m, 'S', (s.0 as int, s.1 as int)));
        assert(first_at(m, 'E', (e.0 as int, e.1 as int)));
        lemma_first_unique(m, 'S', (s.0 as int, s.1 as int), spot(m, 'S'));
        lemma_first_unique(m, 'E', (e.0 as int, e.1 as int), spot(m, 'E'));
        assert(4 * g.height() * g.width <= 24000 * g.height() * g.width) by (nonlinear_arith)
            requires
                g.height() >= 0,
                g.width >= 0,
        ;
    }
    let mg = get_maze_graph(&g);
    let start = state(g.width, s.0 as usize, s.1 as usize, 1, g.cells.len());
    (g, mg, start, (e.0 as usize, e.1 as usize))
}

/// The least cost of a walk from the start to the end tile.
pub fn part1(input: &str) -> (r: i32)
    requires
        maze_ok(input@),
    ensures
        r >= 0,
        best_cost(parse::lines_of(input@), r as nat),
{
    let ghost m = parse::lines_of(input@);
    let (g, mg, start, e) = read_maze(input);
    let costs = graph::dijkstra_directed(&mg, start);
    let mut best: Option<i32> = None;
    let mut t: usize = 0;
    while t < 4
        invariant
            m == g.rows(),
            maze_fits(&g),
            mg.directed,
            mg.n == 4 * g.height() * g.width,
            forall|u: int, v: int, w: int| #[trigger] mg.has_edge(u, v, w) == step(m, u, v, w),
            mg.dijkstra_spec(start, None, costs@),
            start == start_node(m),
            e.0 == spot(m, 'E').0 && e.1 == spot(m, 'E').1,
            e.0 < g.height() && e.1 < g.width,
            mw(m) == g.width,
            t <= 4,
            match best {
                Some(b) => b >= 0 && (exists|t1: int| 0 <= t1 < t && #[trigger] path_walk(moves(m), start_node(m), goal_node(m, t1), b as nat))
                    && forall|t1: int, y: nat| 0 <= t1 < t && y < b ==> !#[trigger] path_walk(moves(m), start_node(m), goal_node(m, t1), y),
                None => forall|t1: int, y: nat| 0 <= t1 < t ==> !#[trigger] path_walk(moves(m), start_node(m), goal_node(m, t1), y),
            },
        decreases 4 - t,
    {
        let id = state(g.width, e.0, e.1, t, g.cells.len());
        proof {
            lemma_costs_least(&mg, moves(m), start, costs@, id as int);
            assert(id == goal_node(m, t as int));
        }
        match costs[id] {
            Some(x) => {
                let ghost old_best = best;
                if best.is_none() || x < best.unwrap() {
                    best = Some(x);
                }
                proof {
                    assert(least(moves(m), start as int, id as int, x as nat));
                    match best {
                        Some(b) => {
                            assert forall|t1: int, y: nat| 0 <= t1 < t + 1 && y < b implies !#[trigger] path_walk(moves(m), start_node(m), goal_node(m, t1), y) by {
                                if t1 == t {
                                    assert(!path_walk(moves(m), start as int, id as int, y));
                                }
                            }
                        },
                        None => {},
                    }
                }
            },
            None => {
                proof {
                    assert forall|y: nat| !#[trigger] path_walk(moves(m), start_node(m), goal_node(m, t as int), y) by {
                        lemma_walk_eq(&mg, moves(m), start as int, y);
                        if path_walk(moves(m), start_node(m), goal_node(m, t as int), y) {
                            assert(mg.walk(start as int, id as int, y));
                        }
                    }
                }
            },
        }
        t += 1;
    }
    match best {
        Some(b) => b,
        None => {
            proof {
                let (t1, c) = choose|t: int, c: nat| 0 <= t < 4 && #[trigger] path_walk(moves(m), start_node(m), goal_node(m, t), c);
                assert(!path_walk(moves(m), start_node(m), goal_node(m, t1), c));
            }
            0
        },
    }
}

/// The least cost from the start to the end tile.
pub open spec fn min_cost(m: Seq<Seq<char>>) -> nat {
    choose|c: nat| best_cost(m, c)
}

/// The direction the end is first reached in at least cost, in the order north, east,
/// south, west.
pub open spec fn goal_dir(m: Seq<Seq<char>>) -> int {
    if path_walk(moves(m), start_node(m), goal_node(m, 0), min_cost(m)) {
        0
    } else if path_walk(moves(m), start_node(m), goal_node(m, 1), min_cost(m)) {
        1
    } else if path_walk(moves(m), start_node(m), goal_node(m, 2), min_cost(m)) {
        2
    } else {
        3
    }
}

/// The state `v` lies on a cheapest walk from the start to the end: the least cost to reach
/// it and the least cost from it to the end add up to the least cost overall.
pub open spec fn on_best(m: Seq<Seq<char>>, v: int) -> bool {
    exists|a: nat, b: nat|
        #[trigger] least(moves(m), start_node(m), v, a) && #[trigger] least(
            back_moves(m),
            goal_node(m, goal_dir(m)),
            v,
            b,
        ) && a + b == min_cost(m)
}

/// The tile at (`r`, `c`) lies on a cheapest walk, facing some way.
pub open spec fn tile_on_best(m: Seq<Seq<char>>, r: int, c: int) -> bool {
    exists|t: int| 0 <= t < 4 && #[trigger] on_best(m, node(mw(m), r, c, t))
}

/// Number of tiles of row `r`, left of column `c`, on a cheapest walk.
pub open spec fn row_best(m: Seq<Seq<char>>, r: int, c: int) -> nat
    decreases c,
{
    if c <= 0 {
        0
    } else {
        row_best(m, r, c - 1) + if tile_on_best(m, r, c - 1) { 1nat } else { 0 }
    }
}

/// Number of tiles of the rows above `r` on a cheapest walk.
pub open spec fn rows_best(m: Seq<Seq<char>>, r: int) -> nat
    decreases r,
{
    if r <= 0 {
        0
    } else {
        rows_best(m, r - 1) + row_best(m, r - 1, mw(m))
    }
}

proof fn lemma_best_unique(m: Seq<Seq<char>>, a: nat, b: nat)
    requires
        best_cost(m, a),
        best_cost(m, b),
    ensures
        a == b,
{
    let ta = choose|t: int| 0 <= t < 4 && #[trigger] path_walk(moves(m), start_node(m), goal_node(m, t), a);
    let tb = choose|t: int| 0 <= t < 4 && #[trigger] path_walk(moves(m), start_node(m), goal_node(m, t), b);
    if a < b {
        assert(!path_walk(moves(m), start_node(m), goal_node(m, ta), a));
    } else if b < a {
        assert(!path_walk(moves(m), start_node(m), goal_node(m, tb), b));
    }
}

proof fn lemma_row_best_le(m: Seq<Seq<char>>, r: int, c: int)
    requires
        c >= 0,
    ensures
        row_best(m, r, c) <= c,
    decreases c,
{
    if c > 0 {
        lemma_row_best_le(m, r, c - 1);
    }
}

/// Number of tiles on some cheapest walk from the start to the end: tiles where the
/// reindeer, facing some way, has spent the least cost to get there and has the least
/// cost left to reach the end (the end as first reached at least cost).
pub fn part2(input: &str) -> (r: usize)
    requires
        maze_ok(input@),
    ensures
        r == rows_best(parse::lines_of(input@), parse::lines_of(input@).len() as int),
{
    let ghost m = parse::lines_of(input@);
    let (g, mg, start, e) = read_maze(input);
    let costs = graph::dijkstra_directed(&mg, start);
    // The cheapest goal, the first in the order of directions.
    let mut goal: usize = 0;
    let mut best: Option<i32> = None;
    let mut t: usize = 0;
    while t < 4
        invariant
            m == g.rows(),
            maze_fits(&g),
            mg.directed,
            mg.n == 4 * g.height() * g.width,
            forall|u: int, v: int, w: int| #[trigger] mg.has_edge(u, v, w) == step(m, u, v, w),
            mg.dijkstra_spec(start, None, costs@),
            start == start_node(m),
            e.0 == spot(m, 'E').0 && e.1 == spot(m, 'E').1,
            e.0 < g.height() && e.1 < g.width,
            mw(m) == g.width,
            t <= 4,
            goal < 4,
            match best {
                Some(b) => b >= 0 && goal < t && path_walk(moves(m), start_node(m), goal_node(m, goal as int), b as nat)
                    && (forall|t1: int, y: nat| 0 <= t1 < t && y < b ==> !#[trigger] path_walk(moves(m), start_node(m), goal_node(m, t1), y))
                    && (forall|t1: int| 0 <= t1 < goal ==> !#[trigger] path_walk(moves(m), start_node(m), goal_node(m, t1), b as nat)),
                None => forall|t1: int, y: nat| 0 <= t1 < t ==> !#[trigger] path_walk(moves(m), start_node(m), goal_node(m, t1), y),
            },
        decreases 4 - t,
    {
        let id = state(g.width, e.0, e.1, t, g.cells.len());
        proof {
            lemma_costs_least(&mg, moves(m), start, costs@, id as int);
            assert(id == goal_node(m, t as int));
        }
        match costs[id] {
            Some(x) => {
                proof {
                    assert(least(moves(m), start as int, id as int, x as nat));
                }
                if best.is_none() || x < best.unwrap() {
                    best = Some(x);
                    goal = t;
                } else {
                    proof {
                        let b = best.unwrap();
                        assert forall|t1: int, y: nat| 0 <= t1 < t + 1 && y < b implies !#[trigger] path_walk(moves(m), start_node(m), goal_node(m, t1), y) by {
                            if t1 == t {
                                assert(!path_walk(moves(m), start as int, id as int, y));
                            }
                        }
                    }
                }
            },
            None => {
                proof {
                    assert forall|y: nat| !#[trigger] path_walk(moves(m), start_node(m), goal_node(m, t as int), y) by {
                        lemma_walk_eq(&mg, moves(m), start as int, y);
                        if path_walk(moves(m), start_node(m), goal_node(m, t as int), y) {
                            assert(mg.walk(start as int, id as int, y));
                        }
                    }
                }
            },
        }
        t += 1;
    }
    let min = match best {
        Some(b) => b,
        None => {
            proof {
                let (t1, c) = choose|t: int, c: nat| 0 <= t < 4 && #[trigger] path_walk(moves(m), start_node(m), goal_node(m, t), c);
                assert(!path_walk(moves(m), start_node(m), goal_node(m, t1), c));
            }
            return 0;
        },
    };
    proof {
        assert(best_cost(m, min as nat));
        lemma_best_unique(m, min as nat, min_cost(m));
        assert(goal_dir(m) == goal as int);
    }
    let goal_id = state(g.width, e.0, e.1, goal, g.cells.len());
    let rg = reversed(&mg);
    let rcosts = graph::dijkstra_directed(&rg, goal_id);
    proof {
        assert forall|u: int, v: int, w: int| #[trigger] rg.has_edge(u, v, w) == back_moves(m)(u, v, w) by {
            assert(mg.has_edge(v, u, w) == step(m, v, u, w));
        }
    }
    // Count the tiles on a cheapest walk.
    let h = g.cells.len();
    let wd = g.width;
    let mut count: usize = 0;
    let mut r: usize = 0;
    while r < h
        invariant
            m == g.rows(),
            maze_fits(&g),
            h == g.height(),
            wd == g.width,
            mw(m) == wd,
            mg.directed,
            rg.directed,
            mg.n == 4 * h * wd,
            rg.n == mg.n,
            forall|u: int, v: int, w: int| #[trigger] mg.has_edge(u, v, w) == moves(m)(u, v, w),
            forall|u: int, v: int, w: int| #[trigger] rg.has_edge(u, v, w) == back_moves(m)(u, v, w),
            mg.dijkstra_spec(start, None, costs@),
            rg.dijkstra_spec(goal_id, None, rcosts@),
            start == start_node(m),
            goal_id == goal_node(m, goal_dir(m)),
            min >= 0,
            min as nat == min_cost(m),
            r <= h,
            count == rows_best(m, r as int),
            count <= r * wd,
        decreases h - r,
    {
        let mut c: usize = 0;
        let mut rc: usize = 0;
        while c < wd
            invariant
                m == g.rows(),
                maze_fits(&g),
                h == g.height(),
                wd == g.width,
                mw(m) == wd,
                mg.directed,
                rg.directed,
                mg.n == 4 * h * wd,
                rg.n == mg.n,
                forall|u: int, v: int, w: int| #[trigger] mg.has_edge(u, v, w) == moves(m)(u, v, w),
                forall|u: int, v: int, w: int| #[trigger] rg.has_edge(u, v, w) == back_moves(m)(u, v, w),
                mg.dijkstra_spec(start, None, costs@),
                rg.dijkstra_spec(goal_id, None, rcosts@),
                start == start_node(m),
                goal_id == goal_node(m, goal_dir(m)),
                min >= 0,
            min as nat == min_cost(m),
                r < h,
                c <= wd,
                rc == row_best(m, r as int, c as int),
                rc <= c,
            decreases wd - c,
        {
            let mut hit = false;
            let mut t: usize = 0;
            while t < 4
                invariant
                    m == g.rows(),
                    maze_fits(&g),
                    h == g.height(),
                    wd == g.width,
                    mw(m) == wd,
                    mg.directed,
                    rg.directed,
                    mg.n == 4 * h * wd,
                    rg.n == mg.n,
                    forall|u: int, v: int, w: int| #[trigger] mg.has_edge(u, v, w) == moves(m)(u, v, w),
                    forall|u: int, v: int, w: int| #[trigger] rg.has_edge(u, v, w) == back_moves(m)(u, v, w),
                    mg.dijkstra_spec(start, None, costs@),
                    rg.dijkstra_spec(goal_id, None, rcosts@),
                    start == start_node(m),
                    goal_id == goal_node(m, goal_dir(m)),
                    min >= 0,
            min as nat == min_cost(m),
                    r < h,
                    c < wd,
                    t <= 4,
                    hit <==> exists|t1: int| 0 <= t1 < t && #[trigger] on_best(m, node(mw(m), r as int, c as int, t1)),
                decreases 4 - t,
            {
                let id = state(wd, r, c, t, h);
                proof {
                    lemma_costs_least(&mg, moves(m), start, costs@, id as int);
                    lemma_costs_least(&rg, back_moves(m), goal_id, rcosts@, id as int);
                }
                if let Some(a) = costs[id] {
                    if let Some(b) = rcosts[id] {
                        if (a as i64) + (b as i64) == min as i64 {
                            hit = true;
                            proof {
                                assert(least(moves(m), start_node(m), id as int, a as nat));
                                assert(least(back_moves(m), goal_node(m, goal_dir(m)), id as int, b as nat));
                                assert(on_best(m, node(mw(m), r as int, c as int, t as int)));
                            }
                        }
                    }
                }
                proof {
                    if on_best(m, id as int) {
                        let (a, b) = choose|a: nat, b: nat|
                            #[trigger] least(moves(m), start_node(m), id as int, a) && #[trigger] least(
                                back_moves(m),
                                goal_node(m, goal_dir(m)),
                                id as int,
                                b,
                            ) && a + b == min_cost(m);
                        assert(costs@[id as int] == Some(a as i32));
                        assert(rcosts@[id as int] == Some(b as i32));
                        let x = costs@[id as int]->0;
                        let y = rcosts@[id as int]->0;
                        assert(least(moves(m), start as int, id as int, x as nat));
                        assert(least(back_moves(m), goal_id as int, id as int, y as nat));
                        if (x as nat) < a {
                            assert(!path_walk(moves(m), start as int, id as int, x as nat));
                        }
                        if a < (x as nat) {
                            assert(!path_walk(moves(m), start as int, id as int, a));
                        }
                        if (y as nat) < b {
                            assert(!path_walk(back_moves(m), goal_id as int, id as int, y as nat));
                        }
                        if b < (y as nat) {
                            assert(!path_walk(back_moves(m), goal_id as int, id as int, b));
                        }
                        assert(x as int + y as int == min as int);
                        assert(hit);
                    }
                }
                t += 1;
            }
            if hit {
                rc += 1;
            }
            proof {
                assert(tile_on_best(m, r as int, c as int) == hit);
            }
            c += 1;
        }
        proof {
            assert(count + rc <= (r + 1) * wd) by (nonlinear_arith)
                requires
                    count <= r * wd,
                    rc <= wd,
            ;
            assert((r + 1) * wd <= h * wd) by (nonlinear_arith)
                requires
                    r < h,
                    wd >= 0,
            ;
            assert(h * wd <= 24000 * h * wd) by (nonlinear_arith)
                requires
                    h >= 0,
                    wd >= 0,
            ;
        }
        count += rc;
        r += 1;
    }
    count
}

} // verus!
