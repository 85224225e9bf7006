use crate::lgl::data::array2d::Grid;
use petgraph::graphmap::{DiGraphMap, UnGraphMap};
use vstd::prelude::*;

verus! {

/// A graph on the nodes `0..n`, with weighted edges, directed or not.
pub struct Graph {
    pub n: usize,
    pub directed: bool,
    pub edges: Vec<(usize, usize, i32)>,
}

/// Sum of the weights of `edges`.
pub open spec fn weight_sum(edges: Seq<(usize, usize, i32)>) -> int
    decreases edges.len(),
{
    if edges.len() == 0 {
        0
    } else {
        weight_sum(edges.drop_last()) + edges.last().2
    }
}

impl Graph {
    /// The key of edge `k` in the graph: its ends, ordered when the graph is undirected.
    pub open spec fn key(&self, k: int) -> (usize, usize) {
        let e = self.edges@[k];
        if self.directed || e.0 <= e.1 {
            (e.0, e.1)
        } else {
            (e.1, e.0)
        }
    }

    /// Nodes in range, weights at least one, an edge given twice has the same weight each
    /// time, and all weights together far from the `i32` limit.
    pub open spec fn wf(&self) -> bool {
        &&& forall|k: int|
            0 <= k < self.edges@.len() ==> (#[trigger] self.edges@[k]).0 < self.n && self.edges@[k].1
                < self.n && 1 <= self.edges@[k].2
        &&& forall|k: int, k2: int|
            0 <= k < k2 < self.edges@.len() && #[trigger] self.key(k) == #[trigger] self.key(k2)
                ==> self.edges@[k].2 == self.edges@[k2].2
        &&& 2 * weight_sum(self.edges@) <= i32::MAX
    }

    /// An edge from `u` to `v` of weight `w` (either way when undirected).
    pub open spec fn has_edge(&self, u: int, v: int, w: int) -> bool {
        exists|k: int|
            0 <= k < self.edges@.len() && #[trigger] self.edges@[k].2 == w && ((self.edges@[k].0 == u
                && self.edges@[k].1 == v) || (!self.directed && self.edges@[k].0 == v
                && self.edges@[k].1 == u))
    }

    /// A walk from `s` to `v` of total weight `c`.
    pub open spec fn walk(&self, s: int, v: int, c: nat) -> bool
        decreases c,
    {
        if c == 0 {
            v == s
        } else {
            exists|u: int, w: int|
                1 <= w <= c && #[trigger] self.has_edge(u, v, w) && self.walk(s, u, (c - w) as nat)
        }
    }

    /// `c` is the least weight of a walk from `s` to `v`.
    pub open spec fn dist_is(&self, s: int, v: int, c: nat) -> bool {
        self.walk(s, v, c) && forall|y: nat| y < c ==> !#[trigger] self.walk(s, v, y)
    }

    /// What Dijkstra's algorithm from `start` gives: every cost found is the weight of a
    /// walk; every node reachable more cheaply than the goal's cost (every reachable node
    /// when there is no goal, or the goal is not reached) gets a cost at most that of each
    /// of its walks; and the goal, when reachable, gets its least cost.
    pub open spec fn dijkstra_spec(
        &self,
        start: usize,
        goal: Option<usize>,
        costs: Seq<Option<i32>>,
    ) -> bool {
        &&& costs.len() == self.n
        &&& forall|v: int|
            0 <= v < self.n && (#[trigger] costs[v]) is Some ==> costs[v]->0 >= 0 && self.walk(
                start as int,
                v,
                costs[v]->0 as nat,
            )
        &&& forall|v: int, y: nat|
            0 <= v < self.n && #[trigger] self.walk(start as int, v, y) && !(goal is Some
                && costs[goal->0 as int] is Some && y >= costs[goal->0 as int]->0) ==> costs[v] is Some
                && costs[v]->0 <= y
        &&& forall|y: nat|
            goal is Some && #[trigger] self.walk(start as int, goal->0 as int, y) ==> costs[goal->0 as int] is Some
                && costs[goal->0 as int]->0 <= y
    }
}

/// Dijkstra's algorithm of petgraph on the undirected graph `g` (an `UnGraphMap` built from
/// its edges), from `start`, stopping once `goal` is reached; the costs found, by node.
/// Trusted: that petgraph's `dijkstra` computes least walk weights as `dijkstra_spec` says,
/// and that it does not overflow when twice the sum of the weights fits in an `i32`.
#[verifier::external_body]
pub fn dijkstra_undirected(g: &Graph, start: usize, goal: Option<usize>) -> (costs: Vec<Option<i32>>)
    requires
        g.wf(),
        !g.directed,
        start < g.n,
        goal matches Some(t) ==> t < g.n,
    ensures
        g.dijkstra_spec(start, goal, costs@),
{
    let gm: UnGraphMap<usize, i32> = UnGraphMap::from_edges(g.edges.iter().copied());
    let scores = petgraph::algo::dijkstra(&gm, start, goal, |e| *e.2);
    let mut costs = vec![None; g.n];
    for (v, c) in scores {
        costs[v] = Some(c);
    }
    costs
}

/// Dijkstra's algorithm of petgraph on the directed graph `g` (a `DiGraphMap` built from its
/// edges), from `start`, with no goal; the costs found, by node.
/// Trusted: that petgraph's `dijkstra` computes least walk weights as `dijkstra_spec` says,
/// and that it does not overflow when twice the sum of the weights fits in an `i32`.
#[verifier::external_body]
pub fn dijkstra_directed(g: &Graph, start: usize) -> (costs: Vec<Option<i32>>)
    requires
        g.wf(),
        g.directed,
        start < g.n,
    ensures
        g.dijkstra_spec(start, None, costs@),
{
    let gm: DiGraphMap<usize, i32> = DiGraphMap::from_edges(g.edges.iter().copied());
    let scores = petgraph::algo::dijkstra(&gm, start, None, |e| *e.2);
    let mut costs = vec![None; g.n];
    for (v, c) in scores {
        costs[v] = Some(c);
    }
    costs
}

/// Edge `k` leads into `v`: `v` is its target, or either end when the graph is undirected.
pub open spec fn edge_into(g: &Graph, k: int, v: int) -> bool {
    g.edges@[k].1 == v || (!g.directed && g.edges@[k].0 == v)
}

/// The other end of edge `k`, seen from its end `v`.
pub open spec fn other_end(g: &Graph, k: int, v: int) -> int {
    if g.edges@[k].1 == v {
        g.edges@[k].0 as int
    } else {
        g.edges@[k].1 as int
    }
}

/// For each node, the indices of the edges that lead into it, in order.
pub fn in_edges(g: &Graph) -> (inn: Vec<Vec<usize>>)
    requires
        g.wf(),
    ensures
        inn@.len() == g.n,
        forall|v: int, j: int|
            0 <= v < g.n && 0 <= j < inn@[v]@.len() ==> #[trigger] inn@[v]@[j] < g.edges@.len()
                && edge_into(g, inn@[v]@[j] as int, v),
        forall|k: int, v: int|
            0 <= k < g.edges@.len() && 0 <= v < g.n && #[trigger] edge_into(g, k, v) ==> inn@[v]@.contains(
                k as usize,
            ),
{
    let mut inn: Vec<Vec<usize>> = Vec::new();
    let mut i: usize = 0;
    while i < g.n
        invariant
            i <= g.n,
            inn@.len() == i,
            forall|v: int| 0 <= v < i ==> (#[trigger] inn@[v])@.len() == 0,
        decreases g.n - i,
    {
        inn.push(Vec::new());
        i += 1;
    }
    let mut k: usize = 0;
    while k < g.edges.len()
        invariant
            g.wf(),
            inn@.len() == g.n,
            k <= g.edges@.len(),
            forall|v: int, j: int|
                0 <= v < g.n && 0 <= j < inn@[v]@.len() ==> #[trigger] inn@[v]@[j] < k && edge_into(
                    g,
                    inn@[v]@[j] as int,
                    v,
                ),
            forall|k2: int, v: int|
                0 <= k2 < k && 0 <= v < g.n && #[trigger] edge_into(g, k2, v) ==> inn@[v]@.contains(
                    k2 as usize,
                ),
        decreases g.edges@.len() - k,
    {
        let (a, b, _w) = g.edges[k];
        let ghost old_inn = inn@;
        let mut row = inn[b].clone();
        row.push(k);
        inn.set(b, row);
        let ghost mid_inn = inn@;
        if !g.directed && a != b {
            let mut row = inn[a].clone();
            row.push(k);
            inn.set(a, row);
        }
        proof {
            assert forall|v: int, j: int|
                0 <= v < g.n && 0 <= j < inn@[v]@.len() implies #[trigger] inn@[v]@[j] < k + 1
                && edge_into(g, inn@[v]@[j] as int, v) by {
                if v == b {
                    if j < old_inn[v]@.len() {
                        assert(inn@[v]@[j] == old_inn[v]@[j]);
                    } else {
                        assert(inn@[v]@[j] == k);
                    }
                } else if !g.directed && v == a {
                    if j < old_inn[v]@.len() {
                        assert(inn@[v]@[j] == old_inn[v]@[j]);
                    } else {
                        assert(inn@[v]@[j] == k);
                    }
                } else {
                    assert(inn@[v]@[j] == old_inn[v]@[j]);
                }
            }
            assert forall|k2: int, v: int|
                0 <= k2 < k + 1 && 0 <= v < g.n && #[trigger] edge_into(g, k2, v) implies inn@[v]@.contains(
                k2 as usize,
            ) by {
                if k2 < k {
                    assert(old_inn[v]@.contains(k2 as usize));
                    let jj = choose|jj: int| 0 <= jj < old_inn[v]@.len() && old_inn[v]@[jj] == k2 as usize;
                    assert(inn@[v]@[jj] == k2 as usize);
                } else {
                    assert(inn@[v]@[old_inn[v]@.len() as int] == k);
                }
            }
        }
        k += 1;
    }
    inn
}

/// `u` comes just before `v` on a shortest path on the costs: an edge of weight `w` leads
/// from `u` into `v`, and the cost of `u` plus `w` is the cost of `v`.
pub open spec fn back_step(g: &Graph, costs: Seq<Option<i32>>, u: int, v: int) -> bool {
    exists|w: int|
        #[trigger] g.has_edge(u, v, w) && 0 <= u < costs.len() && 0 <= v < costs.len() && costs[u] is Some
            && costs[v] is Some && costs[u]->0 + w == costs[v]->0
}

/// A walk along the nodes of `p`, in order, of total weight `c`.
pub open spec fn path_walk(g: &Graph, p: Seq<usize>, c: int) -> bool
    decreases p.len(),
{
    if p.len() <= 1 {
        c == 0
    } else {
        exists|w: int|
            #[trigger] g.has_edge(p[p.len() - 2] as int, p[p.len() - 1] as int, w) && path_walk(
                g,
                p.drop_last(),
                c - w,
            )
    }
}

/// `path` ends at `goal`, each node comes just before the next on a shortest path, and no
/// node comes that way before its first node.
pub open spec fn back_path(g: &Graph, costs: Seq<Option<i32>>, path: Seq<usize>, goal: int) -> bool {
    &&& path.len() >= 1
    &&& path.last() == goal
    &&& forall|i: int| 0 <= i < path.len() ==> #[trigger] path[i] < g.n && costs[path[i] as int] is Some
    &&& forall|i: int|
        0 <= i < path.len() - 1 ==> back_step(g, costs, #[trigger] path[i] as int, path[i + 1] as int)
    &&& forall|u: int| !#[trigger] back_step(g, costs, u, path[0] as int)
}

/// Steps of `back_step` along a path add up to a walk of the difference of the end costs.
proof fn lemma_back_path_walk(g: &Graph, costs: Seq<Option<i32>>, p: Seq<usize>)
    requires
        g.wf(),
        p.len() >= 1,
        forall|i: int| 0 <= i < p.len() ==> #[trigger] p[i] < costs.len() && costs[p[i] as int] is Some,
        forall|i: int| 0 <= i < p.len() - 1 ==> back_step(g, costs, #[trigger] p[i] as int, p[i + 1] as int),
    ensures
        path_walk(g, p, costs[p.last() as int]->0 - costs[p[0] as int]->0),
        costs[p[0] as int]->0 <= costs[p.last() as int]->0,
    decreases p.len(),
{
    if p.len() > 1 {
        let q = p.drop_last();
        assert forall|i: int| 0 <= i < q.len() - 1 implies back_step(g, costs, #[trigger] q[i] as int, q[i + 1] as int) by {
            assert(q[i] == p[i] && q[i + 1] == p[i + 1]);
            assert(back_step(g, costs, p[i] as int, p[i + 1] as int));
        }
        lemma_back_path_walk(g, costs, q);
        let l = p.len() - 1;
        assert(back_step(g, costs, p[l - 1] as int, p[l] as int));
        let w = choose|w: int|
            #[trigger] g.has_edge(p[l - 1] as int, p[l] as int, w) && 0 <= p[l - 1] < costs.len() && 0 <= p[l]
                < costs.len() && costs[p[l - 1] as int] is Some && costs[p[l] as int] is Some
                && costs[p[l - 1] as int]->0 + w == costs[p[l] as int]->0;
        let k = choose|k: int|
            0 <= k < g.edges@.len() && #[trigger] g.edges@[k].2 == w && ((g.edges@[k].0 == p[l - 1] as int
                && g.edges@[k].1 == p[l] as int) || (!g.directed && g.edges@[k].0 == p[l] as int
                && g.edges@[k].1 == p[l - 1] as int));
        assert(w >= 1);
        assert(q.last() == p[l - 1]);
        assert(q[0] == p[0]);
        assert(p.drop_last() == q);
        assert(p[p.len() - 2] == p[l - 1] && p[p.len() - 1] == p[l]);
        let c = costs[p.last() as int]->0 - costs[p[0] as int]->0;
        assert(c - w == costs[q.last() as int]->0 - costs[q[0] as int]->0);
        assert(g.has_edge(p[p.len() - 2] as int, p[p.len() - 1] as int, w) && path_walk(g, p.drop_last(), c - w));
    }
}

/// A path of least cost from the node of cost 0 to `goal`, walked back from `goal`: from each
/// node, go to a node with an edge into it whose cost plus the edge's weight is the node's
/// cost, until there is none. Empty when the goal has no cost.
pub fn shortest_path(g: &Graph, costs: &Vec<Option<i32>>, goal: usize) -> (path: Vec<usize>)
    requires
        g.wf(),
        costs@.len() == g.n,
        goal < g.n,
    ensures
        costs@[goal as int] is None ==> path@.len() == 0,
        costs@[goal as int] is Some ==> back_path(g, costs@, path@, goal as int),
        costs@[goal as int] is Some ==> path_walk(
            g,
            path@,
            costs@[goal as int]->0 - costs@[path@[0] as int]->0,
        ),
{
    let inn = in_edges(g);
    let c = match costs[goal] {
        None => {
            return Vec::new();
        },
        Some(c) => c,
    };
    let mut rev: Vec<usize> = vec![goal];
    let mut cur = goal;
    let mut cur_cost = c;
    loop
        invariant
            g.wf(),
            costs@.len() == g.n,
            inn@.len() == g.n,
            forall|v: int, j: int|
                0 <= v < g.n && 0 <= j < inn@[v]@.len() ==> #[trigger] inn@[v]@[j] < g.edges@.len()
                    && edge_into(g, inn@[v]@[j] as int, v),
            forall|k: int, v: int|
                0 <= k < g.edges@.len() && 0 <= v < g.n && #[trigger] edge_into(g, k, v) ==> inn@[v]@.contains(
                    k as usize,
                ),
            rev@.len() >= 1,
            rev@[0] == goal,
            rev@.last() == cur,
            cur < g.n,
            costs@[cur as int] == Some(cur_cost),
            forall|i: int| 0 <= i < rev@.len() ==> #[trigger] rev@[i] < g.n && costs@[rev@[i] as int] is Some,
            forall|i: int|
                0 <= i < rev@.len() - 1 ==> back_step(g, costs@, rev@[i + 1] as int, #[trigger] rev@[i] as int),
        ensures
            rev@.len() >= 1,
            rev@[0] == goal,
            forall|i: int| 0 <= i < rev@.len() ==> #[trigger] rev@[i] < g.n && costs@[rev@[i] as int] is Some,
            forall|i: int|
                0 <= i < rev@.len() - 1 ==> back_step(g, costs@, rev@[i + 1] as int, #[trigger] rev@[i] as int),
            forall|u: int| !#[trigger] back_step(g, costs@, u, rev@.last() as int),
        decreases cur_cost as int - i32::MIN as int,
    {
        let row = &inn[cur];
        let mut found: Option<(usize, i32)> = None;
        let mut j: usize = 0;
        while j < row.len()
            invariant
                g.wf(),
                costs@.len() == g.n,
                cur < g.n,
                costs@[cur as int] == Some(cur_cost),
                row@ == inn@[cur as int]@,
                forall|jj: int|
                    0 <= jj < row@.len() ==> #[trigger] row@[jj] < g.edges@.len() && edge_into(
                        g,
                        row@[jj] as int,
                        cur as int,
                    ),
                j <= row@.len(),
                found is None ==> forall|jj: int|
                    0 <= jj < j ==> !(costs@[other_end(g, #[trigger] row@[jj] as int, cur as int)] is Some
                        && costs@[other_end(g, row@[jj] as int, cur as int)]->0 + g.edges@[row@[jj] as int].2
                        == cur_cost),
                found matches Some(b) ==> back_step(g, costs@, b.0 as int, cur as int) && costs@[b.0 as int]
                    == Some(b.1) && b.0 < g.n,
            decreases row@.len() - j,
        {
            let k = row[j];
            let (a, b, w) = g.edges[k];
            let u = if b == cur {
                a
            } else {
                b
            };
            assert(u == other_end(g, k as int, cur as int));
            if found.is_none() {
                if let Some(x) = costs[u] {
                    if x as i64 + w as i64 == cur_cost as i64 {
                        assert(g.has_edge(u as int, cur as int, w as int));
                        found = Some((u, x));
                    }
                }
            }
            j += 1;
        }
        match found {
            Some((u, x)) => {
                proof {
                    let w = choose|w: int|
                        #[trigger] g.has_edge(u as int, cur as int, w) && 0 <= u < costs@.len() && 0 <= cur
                            < costs@.len() && costs@[u as int] is Some && costs@[cur as int] is Some
                            && costs@[u as int]->0 + w == costs@[cur as int]->0;
                    let k = choose|k: int|
                        0 <= k < g.edges@.len() && #[trigger] g.edges@[k].2 == w && ((g.edges@[k].0
                            == u as int && g.edges@[k].1 == cur as int) || (!g.directed
                            && g.edges@[k].0 == cur as int && g.edges@[k].1 == u as int));
                    assert(w >= 1);
                }
                let ghost old_rev = rev@;
                rev.push(u);
                proof {
                    assert forall|i: int| 0 <= i < rev@.len() - 1 implies back_step(
                        g,
                        costs@,
                        rev@[i + 1] as int,
                        #[trigger] rev@[i] as int,
                    ) by {
                        if i < old_rev.len() - 1 {
                            assert(rev@[i] == old_rev[i] && rev@[i + 1] == old_rev[i + 1]);
                        } else {
                            assert(rev@[i] == cur && rev@[i + 1] == u);
                        }
                    }
                    assert forall|i: int| 0 <= i < rev@.len() implies #[trigger] rev@[i] < g.n
                        && costs@[rev@[i] as int] is Some by {
                        if i < old_rev.len() {
                            assert(rev@[i] == old_rev[i]);
                        }
                    }
                }
                cur = u;
                cur_cost = x;
            },
            None => {
                proof {
                    assert forall|u2: int| !#[trigger] back_step(g, costs@, u2, cur as int) by {
                        if back_step(g, costs@, u2, cur as int) {
                            let w = choose|w: int|
                                #[trigger] g.has_edge(u2, cur as int, w) && 0 <= u2 < costs@.len() && 0
                                    <= cur < costs@.len() && costs@[u2] is Some && costs@[cur as int] is Some
                                    && costs@[u2]->0 + w == costs@[cur as int]->0;
                            let k = choose|k: int|
                                0 <= k < g.edges@.len() && #[trigger] g.edges@[k].2 == w && ((g.edges@[k].0
                                    == u2 && g.edges@[k].1 == cur as int) || (!g.directed
                                    && g.edges@[k].0 == cur as int && g.edges@[k].1 == u2));
                            assert(edge_into(g, k, cur as int));
                            assert(k < g.edges.len());
                            assert(k as usize as int == k);
                            assert(other_end(g, k, cur as int) == u2);
                            assert(inn@[cur as int]@.contains(k as usize));
                            assert(row@.contains(k as usize));
                            let jj = choose|jj: int| 0 <= jj < row@.len() && row@[jj] == k as usize;
                            assert(0 <= jj < j);
                            assert(other_end(g, row@[jj] as int, cur as int) == u2);
                            assert(g.edges@[row@[jj] as int].2 == w);
                            assert(!(costs@[other_end(g, row@[jj] as int, cur as int)] is Some
                                && costs@[other_end(g, row@[jj] as int, cur as int)]->0
                                + g.edges@[row@[jj] as int].2 == cur_cost));
                        }
                    }
                }
                break;
            },
        }
    }
    let mut path: Vec<usize> = Vec::new();
    let mut i: usize = rev.len();
    while i > 0
        invariant
            i <= rev@.len(),
            path@.len() == rev@.len() - i,
            forall|t: int| 0 <= t < path@.len() ==> #[trigger] path@[t] == rev@[rev@.len() - 1 - t],
        decreases i,
    {
        i -= 1;
        path.push(rev[i]);
    }
    proof {
        let n = rev@.len();
        assert forall|t: int| 0 <= t < n - 1 implies back_step(
            g,
            costs@,
            #[trigger] path@[t] as int,
            path@[t + 1] as int,
        ) by {
            assert(path@[t] == rev@[n - 1 - t] && path@[t + 1] == rev@[n - 1 - (t + 1)]);
            assert(back_step(g, costs@, rev@[n - 1 - t] as int, rev@[n - 2 - t] as int));
        }
        assert forall|t: int| 0 <= t < n implies #[trigger] path@[t] < g.n && costs@[path@[t] as int] is Some by {
            assert(path@[t] == rev@[n - 1 - t]);
        }
        assert(path@[0] == rev@[n - 1]);
        assert(path@.last() == rev@[0]);
        lemma_back_path_walk(g, costs@, path@);
    }
    path
}

impl Graph {
    /// Every edge has weight one.
    pub open spec fn unit(&self) -> bool {
        forall|k: int| 0 <= k < self.edges@.len() ==> (#[trigger] self.edges@[k]).2 == 1
    }
}

/// One more edge at the end of a walk.
pub proof fn lemma_walk_extend(g: &Graph, s: int, u: int, v: int, w: int, c: nat)
    requires
        g.walk(s, u, c),
        g.has_edge(u, v, w),
        w >= 1,
    ensures
        g.walk(s, v, c + w as nat),
{
    assert(g.has_edge(u, v, w));
}

/// In a graph of unit weights, a walk of weight `x > 0` to `v` comes through a node with an
/// edge into `v` and a walk of weight `x - 1`.
pub proof fn lemma_walk_last(g: &Graph, s: int, v: int, x: nat) -> (u: int)
    requires
        g.unit(),
        g.walk(s, v, x),
        x > 0,
    ensures
        g.has_edge(u, v, 1),
        g.walk(s, u, (x - 1) as nat),
{
    let (u, w) = choose|u: int, w: int|
        1 <= w <= x && #[trigger] g.has_edge(u, v, w) && g.walk(s, u, (x - w) as nat);
    let k = choose|k: int|
        0 <= k < g.edges@.len() && #[trigger] g.edges@[k].2 == w && ((g.edges@[k].0 == u
            && g.edges@[k].1 == v) || (!g.directed && g.edges@[k].0 == v && g.edges@[k].1 == u));
    assert(g.edges@[k].2 == 1);
    u
}

/// Walking back from a goal on the costs that Dijkstra's algorithm gives reaches the start,
/// and the path walked is a shortest one: its weight is the goal's cost, the least weight of
/// a walk from the start to the goal.
pub proof fn lemma_back_path_shortest(
    g: &Graph,
    start: usize,
    goal: Option<usize>,
    costs: Seq<Option<i32>>,
    path: Seq<usize>,
    t: usize,
)
    requires
        g.wf(),
        g.dijkstra_spec(start, goal, costs),
        goal is None || goal == Some(t),
        t < g.n,
        costs[t as int] is Some,
        back_path(g, costs, path, t as int),
    ensures
        path[0] == start,
        costs[start as int] == Some(0i32),
        path_walk(g, path, costs[t as int]->0 as int),
        g.dist_is(start as int, t as int, costs[t as int]->0 as nat),
{
    let c = costs[t as int]->0;
    lemma_back_path_walk(g, costs, path);
    let v = path[0] as int;
    assert(path[0] < g.n && costs[v] is Some);
    let x = costs[v]->0;
    assert(x >= 0 && g.walk(start as int, v, x as nat));
    assert(x <= c);
    if x > 0 {
        let (u, w) = choose|u: int, w: int|
            1 <= w <= x && #[trigger] g.has_edge(u, v, w) && g.walk(start as int, u, (x - w) as nat);
        let k = choose|k: int|
            0 <= k < g.edges@.len() && #[trigger] g.edges@[k].2 == w && ((g.edges@[k].0 == u
                && g.edges@[k].1 == v) || (!g.directed && g.edges@[k].0 == v && g.edges@[k].1 == u));
        assert(0 <= u < g.n);
        assert(costs[u] is Some && costs[u]->0 <= x - w);
        let cu = costs[u]->0;
        assert(cu >= 0 && g.walk(start as int, u, cu as nat));
        lemma_walk_extend(g, start as int, u, v, w, cu as nat);
        assert(cu + w >= x) by {
            if cu + w < x {
                assert(g.walk(start as int, v, (cu + w) as nat));
                assert(costs[v]->0 <= cu + w);
            }
        }
        assert(back_step(g, costs, u, v));
        assert(false);
    }
    assert(g.walk(start as int, v, 0));
    assert forall|y: nat| y < c implies !#[trigger] g.walk(start as int, t as int, y) by {
        if g.walk(start as int, t as int, y) {
            if goal is None {
                assert(costs[t as int]->0 <= y);
            }
        }
    }
}

/// In a graph of unit weights, a walk along the nodes of `p` has one step per edge.
proof fn lemma_unit_path_walk(g: &Graph, p: Seq<usize>, c: int)
    requires
        g.unit(),
        path_walk(g, p, c),
        p.len() >= 1,
    ensures
        c == p.len() - 1,
    decreases p.len(),
{
    if p.len() > 1 {
        let w = choose|w: int|
            #[trigger] g.has_edge(p[p.len() - 2] as int, p[p.len() - 1] as int, w) && path_walk(
                g,
                p.drop_last(),
                c - w,
            );
        let k = choose|k: int|
            0 <= k < g.edges@.len() && #[trigger] g.edges@[k].2 == w && ((g.edges@[k].0
                == p[p.len() - 2] as int && g.edges@[k].1 == p[p.len() - 1] as int) || (!g.directed
                && g.edges@[k].0 == p[p.len() - 1] as int && g.edges@[k].1 == p[p.len() - 2] as int));
        assert(g.edges@[k].2 == 1);
        lemma_unit_path_walk(g, p.drop_last(), c - w);
    }
}

/// Walking back from a goal on the costs that Dijkstra's algorithm gives, in a graph of unit
/// weights, takes as many steps as the least cost of the goal, and starts at the start.
pub proof fn lemma_back_path_len(
    g: &Graph,
    start: usize,
    goal: Option<usize>,
    costs: Seq<Option<i32>>,
    path: Seq<usize>,
    t: usize,
)
    requires
        g.wf(),
        g.unit(),
        g.dijkstra_spec(start, goal, costs),
        goal is None || goal == Some(t),
        t < g.n,
        costs[t as int] is Some,
        back_path(g, costs, path, t as int),
    ensures
        path.len() == costs[t as int]->0 + 1,
        path[0] == start,
        g.dist_is(start as int, t as int, costs[t as int]->0 as nat),
{
    lemma_back_path_shortest(g, start, goal, costs, path, t);
    lemma_unit_path_walk(g, path, costs[t as int]->0 as int);
}

// ---------------------------------------------------------------------------
// Mazes

/// The node of the tile at row `r`, column `c`, in a maze of width `w`.
pub open spec fn tile(w: int, p: (int, int)) -> int {
    p.0 * w + p.1
}

/// The open tiles of a grid: the tiles in it marked `true`.
pub open spec fn grid_open(g: &Grid<bool>) -> spec_fn(int, int) -> bool {
    |r: int, c: int| 0 <= r < g.height() && 0 <= c < g.width && g.at(r, c)
}

/// A step between two open tiles side by side.
pub open spec fn maze_step(open: spec_fn(int, int) -> bool, a: (int, int), b: (int, int)) -> bool {
    &&& open(a.0, a.1)
    &&& open(b.0, b.1)
    &&& (a.0 == b.0 && (a.1 - b.1 == 1 || b.1 - a.1 == 1)) || (a.1 == b.1 && (a.0 - b.0 == 1 || b.0
        - a.0 == 1))
}

/// A walk of `n` steps from tile `a` to tile `b`.
pub open spec fn maze_walk(open: spec_fn(int, int) -> bool, a: (int, int), b: (int, int), n: nat) -> bool
    decreases n,
{
    if n == 0 {
        a == b
    } else {
        exists|m: (int, int)| maze_walk(open, a, m, (n - 1) as nat) && #[trigger] maze_step(open, m, b)
    }
}

/// `n` is the least number of steps from `a` to `b`.
pub open spec fn maze_dist(open: spec_fn(int, int) -> bool, a: (int, int), b: (int, int), n: nat) -> bool {
    maze_walk(open, a, b, n) && forall|y: nat| y < n ==> !#[trigger] maze_walk(open, a, b, y)
}

proof fn lemma_tile_bounds(w: int, h: int, p: (int, int))
    requires
        0 <= p.0 < h,
        0 <= p.1 < w,
    ensures
        0 <= tile(w, p) < h * w,
{
    assert(0 <= p.0 * w + p.1 < h * w) by (nonlinear_arith)
        requires
            0 <= p.0 < h,
            0 <= p.1 < w,
    ;
}

/// The node of a tile of the grid is a node of its maze graph.
pub proof fn lemma_tile_in(g: &Grid<bool>, p: (int, int))
    requires
        0 <= p.0 < g.height(),
        0 <= p.1 < g.width,
    ensures
        0 <= tile(g.width as int, p) < g.height() * g.width,
{
    lemma_tile_bounds(g.width as int, g.height(), p);
}

proof fn lemma_tile_injective(w: int, p: (int, int), q: (int, int))
    requires
        0 <= p.1 < w,
        0 <= q.1 < w,
        tile(w, p) == tile(w, q),
    ensures
        p == q,
{
    assert(p.0 == q.0) by (nonlinear_arith)
        requires
            p.0 * w + p.1 == q.0 * w + q.1,
            0 <= p.1 < w,
            0 <= q.1 < w,
    ;
}

/// Edge `e` joins the tiles of a step of the maze, from the first to the second.
pub open spec fn step_edge(g: &Grid<bool>, e: (usize, usize, i32)) -> bool {
    exists|a: (int, int), b: (int, int)|
        #[trigger] maze_step(grid_open(g), a, b) && e.0 == tile(g.width as int, a) && e.1 == tile(
            g.width as int,
            b,
        ) && e.2 == 1
}

/// The graph of a maze: a node for each tile (`row * width + column`), and an edge of
/// weight one between any two open tiles side by side.
pub fn from_maze_grid(g: &Grid<bool>) -> (mg: Graph)
    requires
        g.wf(),
        4 * g.height() * g.width <= i32::MAX,
    ensures
        mg.n == g.height() * g.width,
        !mg.directed,
        mg.unit(),
        mg.wf(),
        forall|k: int| 0 <= k < mg.edges@.len() ==> step_edge(g, #[trigger] mg.edges@[k]),
        forall|a: (int, int), b: (int, int)|
            #[trigger] maze_step(grid_open(g), a, b) ==> mg.has_edge(
                tile(g.width as int, a),
                tile(g.width as int, b),
                1,
            ),
{
    let h = g.cells.len();
    let w = g.width;
    let ghost hi = h as int;
    let ghost wi = w as int;
    proof {
        assert(0 <= hi * wi && hi * wi <= i32::MAX && 4 * (hi * wi) == 4 * hi * wi) by (nonlinear_arith)
            requires
                hi >= 0,
                wi >= 0,
                4 * hi * wi <= i32::MAX,
        ;
    }
    let n = h * w;
    let ghost open = grid_open(g);
    let mut edges: Vec<(usize, usize, i32)> = Vec::new();
    let mut r: usize = 0;
    let mut id: usize = 0;
    while r < h
        invariant
            g.wf(),
            h == g.height(),
            w == g.width,
            n == hi * wi,
            hi == h,
            wi == w,
            4 * hi * wi <= i32::MAX,
            open == grid_open(g),
            r <= h,
            id == r * w,
            edges_sorted_up_to(edges@, id as int, n as int),
            weight_sum(edges@) <= 2 * id,
            forall|k: int| 0 <= k < edges@.len() ==> step_edge(g, #[trigger] edges@[k]),
            forall|a: (int, int), b: (int, int)|
                #![trigger maze_step(open, a, b)]
                maze_step(open, a, b) && tile(wi, a) < id && tile(wi, a) < tile(wi, b) ==> exists|k: int|
                    0 <= k < edges@.len() && #[trigger] edges@[k] == (
                        tile(wi, a) as usize,
                        tile(wi, b) as usize,
                        1i32,
                    ),
        decreases h - r,
    {
        let mut c: usize = 0;
        proof {
            assert(r * w + w <= h * w) by (nonlinear_arith)
                requires
                    r < h,
            ;
            assert((r + 1) * w == r * w + w) by (nonlinear_arith);
        }
        while c < w
            invariant
                g.wf(),
                h == g.height(),
                w == g.width,
                n == hi * wi,
                hi == h,
                wi == w,
                4 * hi * wi <= i32::MAX,
                open == grid_open(g),
                r < h,
                c <= w,
                id == r * w + c,
                r * w + w <= n,
                edges_sorted_up_to(edges@, id as int, n as int),
                weight_sum(edges@) <= 2 * id,
                forall|k: int| 0 <= k < edges@.len() ==> step_edge(g, #[trigger] edges@[k]),
                forall|a: (int, int), b: (int, int)|
                    #![trigger maze_step(open, a, b)]
                    maze_step(open, a, b) && tile(wi, a) < id && tile(wi, a) < tile(wi, b) ==> exists|k: int|
                        0 <= k < edges@.len() && #[trigger] edges@[k] == (
                            tile(wi, a) as usize,
                            tile(wi, b) as usize,
                            1i32,
                        ),
            decreases w - c,
        {
            let ghost a = (r as int, c as int);
            let ghost old_edges = edges@;
            let here = g.cells[r][c];
            if c + 1 < w && here && g.cells[r][c + 1] {
                proof {
                    assert(maze_step(open, a, (r as int, c + 1)));
                    assert(tile(wi, (r as int, c + 1)) == id + 1);
                }
                edges.push((id, id + 1, 1));
            }
            let ghost mid_edges = edges@;
            proof {
                if r + 1 < h {
                    assert(r * w + c + w < n) by (nonlinear_arith)
                        requires
                            r + 1 < h,
                            c < w,
                            n == hi * wi,
                            hi == h,
                            wi == w,
                    ;
                }
            }
            if r + 1 < h && here && g.cells[r + 1][c] {
                proof {
                    assert(maze_step(open, a, (r + 1, c as int)));
                    assert(tile(wi, (r + 1, c as int)) == id + w) by (nonlinear_arith)
                        requires
                            id == r * w + c,
                            wi == w,
                    ;
                }
                edges.push((id, id + w, 1));
            }
            proof {
                lemma_edges_step(g, open, old_edges, mid_edges, edges@, r as int, c as int, id as int, n as int);
            }
            c += 1;
            id += 1;
        }
        r += 1;
    }
    let mg = Graph { n, directed: false, edges };
    proof {
        lemma_sorted_wf(&mg);
        assert forall|a: (int, int), b: (int, int)| #[trigger] maze_step(grid_open(g), a, b) implies mg.has_edge(
            tile(wi, a),
            tile(wi, b),
            1,
        ) by {
            lemma_tile_bounds(wi, hi, a);
            lemma_tile_bounds(wi, hi, b);
            if tile(wi, a) < tile(wi, b) {
                let k = choose|k: int| 0 <= k < mg.edges@.len() && #[trigger] mg.edges@[k] == (
                    tile(wi, a) as usize,
                    tile(wi, b) as usize,
                    1i32,
                );
                assert(mg.edges@[k].2 == 1);
            } else {
                assert(maze_step(open, b, a));
                if tile(wi, b) == tile(wi, a) {
                    lemma_tile_injective(wi, a, b);
                }
                let k = choose|k: int| 0 <= k < mg.edges@.len() && #[trigger] mg.edges@[k] == (
                    tile(wi, b) as usize,
                    tile(wi, a) as usize,
                    1i32,
                );
                assert(mg.edges@[k].2 == 1);
            }
        }
    }
    mg
}

/// The edges go from lower to higher nodes below `n`, in increasing order, their sources
/// below `id`, each of weight one.
pub open spec fn edges_sorted_up_to(edges: Seq<(usize, usize, i32)>, id: int, n: int) -> bool {
    &&& forall|k: int|
        0 <= k < edges.len() ==> (#[trigger] edges[k]).0 < edges[k].1 < n && edges[k].0 < id
            && edges[k].2 == 1
    &&& forall|k: int, k2: int|
        0 <= k < k2 < edges.len() ==> (#[trigger] edges[k]).0 < (#[trigger] edges[k2]).0 || (
        edges[k].0 == edges[k2].0 && edges[k].1 < edges[k2].1)
    &&& edges.len() <= 2 * id
}

proof fn lemma_sorted_wf(mg: &Graph)
    requires
        !mg.directed,
        edges_sorted_up_to(mg.edges@, mg.n as int, mg.n as int),
        weight_sum(mg.edges@) <= 2 * mg.n,
        4 * mg.n <= i32::MAX,
    ensures
        mg.wf(),
        mg.unit(),
{
    assert forall|k: int, k2: int| 0 <= k < k2 < mg.edges@.len() implies #[trigger] mg.key(k)
        != #[trigger] mg.key(k2) by {
        assert(mg.key(k) == (mg.edges@[k].0, mg.edges@[k].1));
        assert(mg.key(k2) == (mg.edges@[k2].0, mg.edges@[k2].1));
    }
}

#[verifier::spinoff_prover]
proof fn lemma_edges_step(
    g: &Grid<bool>,
    open: spec_fn(int, int) -> bool,
    e0: Seq<(usize, usize, i32)>,
    e1: Seq<(usize, usize, i32)>,
    e2: Seq<(usize, usize, i32)>,
    r: int,
    c: int,
    id: int,
    n: int,
)
    requires
        g.wf(),
        open == grid_open(g),
        0 <= r < g.height(),
        0 <= c < g.width,
        id == r * g.width + c,
        r * g.width + g.width <= n,
        n == g.height() * g.width,
        edges_sorted_up_to(e0, id, n),
        weight_sum(e0) <= 2 * id,
        forall|k: int| 0 <= k < e0.len() ==> step_edge(g, #[trigger] e0[k]),
        forall|a: (int, int), b: (int, int)|
            #![trigger maze_step(open, a, b)]
            maze_step(open, a, b) && tile(g.width as int, a) < id && tile(g.width as int, a) < tile(
                g.width as int,
                b,
            ) ==> exists|k: int|
                0 <= k < e0.len() && #[trigger] e0[k] == (
                    tile(g.width as int, a) as usize,
                    tile(g.width as int, b) as usize,
                    1i32,
                ),
        e1 == (if c + 1 < g.width && g.at(r, c) && g.at(r, c + 1) {
            e0.push((id as usize, (id + 1) as usize, 1i32))
        } else {
            e0
        }),
        e2 == (if r + 1 < g.height() && g.at(r, c) && g.at(r + 1, c) {
            e1.push((id as usize, (id + g.width) as usize, 1i32))
        } else {
            e1
        }),
        r + 1 < g.height() ==> id + g.width < n,
        c + 1 < g.width ==> id + 1 < n,
        0 <= id < n <= usize::MAX,
    ensures
        edges_sorted_up_to(e2, id + 1, n),
        weight_sum(e2) <= 2 * (id + 1),
        forall|k: int| 0 <= k < e2.len() ==> step_edge(g, #[trigger] e2[k]),
        forall|a: (int, int), b: (int, int)|
            #![trigger maze_step(open, a, b)]
            maze_step(open, a, b) && tile(g.width as int, a) < id + 1 && tile(g.width as int, a) < tile(
                g.width as int,
                b,
            ) ==> exists|k: int|
                0 <= k < e2.len() && #[trigger] e2[k] == (
                    tile(g.width as int, a) as usize,
                    tile(g.width as int, b) as usize,
                    1i32,
                ),
{
    let w = g.width as int;
    let here = (r, c);
    assert(tile(w, here) == id);
    if c + 1 < w && g.at(r, c) && g.at(r, c + 1) {
        assert(maze_step(grid_open(g), here, (r, c + 1)));
        assert(tile(w, (r, c + 1)) == id + 1);
        assert(e1.last() == (id as usize, (id + 1) as usize, 1i32));
        assert(step_edge(g, e1.last()));
        assert(e1.drop_last() =~= e0);
        assert(weight_sum(e1) == weight_sum(e0) + 1);
    }
    if r + 1 < g.height() && g.at(r, c) && g.at(r + 1, c) {
        assert(maze_step(grid_open(g), here, (r + 1, c)));
        assert(tile(w, (r + 1, c)) == id + w) by (nonlinear_arith)
            requires
                id == r * w + c,
        ;
        assert(step_edge(g, e2.last()));
        assert(e2.drop_last() =~= e1);
        assert(weight_sum(e2) == weight_sum(e1) + 1);
    }
    assert forall|k: int| 0 <= k < e2.len() implies step_edge(g, #[trigger] e2[k]) by {
        if k < e0.len() {
            assert(e2[k] == e0[k]);
        } else if k < e1.len() {
            assert(e2[k] == e1[k]);
        }
    }
    assert forall|a: (int, int), b: (int, int)|
        #![trigger maze_step(open, a, b)]
        maze_step(open, a, b) && tile(w, a) < id + 1 && tile(w, a) < tile(w, b) implies exists|k: int|
            0 <= k < e2.len() && #[trigger] e2[k] == (tile(w, a) as usize, tile(w, b) as usize, 1i32) by {
        if tile(w, a) < id {
            let k = choose|k: int|
                0 <= k < e0.len() && #[trigger] e0[k] == (tile(w, a) as usize, tile(w, b) as usize, 1i32);
            assert(e2[k] == e0[k]);
        } else {
            // `a` is the current tile; `b` is to its right or below.
            lemma_tile_injective(w, a, here);
            if b.0 == a.0 {
                assert(b.1 == c + 1);
                assert(tile(w, b) == id + 1);
                let k = e1.len() - 1;
                assert(e2[k] == e1[k]);
            } else {
                assert(b.1 == c);
                if b.0 == r - 1 {
                    assert(tile(w, b) < tile(w, a)) by (nonlinear_arith)
                        requires
                            b.0 == a.0 - 1,
                            b.1 == a.1,
                            0 <= a.1 < w,
                    ;
                }
                assert(b == (r + 1, c));
                assert(tile(w, b) == id + w) by (nonlinear_arith)
                    requires
                        id == r * w + c,
                        b == (r + 1, c),
                ;
                let k = e2.len() - 1;
            }
        }
    }
}

/// `mg` is the graph of the maze `g`, as `from_maze_grid` builds it.
pub open spec fn is_maze_graph(mg: &Graph, g: &Grid<bool>) -> bool {
    &&& mg.n == g.height() * g.width
    &&& !mg.directed
    &&& mg.unit()
    &&& mg.wf()
    &&& forall|k: int| 0 <= k < mg.edges@.len() ==> step_edge(g, #[trigger] mg.edges@[k])
    &&& forall|a: (int, int), b: (int, int)|
        #[trigger] maze_step(grid_open(g), a, b) ==> mg.has_edge(
            tile(g.width as int, a),
            tile(g.width as int, b),
            1,
        )
}

/// Walks in the graph of a maze are walks in the maze.
pub proof fn lemma_maze_walk(mg: &Graph, g: &Grid<bool>, a: (int, int), b: (int, int), n: nat)
    requires
        is_maze_graph(mg, g),
        0 <= a.0 < g.height() && 0 <= a.1 < g.width,
        0 <= b.0 < g.height() && 0 <= b.1 < g.width,
    ensures
        mg.walk(tile(g.width as int, a), tile(g.width as int, b), n) <==> maze_walk(
            grid_open(g),
            a,
            b,
            n,
        ),
    decreases n,
{
    let w = g.width as int;
    let open = grid_open(g);
    if n == 0 {
        if tile(w, a) == tile(w, b) {
            lemma_tile_injective(w, a, b);
        }
    } else {
        if mg.walk(tile(w, a), tile(w, b), n) {
            let u = lemma_walk_last(mg, tile(w, a), tile(w, b), n);
            let k = choose|k: int|
                0 <= k < mg.edges@.len() && #[trigger] mg.edges@[k].2 == 1 && ((mg.edges@[k].0 == u
                    && mg.edges@[k].1 == tile(w, b)) || (!mg.directed && mg.edges@[k].0 == tile(w, b)
                    && mg.edges@[k].1 == u));
            assert(step_edge(g, mg.edges@[k]));
            let (a2, b2) = choose|a2: (int, int), b2: (int, int)|
                #[trigger] maze_step(grid_open(g), a2, b2) && mg.edges@[k].0 == tile(w, a2)
                    && mg.edges@[k].1 == tile(w, b2) && mg.edges@[k].2 == 1;
            let m = if mg.edges@[k].1 == tile(w, b) && mg.edges@[k].0 == u {
                lemma_tile_injective(w, b, b2);
                a2
            } else {
                lemma_tile_injective(w, b, a2);
                b2
            };
            assert(maze_step(open, m, b));
            lemma_maze_walk(mg, g, a, m, (n - 1) as nat);
            assert(maze_walk(open, a, b, n));
        }
        if maze_walk(open, a, b, n) {
            let m = choose|m: (int, int)| maze_walk(open, a, m, (n - 1) as nat) && #[trigger] maze_step(open, m, b);
            lemma_maze_walk(mg, g, a, m, (n - 1) as nat);
            lemma_walk_extend(mg, tile(w, a), tile(w, m), tile(w, b), 1, (n - 1) as nat);
        }
    }
}

/// Least walks in the graph of a maze are least walks in the maze.
pub proof fn lemma_maze_dist(mg: &Graph, g: &Grid<bool>, a: (int, int), b: (int, int), n: nat)
    requires
        is_maze_graph(mg, g),
        0 <= a.0 < g.height() && 0 <= a.1 < g.width,
        0 <= b.0 < g.height() && 0 <= b.1 < g.width,
    ensures
        mg.dist_is(tile(g.width as int, a), tile(g.width as int, b), n) <==> maze_dist(
            grid_open(g),
            a,
            b,
            n,
        ),
{
    let w = g.width as int;
    let open = grid_open(g);
    lemma_maze_walk(mg, g, a, b, n);
    if mg.dist_is(tile(w, a), tile(w, b), n) {
        assert forall|y: nat| y < n implies !#[trigger] maze_walk(open, a, b, y) by {
            lemma_maze_walk(mg, g, a, b, y);
        }
    }
    if maze_dist(open, a, b, n) {
        assert forall|y: nat| y < n implies !#[trigger] mg.walk(tile(w, a), tile(w, b), y) by {
            lemma_maze_walk(mg, g, a, b, y);
        }
    }
}

/// No walk in the graph of a maze is no walk in the maze.
pub proof fn lemma_maze_unreachable(mg: &Graph, g: &Grid<bool>, a: (int, int), b: (int, int))
    requires
        is_maze_graph(mg, g),
        0 <= a.0 < g.height() && 0 <= a.1 < g.width,
        0 <= b.0 < g.height() && 0 <= b.1 < g.width,
    ensures
        (forall|y: nat| !#[trigger] mg.walk(tile(g.width as int, a), tile(g.width as int, b), y)) <==> (
        forall|y: nat| !#[trigger] maze_walk(grid_open(g), a, b, y)),
{
    let w = g.width as int;
    let open = grid_open(g);
    if forall|y: nat| !#[trigger] mg.walk(tile(w, a), tile(w, b), y) {
        assert forall|y: nat| !#[trigger] maze_walk(open, a, b, y) by {
            lemma_maze_walk(mg, g, a, b, y);
        }
    }
    if forall|y: nat| !#[trigger] maze_walk(open, a, b, y) {
        assert forall|y: nat| !#[trigger] mg.walk(tile(w, a), tile(w, b), y) by {
            lemma_maze_walk(mg, g, a, b, y);
        }
    }
}

} // verus!
