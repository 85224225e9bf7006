use crate::aoc::y2024::d24::{self, name_code, z_code, z_number, Expr, Op};
use petgraph::graph::DiGraph;
use crate::lgl::parse;
use crate::lgl::text;
use rand::Rng;
use std::collections::HashMap;
use vstd::prelude::*;
use vstd::string::{StrSliceExecFns, StringExecFns};

pub use crate::aoc::y2024::d24::parse_input;

verus! {

broadcast use vstd::std_specs::hash::group_hash_axioms;

// ---------------------------------------------------------------------------
// Gates on single bits

/// What a gate computes from two bits.
pub open spec fn bit_apply(op: Op, l: bool, r: bool) -> bool {
    match op {
        Op::And => l && r,
        Op::Or => l || r,
        Op::Xor => l != r,
    }
}

impl Op {
    /// What this operation outputs for the input bits `l` and `r`.
    pub fn eval(&self, l: bool, r: bool) -> (v: bool)
        ensures
            v == bit_apply(*self, l, r),
    {
        match self {
            Op::And => l && r,
            Op::Or => l || r,
            Op::Xor => l != r,
        }
    }
}

// ---------------------------------------------------------------------------
// The circuit as a graph

/// A node of the circuit: a wire, named by its code, and the operation that drives it (none for
/// an input wire).
#[derive(Clone, Copy, Debug)]
pub struct Node {
    pub name: u64,
    pub op: Option<Op>,
}

/// The circuit as a graph. Node `i` of a gate has edges from its two input nodes `ins[i]`
/// (left, right); `names` maps each wire to its node, and `topo` lists the nodes in an order
/// in which every edge goes forward.
pub struct Circuit {
    pub nodes: Vec<Node>,
    pub ins: Vec<(usize, usize)>,
    pub names: HashMap<u64, usize>,
    pub topo: Vec<usize>,
}

/// Node `a` comes before node `b` in `order`.
pub open spec fn before(order: Seq<usize>, a: int, b: int) -> bool {
    forall|p: int, q: int|
        0 <= p < order.len() && 0 <= q < order.len() && order[p] == a && order[q] == b ==> p < q
}

/// `order` lists each of the nodes `0..n` once.
pub open spec fn is_perm(order: Seq<usize>, n: int) -> bool {
    &&& order.len() == n
    &&& order.no_duplicates()
    &&& forall|p: int| 0 <= p < order.len() ==> #[trigger] order[p] < n
    &&& forall|v: int| 0 <= v < n ==> #[trigger] listed(order, v)
}

/// Node `v` is in `order`.
pub open spec fn listed(order: Seq<usize>, v: int) -> bool {
    exists|p: int| 0 <= p < order.len() && order[p] == v
}

impl Circuit {
    pub open spec fn size(&self) -> int {
        self.nodes@.len() as int
    }

    /// Gates take their inputs from earlier nodes, every node has its own name, and `topo`
    /// is a topological order of the graph.
    pub open spec fn wf(&self) -> bool {
        let n = self.size();
        &&& self.ins@.len() == n
        &&& forall|i: int|
            0 <= i < n && (#[trigger] self.nodes@[i]).op is Some ==> self.ins@[i].0 < i
                && self.ins@[i].1 < i
        &&& forall|i: int|
            0 <= i < n ==> self.names@.contains_key((#[trigger] self.nodes@[i]).name)
                && self.names@[self.nodes@[i].name] == i
        &&& forall|w: u64| #[trigger]
            self.names@.contains_key(w) ==> self.names@[w] < n && self.nodes@[self.names@[w] as int].name
                == w
        &&& is_perm(self.topo@, n)
        &&& forall|i: int|
            0 <= i < n && (#[trigger] self.nodes@[i]).op is Some ==> before(
                self.topo@,
                self.ins@[i].0 as int,
                i,
            ) && before(self.topo@, self.ins@[i].1 as int, i)
    }
}

/// petgraph's `toposort` on the graph with nodes `0..n` and the given edges, in that order
/// (a `DiGraph` built by `add_node` and `add_edge`): the nodes in topological order, or
/// `None` when the sort meets a cycle.
/// Trusted: that a graph whose edges all go from a lower node to a higher one has no cycle,
/// so the sort succeeds, and that the order it gives lists every node once, the source of
/// each edge before its target. `add_node` and `add_edge` panic past `u32` indices, hence
/// the bounds.
#[verifier::external_body]
fn toposort_nodes(n: usize, edges: &Vec<(usize, usize)>) -> (order: Option<Vec<usize>>)
    requires
        n < u32::MAX,
        edges@.len() < u32::MAX,
        forall|k: int| 0 <= k < edges@.len() ==> #[trigger] edges@[k].0 < n && edges@[k].1 < n,
    ensures
        (forall|k: int| 0 <= k < edges@.len() ==> #[trigger] edges@[k].0 < edges@[k].1) ==> order
            is Some,
        order matches Some(o) ==> {
            &&& is_perm(o@, n as int)
            &&& forall|k: int|
                0 <= k < edges@.len() ==> before(o@, #[trigger] edges@[k].0 as int, edges@[k].1 as int)
        },
{
    let mut g: DiGraph<(), ()> = DiGraph::new();
    let ids: Vec<_> = (0..n).map(|_| g.add_node(())).collect();
    for &(a, b) in edges.iter() {
        g.add_edge(ids[a], ids[b], ());
    }
    match petgraph::algo::toposort(&g, None) {
        Ok(v) => Some(v.into_iter().map(|i| i.index()).collect()),
        Err(_) => None,
    }
}

// ---------------------------------------------------------------------------
// Building the circuit

/// Both inputs of `e` are known wires.
pub open spec fn ready(known: Set<u64>, e: Expr) -> bool {
    known.contains(e.l) && known.contains(e.r)
}

/// The gates of `es` whose inputs are known, in order.
pub open spec fn part_ready(known: Set<u64>, es: Seq<Expr>) -> Seq<Expr>
    decreases es.len(),
{
    if es.len() == 0 {
        seq![]
    } else {
        let p = part_ready(known, es.drop_last());
        if ready(known, es.last()) {
            p.push(es.last())
        } else {
            p
        }
    }
}

/// The gates of `es` with an unknown input, in order.
pub open spec fn part_wait(known: Set<u64>, es: Seq<Expr>) -> Seq<Expr>
    decreases es.len(),
{
    if es.len() == 0 {
        seq![]
    } else {
        let p = part_wait(known, es.drop_last());
        if ready(known, es.last()) {
            p
        } else {
            p.push(es.last())
        }
    }
}

/// The two parts split the gates between them.
pub proof fn lemma_part_len(known: Set<u64>, es: Seq<Expr>)
    ensures
        part_ready(known, es).len() + part_wait(known, es).len() == es.len(),
        forall|j: int|
            0 <= j < part_ready(known, es).len() ==> ready(known, #[trigger] part_ready(known, es)[j])
                && es.contains(part_ready(known, es)[j]),
        forall|j: int|
            0 <= j < part_wait(known, es).len() ==> !ready(known, #[trigger] part_wait(known, es)[j])
                && es.contains(part_wait(known, es)[j]),
    decreases es.len(),
{
    if es.len() > 0 {
        lemma_part_len(known, es.drop_last());
        let pr = part_ready(known, es.drop_last());
        let pw = part_wait(known, es.drop_last());
        assert forall|j: int| 0 <= j < pr.len() implies es.contains(pr[j]) by {
            let k = choose|k: int| 0 <= k < es.drop_last().len() && es.drop_last()[k] == pr[j];
            assert(es[k] == pr[j]);
        }
        assert forall|j: int| 0 <= j < pw.len() implies es.contains(pw[j]) by {
            let k = choose|k: int| 0 <= k < es.drop_last().len() && es.drop_last()[k] == pw[j];
            assert(es[k] == pw[j]);
        }
        assert(es[es.len() - 1] == es.last());
    }
}

/// The output wires of the gates.
pub open spec fn outs(es: Seq<Expr>) -> Set<u64> {
    Set::new(|w: u64| exists|k: int| 0 <= k < es.len() && (#[trigger] es[k]).out == w)
}

/// The order in which gates join the graph: round by round, each round taking, in order,
/// the gates whose inputs are known at its start. Stops early when a round takes none.
pub open spec fn build_order(known: Set<u64>, es: Seq<Expr>) -> Seq<Expr>
    decreases es.len(),
{
    if es.len() == 0 {
        seq![]
    } else {
        let r = part_ready(known, es);
        if r.len() == 0 {
            seq![]
        } else {
            proof {
                lemma_part_len(known, es);
            }
            r + build_order(known.union(outs(r)), part_wait(known, es))
        }
    }
}

/// No gate drives an input wire, and no two gates drive the same wire.
pub open spec fn distinct_outs(inputs: Seq<u64>, es: Seq<Expr>) -> bool {
    &&& forall|k: int| 0 <= k < es.len() ==> !inputs.contains(#[trigger] es[k].out)
    &&& forall|k: int, j: int|
        0 <= k < j < es.len() ==> (#[trigger] es[k]).out != (#[trigger] es[j]).out
}

proof fn lemma_part_distinct(known: Set<u64>, es: Seq<Expr>)
    requires
        forall|k: int, j: int| 0 <= k < j < es.len() ==> (#[trigger] es[k]).out != (#[trigger] es[j]).out,
    ensures
        forall|k: int, j: int|
            0 <= k < j < part_ready(known, es).len() ==> (#[trigger] part_ready(known, es)[k]).out
                != (#[trigger] part_ready(known, es)[j]).out,
        forall|k: int, j: int|
            0 <= k < j < part_wait(known, es).len() ==> (#[trigger] part_wait(known, es)[k]).out
                != (#[trigger] part_wait(known, es)[j]).out,
    decreases es.len(),
{
    if es.len() > 0 {
        let d = es.drop_last();
        lemma_part_distinct(known, d);
        lemma_part_len(known, d);
        let last = es.last();
        assert forall|k: int| 0 <= k < d.len() implies (#[trigger] d[k]).out != last.out by {
            assert(es[k] == d[k]);
            assert(es[es.len() - 1] == last);
        }
        let pr = part_ready(known, d);
        let pw = part_wait(known, d);
        assert forall|k: int| 0 <= k < pr.len() implies (#[trigger] pr[k]).out != last.out by {
            let i = choose|i: int| 0 <= i < d.len() && d[i] == pr[k];
        }
        assert forall|k: int| 0 <= k < pw.len() implies (#[trigger] pw[k]).out != last.out by {
            let i = choose|i: int| 0 <= i < d.len() && d[i] == pw[k];
        }
    }
}

/// The first nodes are the inputs, in order; then come the gates of `order`, each with
/// edges from the nodes of its two input wires.
pub open spec fn built_as(c: Circuit, inputs: Seq<u64>, order: Seq<Expr>) -> bool {
    let n_in = inputs.len() as int;
    &&& c.size() == n_in + order.len()
    &&& forall|k: int| 0 <= k < n_in ==> (#[trigger] c.nodes@[k]).name == inputs[k] && c.nodes@[k].op is None
    &&& forall|j: int|
        0 <= j < order.len() ==> {
            &&& c.nodes@[n_in + j].name == (#[trigger] order[j]).out
            &&& c.nodes@[n_in + j].op == Some(order[j].op)
            &&& c.nodes@[c.ins@[n_in + j].0 as int].name == order[j].l
            &&& c.nodes@[c.ins@[n_in + j].1 as int].name == order[j].r
        }
}

/// Nodes, edges and names as `Circuit::new` keeps them while it adds gates.
pub open spec fn partial_circuit(
    nodes: Seq<Node>,
    ins: Seq<(usize, usize)>,
    names: Map<u64, usize>,
    inputs: Seq<u64>,
    order: Seq<Expr>,
) -> bool {
    let n_in = inputs.len() as int;
    let n = nodes.len() as int;
    &&& n == n_in + order.len()
    &&& ins.len() == n
    &&& forall|k: int| 0 <= k < n_in ==> (#[trigger] nodes[k]).name == inputs[k] && nodes[k].op is None
    &&& forall|j: int|
        0 <= j < order.len() ==> {
            &&& nodes[n_in + j].name == (#[trigger] order[j]).out
            &&& nodes[n_in + j].op == Some(order[j].op)
            &&& ins[n_in + j].0 < n_in + j
            &&& ins[n_in + j].1 < n_in + j
            &&& nodes[ins[n_in + j].0 as int].name == order[j].l
            &&& nodes[ins[n_in + j].1 as int].name == order[j].r
        }
    &&& forall|i: int|
        0 <= i < n ==> names.contains_key((#[trigger] nodes[i]).name) && names[nodes[i].name] == i
    &&& forall|w: u64| #[trigger] names.contains_key(w) ==> names[w] < n && nodes[names[w] as int].name == w
}

/// Add `e` as a new node with edges from the nodes of its inputs.
fn add_gate(
    nodes: &mut Vec<Node>,
    ins: &mut Vec<(usize, usize)>,
    names: &mut HashMap<u64, usize>,
    e: Expr,
    Ghost(inputs): Ghost<Seq<u64>>,
    Ghost(order): Ghost<Seq<Expr>>,
)
    requires
        partial_circuit(old(nodes)@, old(ins)@, old(names)@, inputs, order),
        old(names)@.contains_key(e.l),
        old(names)@.contains_key(e.r),
        !old(names)@.contains_key(e.out),
        old(nodes)@.len() < usize::MAX,
    ensures
        partial_circuit(final(nodes)@, final(ins)@, final(names)@, inputs, order.push(e)),
        final(names)@ == old(names)@.insert(e.out, old(nodes)@.len() as usize),
{
    let i = nodes.len();
    nodes.push(Node { name: e.out, op: Some(e.op) });
    names.insert(e.out, i);
    let l = *names.get(&e.l).unwrap();
    let r = *names.get(&e.r).unwrap();
    ins.push((l, r));
    let ghost o2 = order.push(e);
    let ghost n_in = inputs.len() as int;
    assert forall|j: int| 0 <= j < o2.len() implies {
        &&& nodes@[n_in + j].name == (#[trigger] o2[j]).out
        &&& nodes@[n_in + j].op == Some(o2[j].op)
        &&& ins@[n_in + j].0 < n_in + j
        &&& ins@[n_in + j].1 < n_in + j
        &&& nodes@[ins@[n_in + j].0 as int].name == o2[j].l
        &&& nodes@[ins@[n_in + j].1 as int].name == o2[j].r
    } by {
        let k = inputs.len() + j;
        if j < order.len() {
            assert(nodes@[k] == old(nodes)@[k]);
            assert(ins@[k] == old(ins)@[k]);
            assert(nodes@[ins@[k].0 as int] == old(nodes)@[ins@[k].0 as int]);
            assert(nodes@[ins@[k].1 as int] == old(nodes)@[ins@[k].1 as int]);
        }
    }
    assert forall|k: int| 0 <= k < inputs.len() implies (#[trigger] nodes@[k]).name == inputs[k]
        && nodes@[k].op is None by {
        assert(nodes@[k] == old(nodes)@[k]);
    }
    assert forall|k: int| 0 <= k < nodes@.len() implies names@.contains_key(
        (#[trigger] nodes@[k]).name,
    ) && names@[nodes@[k].name] == k by {
        if k < i {
            assert(nodes@[k] == old(nodes)@[k]);
        }
    }
}

impl Circuit {
    /// Build the circuit: a node for each input wire, then, round by round, a node for each
    /// gate whose input wires already have nodes.
    pub fn new(inputs: Vec<u64>, exprs: Vec<Expr>) -> (c: Circuit)
        requires
            inputs@.no_duplicates(),
            distinct_outs(inputs@, exprs@),
            build_order(inputs@.to_set(), exprs@).len() == exprs@.len(),
            inputs@.len() + exprs@.len() < u32::MAX,
            2 * exprs@.len() < u32::MAX,
        ensures
            c.wf(),
            built_as(c, inputs@, build_order(inputs@.to_set(), exprs@)),
    {
        let ghost i0 = inputs@;
        let ghost e0 = exprs@;
        let ghost target = build_order(i0.to_set(), e0);
        let mut nodes: Vec<Node> = Vec::new();
        let mut ins: Vec<(usize, usize)> = Vec::new();
        let mut names: HashMap<u64, usize> = HashMap::new();
        let mut k: usize = 0;
        while k < inputs.len()
            invariant
                i0 == inputs@,
                i0.no_duplicates(),
                k <= i0.len(),
                partial_circuit(nodes@, ins@, names@, i0.take(k as int), seq![]),
                names@.dom() == i0.take(k as int).to_set(),
            decreases i0.len() - k,
        {
            let name = inputs[k];
            proof {
                assert(!names@.contains_key(name)) by {
                    if names@.contains_key(name) {
                        assert(i0.take(k as int).to_set().contains(name));
                        let j = choose|j: int| 0 <= j < k && i0.take(k as int)[j] == name;
                        assert(i0[j] == i0[k as int]);
                    }
                }
            }
            let ghost old_nodes = nodes@;
            nodes.push(Node { name, op: None });
            ins.push((0, 0));
            names.insert(name, k);
            proof {
                let t1 = i0.take(k + 1);
                assert(t1 =~= i0.take(k as int).push(name));
                assert forall|j: int| 0 <= j < k + 1 implies (#[trigger] nodes@[j]).name == t1[j]
                    && nodes@[j].op is None by {
                    if j < k {
                        assert(nodes@[j] == old_nodes[j]);
                    }
                }
                assert forall|j: int| 0 <= j < nodes@.len() implies names@.contains_key(
                    (#[trigger] nodes@[j]).name,
                ) && names@[nodes@[j].name] == j by {
                    if j < k {
                        assert(nodes@[j] == old_nodes[j]);
                    }
                }
                assert forall|w: u64| names@.dom().contains(w) <==> #[trigger] t1.contains(w) by {
                    if w == name {
                        assert(t1[k as int] == name);
                    } else if names@.dom().contains(w) {
                        assert(i0.take(k as int).to_set().contains(w));
                        let j = choose|j: int| 0 <= j < k && i0.take(k as int)[j] == w;
                        assert(t1[j] == w);
                    } else if t1.contains(w) {
                        let j = choose|j: int| 0 <= j < k + 1 && t1[j] == w;
                        assert(i0.take(k as int)[j] == w);
                        assert(i0.take(k as int).to_set().contains(w));
                    }
                }
                assert(names@.dom() =~= t1.to_set());
            }
            k += 1;
        }
        proof {
            assert(i0.take(i0.len() as int) =~= i0);
        }
        let mut exprs = exprs;
        let ghost mut order: Seq<Expr> = seq![];
        while exprs.len() > 0
            invariant
                i0 == inputs@,
                partial_circuit(nodes@, ins@, names@, i0, order),
                order + build_order(names@.dom(), exprs@) == target,
                target.len() == e0.len(),
                order.len() + exprs@.len() == e0.len(),
                i0.len() + e0.len() < u32::MAX,
                forall|j: int| 0 <= j < exprs@.len() ==> !names@.contains_key(#[trigger] exprs@[j].out),
                forall|a: int, b: int|
                    0 <= a < b < exprs@.len() ==> (#[trigger] exprs@[a]).out != (#[trigger] exprs@[b]).out,
            decreases exprs@.len(),
        {
            let ghost known = names@.dom();
            let ghost es = exprs@;
            let mut has_inputs: Vec<Expr> = Vec::new();
            let mut hasnt_inputs: Vec<Expr> = Vec::new();
            let mut t: usize = 0;
            while t < exprs.len()
                invariant
                    es == exprs@,
                    known == names@.dom(),
                    t <= es.len(),
                    has_inputs@ == part_ready(known, es.take(t as int)),
                    hasnt_inputs@ == part_wait(known, es.take(t as int)),
                decreases es.len() - t,
            {
                let e = exprs[t];
                proof {
                    assert(es.take(t + 1).drop_last() =~= es.take(t as int));
                    assert(es.take(t + 1).last() == e);
                }
                if names.contains_key(&e.l) && names.contains_key(&e.r) {
                    has_inputs.push(e);
                } else {
                    hasnt_inputs.push(e);
                }
                t += 1;
            }
            proof {
                assert(es.take(es.len() as int) =~= es);
                lemma_part_len(known, es);
                lemma_part_distinct(known, es);
                assert(has_inputs@.len() > 0);
            }
            let ghost ready_part = has_inputs@;
            let mut t: usize = 0;
            while t < has_inputs.len()
                invariant
                    i0 == inputs@,
                    ready_part == has_inputs@,
                    ready_part == part_ready(known, es),
                    forall|j: int|
                        0 <= j < ready_part.len() ==> ready(known, #[trigger] ready_part[j])
                            && es.contains(ready_part[j]),
                    forall|a: int, b: int|
                        0 <= a < b < ready_part.len() ==> (#[trigger] ready_part[a]).out
                            != (#[trigger] ready_part[b]).out,
                    forall|j: int| 0 <= j < es.len() ==> !known.contains(#[trigger] es[j].out),
                    t <= ready_part.len(),
                    partial_circuit(nodes@, ins@, names@, i0, order + ready_part.take(t as int)),
                    names@.dom() == known.union(outs(ready_part.take(t as int))),
                    i0.len() + order.len() + ready_part.len() < u32::MAX,
                decreases ready_part.len() - t,
            {
                let e = has_inputs[t];
                proof {
                    assert(ready(known, e));
                    let j = choose|j: int| 0 <= j < es.len() && es[j] == e;
                    assert(!known.contains(e.out));
                    assert(!outs(ready_part.take(t as int)).contains(e.out)) by {
                        if outs(ready_part.take(t as int)).contains(e.out) {
                            let a = choose|a: int|
                                0 <= a < t && (#[trigger] ready_part.take(t as int)[a]).out == e.out;
                            assert(ready_part[a].out != ready_part[t as int].out);
                        }
                    }
                }
                add_gate(
                    &mut nodes,
                    &mut ins,
                    &mut names,
                    e,
                    Ghost(i0),
                    Ghost(order + ready_part.take(t as int)),
                );
                proof {
                    assert(order + ready_part.take(t + 1) =~= (order + ready_part.take(
                        t as int,
                    )).push(e));
                    assert(names@.dom() =~= known.union(outs(ready_part.take(t + 1)))) by {
                        assert forall|w: u64| #[trigger] outs(ready_part.take(t + 1)).contains(w)
                            implies outs(ready_part.take(t as int)).contains(w) || w == e.out by {
                            let a = choose|a: int|
                                0 <= a < t + 1 && (#[trigger] ready_part.take(t + 1)[a]).out == w;
                            if a < t {
                                assert(ready_part.take(t as int)[a] == ready_part.take(t + 1)[a]);
                            }
                        }
                        assert forall|w: u64| #[trigger] outs(ready_part.take(t as int)).contains(w)
                            implies outs(ready_part.take(t + 1)).contains(w) by {
                            let a = choose|a: int|
                                0 <= a < t && (#[trigger] ready_part.take(t as int)[a]).out == w;
                            assert(ready_part.take(t + 1)[a] == ready_part.take(t as int)[a]);
                        }
                        assert(ready_part.take(t + 1)[t as int] == e);
                    }
                }
                t += 1;
            }
            proof {
                assert(ready_part.take(ready_part.len() as int) =~= ready_part);
                let wait = part_wait(known, es);
                assert(build_order(known, es) == ready_part + build_order(
                    known.union(outs(ready_part)),
                    wait,
                ));
                assert((order + ready_part) + build_order(names@.dom(), wait) =~= order + (
                ready_part + build_order(names@.dom(), wait)));
                assert forall|j: int| 0 <= j < wait.len() implies !names@.contains_key(
                    #[trigger] wait[j].out,
                ) by {
                    let a = choose|a: int| 0 <= a < es.len() && es[a] == wait[j];
                    if outs(ready_part).contains(wait[j].out) {
                        let b = choose|b: int| 0 <= b < ready_part.len() && (#[trigger] ready_part[b]).out
                            == wait[j].out;
                        let c = choose|c: int| 0 <= c < es.len() && es[c] == ready_part[b];
                        assert(es[a].out == es[c].out);
                        assert(a == c);
                    }
                }
                order = order + ready_part;
            }
            exprs = hasnt_inputs;
        }
        proof {
            assert(order =~= target);
        }
        let n = nodes.len();
        let n_in = inputs.len();
        let mut edges: Vec<(usize, usize)> = Vec::new();
        let mut i = n_in;
        while i < n
            invariant
                n == nodes@.len(),
                n_in == i0.len(),
                n_in <= i <= n,
                partial_circuit(nodes@, ins@, names@, i0, order),
                edges@.len() == 2 * (i - n_in),
                forall|k: int|
                    0 <= k < edges@.len() ==> #[trigger] edges@[k].0 < edges@[k].1 && edges@[k].1 < i,
                forall|k: int|
                    0 <= k < edges@.len() ==> #[trigger] edges@[k] == (
                        if k % 2 == 0 {
                            ins@[n_in + k / 2].0
                        } else {
                            ins@[n_in + k / 2].1
                        },
                        (n_in + k / 2) as usize,
                    ),
            decreases n - i,
        {
            let (l, r) = ins[i];
            proof {
                let j = i - n_in;
                assert(partial_circuit(nodes@, ins@, names@, i0, order));
                assert(0 <= j < order.len());
                assert(nodes@[n_in + j].name == order[j].out);
                assert(nodes@[n_in + j].op == Some(order[j].op));
                assert(ins@[n_in + j].0 < n_in + j);
                assert(ins@[n_in + j] == ins@[i as int]);
                assert(l < i && r < i);
            }
            let ghost old_edges = edges@;
            edges.push((l, i));
            edges.push((r, i));
            proof {
                let m = i - n_in;
                assert forall|k: int| 0 <= k < edges@.len() implies #[trigger] edges@[k] == (
                    if k % 2 == 0 {
                        ins@[n_in + k / 2].0
                    } else {
                        ins@[n_in + k / 2].1
                    },
                    (n_in + k / 2) as usize,
                ) by {
                    if k < old_edges.len() {
                        assert(edges@[k] == old_edges[k]);
                    } else if k == 2 * m {
                        assert(k / 2 == m);
                    } else {
                        assert(k == 2 * m + 1);
                        assert(k / 2 == m);
                    }
                }
            }
            i += 1;
        }
        proof {
            assert forall|k: int| 0 <= k < edges@.len() implies #[trigger] edges@[k].0 < edges@[k].1
                && edges@[k].1 < n by {

            }
        }
        let topo = match toposort_nodes(n, &edges) {
            Some(t) => t,
            None => {
                proof {
                    assert(false);
                }
                Vec::new()
            },
        };
        let c = Circuit { nodes, ins, names, topo };
        proof {
            assert forall|i: int|
                0 <= i < n && (#[trigger] c.nodes@[i]).op is Some implies before(
                c.topo@,
                c.ins@[i].0 as int,
                i,
            ) && before(c.topo@, c.ins@[i].1 as int, i) by {
                if i < n_in {
                    assert(c.nodes@[i].op is None);
                } else {
                    let j = i - n_in;
                    assert(edges@[2 * j] == (c.ins@[n_in + j].0, (n_in + j) as usize)) by {
                        assert((2 * j) / 2 == j);
                    }
                    assert(edges@[2 * j + 1] == (c.ins@[n_in + j].1, (n_in + j) as usize)) by {
                        assert((2 * j + 1) / 2 == j);
                    }
                    assert(before(c.topo@, edges@[2 * j].0 as int, edges@[2 * j].1 as int));
                    assert(before(c.topo@, edges@[2 * j + 1].0 as int, edges@[2 * j + 1].1 as int));
                }
            }
            assert forall|i: int|
                0 <= i < n && (#[trigger] c.nodes@[i]).op is Some implies c.ins@[i].0 < i
                && c.ins@[i].1 < i by {
                if i < n_in {
                    assert(c.nodes@[i].op is None);
                } else {
                    let j = i - n_in;
                    assert(partial_circuit(c.nodes@, c.ins@, c.names@, i0, order));
                    assert(0 <= j < order.len());
                    assert(c.nodes@[n_in + j].name == order[j].out);
                    assert(c.ins@[n_in + j].0 < n_in + j);
                }
            }
        }
        c
    }
}

// ---------------------------------------------------------------------------
// Evaluating the circuit

/// The value of node `i` for the given wire values: the value given for its wire, if there
/// is one; otherwise its gate applied to the values of its input nodes.
pub open spec fn node_val(nodes: Seq<Node>, ins: Seq<(usize, usize)>, given: Map<u64, bool>, i: int) -> bool
    decreases i,
{
    if given.contains_key(nodes[i].name) {
        given[nodes[i].name]
    } else if nodes[i].op is Some && ins[i].0 < i && ins[i].1 < i {
        bit_apply(
            nodes[i].op->0,
            node_val(nodes, ins, given, ins[i].0 as int),
            node_val(nodes, ins, given, ins[i].1 as int),
        )
    } else {
        false
    }
}

impl Circuit {
    pub open spec fn value(&self, given: Map<u64, bool>, i: int) -> bool {
        node_val(self.nodes@, self.ins@, given, i)
    }

    /// Values are given for some wires, among them every input wire.
    pub open spec fn inputs_ok(&self, given: Map<u64, bool>) -> bool {
        &&& forall|w: u64| #[trigger] given.contains_key(w) ==> self.names@.contains_key(w)
        &&& forall|i: int|
            0 <= i < self.size() && (#[trigger] self.nodes@[i]).op is None ==> given.contains_key(
                self.nodes@[i].name,
            )
    }

    /// The value of every wire, from the given values, gate by gate in topological order.
    pub fn eval(&self, inputs: &HashMap<u64, bool>) -> (out: HashMap<u64, bool>)
        requires
            self.wf(),
            self.inputs_ok(inputs@),
        ensures
            out@.dom() == self.names@.dom(),
            forall|w: u64| #[trigger]
                out@.contains_key(w) ==> out@[w] == self.value(inputs@, self.names@[w] as int),
    {
        let n = self.nodes.len();
        let ghost given = inputs@;
        let mut vals: Vec<Option<bool>> = Vec::new();
        let mut i: usize = 0;
        while i < n
            invariant
                n == self.size(),
                given == inputs@,
                i <= n,
                vals@.len() == i,
                forall|j: int|
                    0 <= j < i ==> #[trigger] vals@[j] == if given.contains_key(self.nodes@[j].name) {
                        Some(given[self.nodes@[j].name])
                    } else {
                        None
                    },
            decreases n - i,
        {
            let name = self.nodes[i].name;
            match inputs.get(&name) {
                Some(v) => vals.push(Some(*v)),
                None => vals.push(None),
            }
            i += 1;
        }
        let mut t: usize = 0;
        while t < n
            invariant
                n == self.size(),
                given == inputs@,
                self.wf(),
                self.inputs_ok(given),
                t <= n,
                vals@.len() == n,
                forall|j: int|
                    0 <= j < n && (#[trigger] vals@[j]) is Some ==> vals@[j] == Some(
                        self.value(given, j),
                    ),
                forall|j: int|
                    0 <= j < n && given.contains_key(self.nodes@[j].name) ==> (
                    #[trigger] vals@[j]) is Some,
                forall|p: int| 0 <= p < t ==> (#[trigger] vals@[self.topo@[p] as int]) is Some,
            decreases n - t,
        {
            let i = self.topo[t];
            if vals[i].is_none() {
                let (l, r) = self.ins[i];
                proof {
                    assert(self.topo@[t as int] == i);
                    assert(self.nodes@[i as int].op is Some);
                    assert(listed(self.topo@, l as int));
                    assert(listed(self.topo@, r as int));
                    let pl = choose|p: int| 0 <= p < self.topo@.len() && self.topo@[p] == l;
                    let pr = choose|p: int| 0 <= p < self.topo@.len() && self.topo@[p] == r;
                    assert(before(self.topo@, l as int, i as int));
                    assert(before(self.topo@, r as int, i as int));
                    assert(pl < t && pr < t);
                    assert(vals@[self.topo@[pl] as int] is Some);
                    assert(vals@[self.topo@[pr] as int] is Some);
                }
                let op = self.nodes[i].op.unwrap();
                let lv = vals[l].unwrap();
                let rv = vals[r].unwrap();
                let v = op.eval(lv, rv);
                proof {
                    assert(!given.contains_key(self.nodes@[i as int].name));
                    assert(v == self.value(given, i as int));
                }
                vals.set(i, Some(v));
            }
            t += 1;
        }
        proof {
            assert forall|j: int| 0 <= j < n implies (#[trigger] vals@[j]) == Some(
                self.value(given, j),
            ) by {
                assert(listed(self.topo@, j));
                let p = choose|p: int| 0 <= p < self.topo@.len() && self.topo@[p] == j;
                assert(vals@[self.topo@[p] as int] is Some);
            }
        }
        let mut out: HashMap<u64, bool> = HashMap::new();
        let mut i: usize = 0;
        while i < n
            invariant
                n == self.size(),
                given == inputs@,
                self.wf(),
                i <= n,
                vals@.len() == n,
                forall|j: int| 0 <= j < n ==> (#[trigger] vals@[j]) == Some(self.value(given, j)),
                forall|w: u64| #[trigger]
                    out@.contains_key(w) <==> exists|j: int| 0 <= j < i && self.nodes@[j].name == w,
                forall|w: u64| #[trigger]
                    out@.contains_key(w) ==> out@[w] == self.value(given, self.names@[w] as int),
            decreases n - i,
        {
            let name = self.nodes[i].name;
            let v = vals[i].unwrap();
            out.insert(name, v);
            proof {
                assert(self.names@[name] == i);
                assert forall|w: u64| #[trigger] out@.contains_key(w) implies exists|j: int|
                    0 <= j < i + 1 && self.nodes@[j].name == w by {
                    if w != name {
                        let j = choose|j: int| 0 <= j < i && self.nodes@[j].name == w;
                    } else {
                        assert(self.nodes@[i as int].name == w);
                    }
                }
            }
            i += 1;
        }
        proof {
            assert forall|w: u64| out@.dom().contains(w) <==> #[trigger] self.names@.dom().contains(w) by {
                if self.names@.contains_key(w) {
                    let j = self.names@[w] as int;
                    assert(self.nodes@[j].name == w);
                }
                if out@.contains_key(w) {
                    let j = choose|j: int| 0 <= j < n && self.nodes@[j].name == w;
                    assert(self.names@.contains_key(self.nodes@[j].name));
                }
            }
            assert(out@.dom() =~= self.names@.dom());
        }
        out
    }
}

/// The value of wire `w` when the gates of `order` are evaluated in turn, each from the
/// values its inputs have before it; a given value overrides a gate's output.
pub open spec fn wire_val(given: Map<u64, bool>, order: Seq<Expr>, w: u64) -> bool
    decreases order.len(),
{
    if order.len() == 0 {
        if given.contains_key(w) {
            given[w]
        } else {
            false
        }
    } else {
        let e = order.last();
        if e.out == w && !given.contains_key(w) {
            bit_apply(
                e.op,
                wire_val(given, order.drop_last(), e.l),
                wire_val(given, order.drop_last(), e.r),
            )
        } else {
            wire_val(given, order.drop_last(), w)
        }
    }
}

/// Gates after position `m` that do not drive `w` do not change its value.
proof fn lemma_wire_val_skip(given: Map<u64, bool>, order: Seq<Expr>, w: u64, m: int)
    requires
        0 <= m <= order.len(),
        forall|k: int| m <= k < order.len() ==> (#[trigger] order[k]).out != w,
    ensures
        wire_val(given, order, w) == wire_val(given, order.take(m), w),
    decreases order.len(),
{
    if order.len() > m {
        assert(order[order.len() - 1] == order.last());
        assert forall|k: int| m <= k < order.drop_last().len() implies (
        #[trigger] order.drop_last()[k]).out != w by {
            assert(order.drop_last()[k] == order[k]);
        }
        lemma_wire_val_skip(given, order.drop_last(), w, m);
        assert(order.drop_last().take(m) =~= order.take(m));
    } else {
        assert(order.take(m) =~= order);
    }
}

/// The value of a node is the value of its wire when the gates are evaluated in the order
/// they joined the graph.
pub proof fn lemma_node_wire(c: Circuit, inputs: Seq<u64>, order: Seq<Expr>, given: Map<u64, bool>, i: int)
    requires
        c.wf(),
        built_as(c, inputs, order),
        0 <= i < c.size(),
    ensures
        c.value(given, i) == wire_val(given, order, c.nodes@[i].name),
    decreases i,
{
    let n_in = inputs.len() as int;
    let w = c.nodes@[i].name;
    assert(c.names@[c.nodes@[i].name] == i);
    if i < n_in {
        assert forall|k: int| 0 <= k < order.len() implies (#[trigger] order[k]).out != w by {
            assert(c.nodes@[n_in + k].name == order[k].out);
            assert(c.names@[c.nodes@[n_in + k].name] == n_in + k);
        }
        lemma_wire_val_skip(given, order, w, 0);
        assert(order.take(0) =~= seq![]);
    } else {
        let j = i - n_in;
        assert(c.nodes@[n_in + j].name == order[j].out);
        assert forall|k: int| j + 1 <= k < order.len() implies (#[trigger] order[k]).out != w by {
            assert(c.nodes@[n_in + k].name == order[k].out);
            assert(c.names@[c.nodes@[n_in + k].name] == n_in + k);
        }
        lemma_wire_val_skip(given, order, w, j + 1);
        let t = order.take(j + 1);
        assert(t.last() == order[j]);
        assert(t.drop_last() =~= order.take(j));
        if given.contains_key(w) {
            assert forall|k: int| 0 <= k < order.take(j).len() implies (
            #[trigger] order.take(j)[k]).out != w by {
                assert(order.take(j)[k] == order[k]);
                assert(c.nodes@[n_in + k].name == order[k].out);
                assert(c.names@[c.nodes@[n_in + k].name] == n_in + k);
            }
            lemma_wire_val_skip(given, order.take(j), w, 0);
            assert(order.take(j).take(0) =~= seq![]);
        } else {
            let a = c.ins@[i].0 as int;
            let b = c.ins@[i].1 as int;
            assert(c.nodes@[i].op == Some(order[j].op));
            lemma_node_wire(c, inputs, order, given, a);
            lemma_node_wire(c, inputs, order, given, b);
            assert(c.nodes@[a].name == order[j].l);
            assert(c.nodes@[b].name == order[j].r);
            assert forall|k: int| j <= k < order.len() implies (#[trigger] order[k]).out != order[j].l by {
                assert(c.nodes@[n_in + k].name == order[k].out);
                assert(c.names@[c.nodes@[n_in + k].name] == n_in + k);
                assert(c.names@[c.nodes@[a].name] == a);
            }
            assert forall|k: int| j <= k < order.len() implies (#[trigger] order[k]).out != order[j].r by {
                assert(c.nodes@[n_in + k].name == order[k].out);
                assert(c.names@[c.nodes@[n_in + k].name] == n_in + k);
                assert(c.names@[c.nodes@[b].name] == b);
            }
            lemma_wire_val_skip(given, order, order[j].l, j);
            lemma_wire_val_skip(given, order, order[j].r, j);
        }
    }
}

// ---------------------------------------------------------------------------
// Wire names with a level

pub open spec fn code_first(c: u64) -> int {
    c as int / 0x400_0000_0000
}

pub open spec fn code_second(c: u64) -> int {
    (c as int / 0x20_0000) % 0x20_0000
}

pub open spec fn code_third(c: u64) -> int {
    c as int % 0x20_0000
}

/// A name made of a printable character and two decimal digits: the character and the
/// number the digits spell.
pub open spec fn parsed_name(c: u64) -> Option<(char, u32)> {
    if 33 <= code_first(c) <= 126 && 48 <= code_second(c) <= 57 && 48 <= code_third(c) <= 57 {
        Some((code_first(c) as char, ((code_second(c) - 48) * 10 + code_third(c) - 48) as u32))
    } else {
        None
    }
}

/// The character of a name like "x07".
pub open spec fn letter_of(w: u64) -> char {
    match parsed_name(w) {
        Some((ch, _)) => ch,
        None => ' ',
    }
}

/// The number of a name like "x07".
pub open spec fn level_of(w: u64) -> u32 {
    match parsed_name(w) {
        Some((_, k)) => k,
        None => 0,
    }
}

/// The code of the name made of `ch` and the two digits of `n`.
pub open spec fn indexed_code(ch: char, n: int) -> u64 {
    name_code(seq![ch, (48 + n / 10) as char, (48 + n % 10) as char])
}

/// The character and the number of a name like "x07".
pub fn parse_name(code: u64) -> (r: Option<(char, u32)>)
    ensures
        r == parsed_name(code),
{
    let a = code / 0x400_0000_0000;
    let b = (code / 0x20_0000) % 0x20_0000;
    let d = code % 0x20_0000;
    if 33 <= a && a <= 126 && 48 <= b && b <= 57 && 48 <= d && d <= 57 {
        let ch = (a as u8) as char;
        assert(ch == (a as int) as char);
        Some((ch, ((b - 48) * 10 + (d - 48)) as u32))
    } else {
        None
    }
}

/// A name built from a printable character and a number below 100 reads back as them.
pub proof fn lemma_indexed_code(ch: char, n: int)
    requires
        33 <= ch as int <= 126,
        0 <= n < 100,
    ensures
        parsed_name(indexed_code(ch, n)) == Some((ch, n as u32)),
{
    d24::lemma_code_digits(ch as int, 48 + n / 10, 48 + n % 10);
    let s = seq![ch, (48 + n / 10) as char, (48 + n % 10) as char];
    assert(s[0] == ch && s[1] as int == 48 + n / 10 && s[2] as int == 48 + n % 10);
}

/// Bit `i` of `u`.
pub open spec fn bit(u: u64, i: u32) -> bool {
    (u >> i) & 1 != 0
}

fn bit_i(u: u64, i: u32) -> (b: bool)
    requires
        i < 64,
    ensures
        b == bit(u, i),
{
    let b = (u >> i) & 1;
    b != 0
}

/// The input values for the numbers `x` and `y`: wire "xNN" of `wires` gets bit NN of `x`,
/// and wire "yNN" bit NN of `y`.
pub open spec fn xy_given(wires: Set<u64>, x: u64, y: u64) -> Map<u64, bool> {
    Map::new(
        |w: u64|
            wires.contains(w) && parsed_name(w) is Some && (letter_of(w) == 'x'
                || letter_of(w) == 'y'),
        |w: u64|
            if letter_of(w) == 'x' {
                bit(x, level_of(w))
            } else {
                bit(y, level_of(w))
            },
    )
}

/// The value of every wire as 1 or 0.
pub open spec fn node_bits(c: Circuit, given: Map<u64, bool>) -> Map<u64, u64> {
    Map::new(
        |w: u64| c.names@.contains_key(w),
        |w: u64|
            if c.value(given, c.names@[w] as int) {
                1u64
            } else {
                0u64
            },
    )
}

impl Circuit {
    /// Input wires are named "xNN" or "yNN", and the numbers of the "x", "y" and "z" wires
    /// are below 64.
    pub open spec fn adder_shaped(&self) -> bool {
        &&& forall|i: int|
            0 <= i < self.size() && (#[trigger] self.nodes@[i]).op is None ==> parsed_name(
                self.nodes@[i].name,
            ) is Some && (letter_of(self.nodes@[i].name) == 'x' || letter_of(self.nodes@[i].name)
                == 'y')
        &&& forall|w: u64| #[trigger]
            self.names@.contains_key(w) && parsed_name(w) is Some && (letter_of(w) == 'x'
                || letter_of(w) == 'y') ==> level_of(w) < 64
        &&& forall|k: int| 64 <= k < 100 ==> !self.names@.contains_key(#[trigger] z_code(k))
    }

    /// The number on the "z" wires when the "x" wires carry `x` and the "y" wires `y`.
    pub fn eval_from_inputs(&self, x: u64, y: u64) -> (z: u64)
        requires
            self.wf(),
            self.adder_shaped(),
        ensures
            z == z_number(node_bits(*self, xy_given(self.names@.dom(), x, y))),
    {
        let n = self.nodes.len();
        let ghost wires = self.names@.dom();
        let ghost given = xy_given(wires, x, y);
        let mut inputs: HashMap<u64, bool> = HashMap::new();
        let mut i: usize = 0;
        while i < n
            invariant
                n == self.size(),
                self.wf(),
                self.adder_shaped(),
                wires == self.names@.dom(),
                given == xy_given(wires, x, y),
                i <= n,
                forall|w: u64| #[trigger]
                    inputs@.contains_key(w) <==> given.contains_key(w) && self.names@[w] < i,
                forall|w: u64| #[trigger] inputs@.contains_key(w) ==> inputs@[w] == given[w],
            decreases n - i,
        {
            let name = self.nodes[i].name;
            proof {
                assert(self.names@[name] == i);
            }
            match parse_name(name) {
                Some((ch, k)) => {
                    if ch == 'x' {
                        inputs.insert(name, bit_i(x, k));
                    } else if ch == 'y' {
                        inputs.insert(name, bit_i(y, k));
                    }
                },
                None => {},
            }
            i += 1;
        }
        proof {
            assert forall|w: u64| #[trigger] inputs@.contains_key(w) implies self.names@.contains_key(w) by {}
            assert forall|j: int|
                0 <= j < self.size() && (#[trigger] self.nodes@[j]).op is None implies inputs@.contains_key(
                self.nodes@[j].name,
            ) by {
                assert(self.names@[self.nodes@[j].name] == j);
            }
            assert(inputs@ =~= given);
        }
        let outputs = self.eval(&inputs);
        let mut zs: HashMap<u64, u64> = HashMap::new();
        let mut i: usize = 0;
        while i < n
            invariant
                n == self.size(),
                self.wf(),
                i <= n,
                outputs@.dom() == self.names@.dom(),
                forall|w: u64| #[trigger]
                    outputs@.contains_key(w) ==> outputs@[w] == self.value(given, self.names@[w] as int),
                forall|w: u64| #[trigger]
                    zs@.contains_key(w) <==> self.names@.contains_key(w) && self.names@[w] < i,
                forall|w: u64| #[trigger] zs@.contains_key(w) ==> zs@[w] == node_bits(*self, given)[w],
            decreases n - i,
        {
            let name = self.nodes[i].name;
            proof {
                assert(self.names@[name] == i);
                assert(outputs@.contains_key(name));
            }
            let v = *outputs.get(&name).unwrap();
            zs.insert(name, if v { 1 } else { 0 });
            i += 1;
        }
        proof {
            assert(zs@ =~= node_bits(*self, given));
            assert forall|k: int|
                0 <= k < 100 && zs@.contains_key(#[trigger] z_code(k)) implies k < 64 && zs@[z_code(k)]
                <= 1 by {}
        }
        d24::read_z(&zs)
    }
}

// ---------------------------------------------------------------------------
// The first part

/// The gates can all be built: none drives a given wire or a wire another gate drives, and
/// every round finds gates whose inputs are known; the graph fits `u32` indices.
pub open spec fn buildable(known: Set<u64>, exprs: Seq<Expr>) -> bool {
    &&& forall|k: int| 0 <= k < exprs.len() ==> !known.contains(#[trigger] exprs[k].out)
    &&& forall|k: int, j: int|
        0 <= k < j < exprs.len() ==> (#[trigger] exprs[k]).out != (#[trigger] exprs[j]).out
    &&& build_order(known, exprs).len() == exprs.len()
    &&& known.len() + exprs.len() < u32::MAX
    &&& 2 * exprs.len() < u32::MAX
}

/// All wires: the given ones and the outputs of the gates.
pub open spec fn wires_of(known: Set<u64>, exprs: Seq<Expr>) -> Set<u64> {
    known.union(outs(build_order(known, exprs)))
}

/// The given wires are named "xNN" or "yNN", and the numbers of the "x", "y" and "z" wires
/// are below 64.
pub open spec fn adder_wires(known: Set<u64>, exprs: Seq<Expr>) -> bool {
    &&& forall|w: u64| #[trigger]
        known.contains(w) ==> parsed_name(w) is Some && (letter_of(w) == 'x' || letter_of(w) == 'y')
    &&& forall|w: u64| #[trigger]
        wires_of(known, exprs).contains(w) && parsed_name(w) is Some && (letter_of(w) == 'x'
            || letter_of(w) == 'y') ==> level_of(w) < 64
    &&& forall|k: int| 64 <= k < 100 ==> !wires_of(known, exprs).contains(#[trigger] z_code(k))
}

/// The value, 1 or 0, of every wire when the gates are evaluated in the order they are
/// built, from the given values.
pub open spec fn wire_bits(known: Set<u64>, exprs: Seq<Expr>, given: Map<u64, bool>) -> Map<u64, u64> {
    Map::new(
        |w: u64| wires_of(known, exprs).contains(w),
        |w: u64|
            if wire_val(given, build_order(known, exprs), w) {
                1u64
            } else {
                0u64
            },
    )
}

/// The number on the "z" wires of the circuit with input `x` on the "x" wires and `y` on the
/// "y" wires.
pub open spec fn adder_output(known: Set<u64>, exprs: Seq<Expr>, x: u64, y: u64) -> int {
    z_number(wire_bits(known, exprs, xy_given(wires_of(known, exprs), x, y)))
}

/// The x of the first part.
pub const PART1_X: u64 = 0b100001101011111001100100010100101111010101111;

/// The y of the first part.
pub const PART1_Y: u64 = 0b101001011110111101011000010101100010000011111;

/// The keys of the map, in the map's order.
fn wire_list(vals: &HashMap<u64, u64>) -> (inputs: Vec<u64>)
    ensures
        inputs@.no_duplicates(),
        inputs@.to_set() == vals@.dom(),
{
    let mut inputs: Vec<u64> = Vec::new();
    for k in it: vals.keys()
        invariant
            it.seq().unref().to_set() == vals@.dom(),
            it.seq().unref().no_duplicates(),
            inputs@ == it.seq().unref().take(it.index() as int),
            inputs@.no_duplicates(),
            forall|x: u64| #[trigger]
                inputs@.contains(x) <==> vals@.contains_key(x) && !d24::pending(
                    it.seq(),
                    it.index() as int,
                    x,
                ),
    {
        let ghost i0 = it.index();
        let ghost ks = it.seq();
        let ghost before = inputs@;
        proof {
            assert(ks[i0 as int] == k);
            assert(ks.unref()[i0 as int] == *k);
            assert(ks.unref().to_set().contains(*k));
            assert(d24::pending(ks, i0 as int, *k));
            assert(!before.contains(*k));
        }
        inputs.push(*k);
        proof {
            assert(ks.unref().take(i0 + 1) =~= inputs@);
            assert forall|x: u64| #[trigger] inputs@.contains(x) implies vals@.contains_key(x)
                && !d24::pending(ks, i0 + 1, x) by {
                if x == *k {
                    if d24::pending(ks, i0 + 1, x) {
                        let i = choose|i: int| i0 + 1 <= i < ks.len() && *(#[trigger] ks[i]) == x;
                        assert(ks.unref()[i] == ks.unref()[i0 as int]);
                    }
                } else {
                    let j = choose|j: int| 0 <= j < inputs@.len() && inputs@[j] == x;
                    assert(j != i0);
                    assert(before[j] == x);
                    assert(before.contains(x));
                    if d24::pending(ks, i0 + 1, x) {
                        let i = choose|i: int| i0 + 1 <= i < ks.len() && *(#[trigger] ks[i]) == x;
                        assert(d24::pending(ks, i0 as int, x));
                    }
                }
            }
            assert forall|x: u64| vals@.contains_key(x) && !d24::pending(ks, i0 + 1, x) implies
                #[trigger] inputs@.contains(x) by {
                if x == *k {
                    assert(inputs@[i0 as int] == x);
                } else {
                    if d24::pending(ks, i0 as int, x) {
                        let i = choose|i: int| i0 <= i < ks.len() && *(#[trigger] ks[i]) == x;
                        assert(i != i0);
                        assert(d24::pending(ks, i0 + 1, x));
                    }
                    assert(before.contains(x));
                    let j = choose|j: int| 0 <= j < before.len() && before[j] == x;
                    assert(inputs@[j] == x);
                }
            }
        }
    }
    proof {
        assert forall|x: u64| #[trigger] inputs@.to_set().contains(x) <==> vals@.dom().contains(x) by {
            if vals@.dom().contains(x) {
                assert(inputs@.contains(x));
            }
        }
        assert(inputs@.to_set() =~= vals@.dom());
    }
    inputs
}

/// What a circuit built from `inputs` and the gates `exprs` holds, seen by wire.
proof fn lemma_built_wires(c: Circuit, inputs: Seq<u64>, exprs: Seq<Expr>, x: u64, y: u64)
    requires
        c.wf(),
        built_as(c, inputs, build_order(inputs.to_set(), exprs)),
    ensures
        c.names@.dom() == wires_of(inputs.to_set(), exprs),
        forall|w: u64| #[trigger]
            c.names@.contains_key(w) ==> c.value(xy_given(c.names@.dom(), x, y), c.names@[w] as int)
                == wire_val(
                xy_given(c.names@.dom(), x, y),
                build_order(inputs.to_set(), exprs),
                w,
            ),
        forall|i: int|
            0 <= i < c.size() && (#[trigger] c.nodes@[i]).op is None ==> inputs.to_set().contains(
                c.nodes@[i].name,
            ),
{
    let order = build_order(inputs.to_set(), exprs);
    let n_in = inputs.len() as int;
    assert forall|w: u64| c.names@.contains_key(w) <==> #[trigger] wires_of(inputs.to_set(), exprs).contains(
        w,
    ) by {
        if c.names@.contains_key(w) {
            let i = c.names@[w] as int;
            assert(c.nodes@[i].name == w);
            if i < n_in {
                assert(inputs.contains(w));
            } else {
                assert(c.nodes@[n_in + (i - n_in)].name == order[i - n_in].out);
                assert(outs(order).contains(w));
            }
        }
        if inputs.to_set().contains(w) {
            let k = choose|k: int| 0 <= k < inputs.len() && inputs[k] == w;
            assert(c.nodes@[k].name == inputs[k]);
        }
        if outs(order).contains(w) {
            let k = choose|k: int| 0 <= k < order.len() && (#[trigger] order[k]).out == w;
            assert(c.nodes@[n_in + k].name == order[k].out);
        }
    }
    assert(c.names@.dom() =~= wires_of(inputs.to_set(), exprs));
    assert forall|w: u64| #[trigger] c.names@.contains_key(w) implies c.value(
        xy_given(c.names@.dom(), x, y),
        c.names@[w] as int,
    ) == wire_val(xy_given(c.names@.dom(), x, y), order, w) by {
        lemma_node_wire(c, inputs, order, xy_given(c.names@.dom(), x, y), c.names@[w] as int);
    }
    assert forall|i: int|
        0 <= i < c.size() && (#[trigger] c.nodes@[i]).op is None implies inputs.to_set().contains(
        c.nodes@[i].name,
    ) by {
        if i >= n_in {
            assert(c.nodes@[n_in + (i - n_in)].op == Some(order[i - n_in].op));
        } else {
            assert(inputs.contains(inputs[i]));
        }
    }
}

/// The number the circuit of the input outputs for a fixed pair of numbers.
pub fn part1(input: &str) -> (z: u64)
    requires
        d24::valid_input(input@),
        buildable(d24::init_of(input@).dom(), d24::exprs_of(input@)),
        adder_wires(d24::init_of(input@).dom(), d24::exprs_of(input@)),
    ensures
        z == adder_output(d24::init_of(input@).dom(), d24::exprs_of(input@), PART1_X, PART1_Y),
{
    let (vals, exprs) = parse_input(input);
    let ghost known = vals@.dom();
    let ghost es = exprs@;
    let inputs = wire_list(&vals);
    proof {
        inputs@.unique_seq_to_set();
    }
    let circuit = Circuit::new(inputs, exprs);
    proof {
        lemma_built_wires(circuit, inputs@, es, PART1_X, PART1_Y);
        assert(circuit.adder_shaped());
    }
    let x: u64 = PART1_X;
    let y: u64 = PART1_Y;
    let z = circuit.eval_from_inputs(x, y);
    proof {
        let given = xy_given(circuit.names@.dom(), x, y);
        assert(node_bits(circuit, given) =~= wire_bits(known, es, given));
    }
    z
}

// ---------------------------------------------------------------------------
// The second part

/// The lines to replace, each with its replacement: the outputs of four pairs of gates
/// swapped back.
pub open spec fn swap_table() -> Seq<(Seq<char>, Seq<char>)> {
    seq![
        ("sjd XOR mcr -> mvb"@, "sjd XOR mcr -> z08"@),
        ("mcr AND sjd -> z08"@, "mcr AND sjd -> mvb"@),
        ("x14 AND y14 -> rds"@, "x14 AND y14 -> jss"@),
        ("x14 XOR y14 -> jss"@, "x14 XOR y14 -> rds"@),
        ("x18 AND y18 -> z18"@, "x18 AND y18 -> wss"@),
        ("mfk XOR fmm -> wss"@, "mfk XOR fmm -> z18"@),
        ("fwj OR vsq -> z23"@, "fwj OR vsq -> bmn"@),
        ("qmd XOR bpr -> bmn"@, "qmd XOR bpr -> z23"@),
    ]
}

/// The replacement of the first entry from `k` on for line `l`, or `l` itself.
pub open spec fn swap_from(t: Seq<(Seq<char>, Seq<char>)>, l: Seq<char>, k: int) -> Seq<char>
    decreases t.len() - k,
{
    if k < 0 || k >= t.len() {
        l
    } else if t[k].0 == l {
        t[k].1
    } else {
        swap_from(t, l, k + 1)
    }
}

/// The input with the swapped lines replaced, its lines joined by '\n'.
pub open spec fn swapped_text(input: Seq<char>) -> Seq<char> {
    text::join(
        parse::lines_of(input).map_values(|l: Seq<char>| swap_from(swap_table(), l, 0)),
        "\n"@,
    )
}

fn swaps() -> (v: Vec<(&'static str, &'static str)>)
    ensures
        v@.len() == swap_table().len(),
        forall|k: int| 0 <= k < v@.len() ==> (#[trigger] v@[k]).0@ == swap_table()[k].0 && v@[k].1@
            == swap_table()[k].1,
{
    vec![
        ("sjd XOR mcr -> mvb", "sjd XOR mcr -> z08"),
        ("mcr AND sjd -> z08", "mcr AND sjd -> mvb"),
        ("x14 AND y14 -> rds", "x14 AND y14 -> jss"),
        ("x14 XOR y14 -> jss", "x14 XOR y14 -> rds"),
        ("x18 AND y18 -> z18", "x18 AND y18 -> wss"),
        ("mfk XOR fmm -> wss", "mfk XOR fmm -> z18"),
        ("fwj OR vsq -> z23", "fwj OR vsq -> bmn"),
        ("qmd XOR bpr -> bmn", "qmd XOR bpr -> z23"),
    ]
}

/// Whether `cs[b..e]` spells `key`.
fn span_is(cs: &Vec<char>, b: usize, e: usize, key: &str) -> (r: bool)
    requires
        b <= e <= cs@.len(),
    ensures
        r == (cs@.subrange(b as int, e as int) == key@),
{
    let k = parse::chars_of(key);
    if e - b != k.len() {
        assert(cs@.subrange(b as int, e as int).len() != key@.len());
        return false;
    }
    let mut i: usize = 0;
    while i < k.len()
        invariant
            b <= e <= cs@.len(),
            e - b == k@.len(),
            k@ == key@,
            i <= k@.len(),
            forall|j: int| 0 <= j < i ==> cs@[b + j] == k@[j],
        decreases k@.len() - i,
    {
        if cs[b + i] != k[i] {
            assert(cs@.subrange(b as int, e as int)[i as int] != key@[i as int]);
            return false;
        }
        i += 1;
    }
    assert(cs@.subrange(b as int, e as int) =~= key@);
    true
}

/// The input with each line of the swap table replaced.
pub fn apply_swaps(input: &str) -> (s: String)
    ensures
        s@ == swapped_text(input@),
{
    let table = swaps();
    let cs = parse::chars_of(input);
    let spans = parse::line_spans(&cs, 0, cs.len());
    let ghost lines = parse::lines_of(input@);
    proof {
        assert(cs@.subrange(0, cs@.len() as int) =~= input@);
    }
    let mut parts: Vec<String> = Vec::new();
    let mut k: usize = 0;
    while k < spans.len()
        invariant
            cs@ == input@,
            lines == parse::lines_of(input@),
            spans@.len() == lines.len(),
            forall|j: int|
                0 <= j < spans@.len() ==> {
                    let (b, e) = #[trigger] spans@[j];
                    &&& b <= e <= cs@.len()
                    &&& cs@.subrange(b as int, e as int) == lines[j]
                },
            table@.len() == swap_table().len(),
            forall|j: int| 0 <= j < table@.len() ==> (#[trigger] table@[j]).0@ == swap_table()[j].0
                && table@[j].1@ == swap_table()[j].1,
            k <= spans@.len(),
            parts@.map_values(|p: String| p@) == lines.take(k as int).map_values(
                |l: Seq<char>| swap_from(swap_table(), l, 0),
            ),
        decreases spans@.len() - k,
    {
        let (b, e) = spans[k];
        let ghost line = lines[k as int];
        let mut found: Option<usize> = None;
        let mut j: usize = 0;
        while j < table.len()
            invariant
                b <= e <= cs@.len(),
                cs@.subrange(b as int, e as int) == line,
                table@.len() == swap_table().len(),
                forall|i: int| 0 <= i < table@.len() ==> (#[trigger] table@[i]).0@ == swap_table()[i].0
                    && table@[i].1@ == swap_table()[i].1,
                j <= table@.len(),
                match found {
                    Some(i) => i < table@.len() && swap_from(swap_table(), line, 0) == swap_table()[i as int].1,
                    None => swap_from(swap_table(), line, 0) == swap_from(swap_table(), line, j as int),
                },
            decreases table@.len() - j,
        {
            if found.is_none() {
                let (key, _) = table[j];
                if span_is(&cs, b, e, key) {
                    found = Some(j);
                }
            }
            j += 1;
        }
        let part = match found {
            Some(i) => String::from_str(table[i].1),
            None => String::from_str(input.substring_char(b, e)),
        };
        let ghost before = parts@;
        parts.push(part);
        proof {
            assert(parts@.map_values(|p: String| p@) =~= before.map_values(|p: String| p@).push(
                swap_from(swap_table(), line, 0),
            ));
            assert(lines.take(k + 1) =~= lines.take(k as int).push(line));
            assert(lines.take(k + 1).map_values(|l: Seq<char>| swap_from(swap_table(), l, 0))
                =~= lines.take(k as int).map_values(|l: Seq<char>| swap_from(swap_table(), l, 0)).push(
                swap_from(swap_table(), line, 0),
            ));
        }
        k += 1;
    }
    proof {
        assert(lines.take(lines.len() as int) =~= lines);
    }
    text::slice_to_line(parts.as_slice(), "\n")
}

/// `a` comes before `b`, or equals it, in the order of `str`: character by character,
/// a prefix first (for UTF-8, the order of the bytes is that of the characters).
pub open spec fn str_le(a: Seq<char>, b: Seq<char>) -> bool
    decreases a.len(),
{
    if a.len() == 0 {
        true
    } else if b.len() == 0 {
        false
    } else if a[0] != b[0] {
        (a[0] as u32) < (b[0] as u32)
    } else {
        str_le(a.drop_first(), b.drop_first())
    }
}

/// `slice::sort` on string slices: afterwards they are in ascending order and are the same
/// strings as before.
/// Trusted: that `str`'s order is `str_le` and that the sort keeps the elements.
#[verifier::external_body]
fn sort_strs(v: &mut Vec<&str>)
    ensures
        final(v)@.len() == old(v)@.len(),
        final(v)@.map_values(|s: &str| s@).to_multiset() == old(v)@.map_values(|s: &str| s@).to_multiset(),
        forall|i: int, j: int|
            0 <= i < j < final(v)@.len() ==> str_le(#[trigger] final(v)@[i]@, #[trigger] final(v)@[j]@),
{
    v.sort();
}

/// The wires whose outputs were swapped.
pub open spec fn swapped_wires() -> Seq<Seq<char>> {
    seq!["z08"@, "mvb"@, "jss"@, "rds"@, "wss"@, "z18"@, "bmn"@, "z23"@]
}

/// `t` is the swapped wires in ascending order, joined by commas.
pub open spec fn swap_report(t: Seq<char>) -> bool {
    exists|s: Seq<Seq<char>>|
        s.to_multiset() == swapped_wires().to_multiset() && (forall|i: int, j: int|
            0 <= i < j < s.len() ==> str_le(#[trigger] s[i], #[trigger] s[j])) && t == text::join(
            s,
            ","@,
        )
}

/// A number below `max`, from the thread's random generator (`Rng::gen_range`).
/// Trusted: that `gen_range` gives a number of the range, and panics only on an empty one.
#[verifier::external_body]
fn random_below(max: u64) -> (r: u64)
    requires
        max > 0,
    ensures
        r < max,
{
    rand::thread_rng().gen_range(0..max)
}

/// The circuit adds any two 45-bit numbers.
pub open spec fn adds_up(known: Set<u64>, exprs: Seq<Expr>) -> bool {
    forall|x: u64, y: u64|
        x < 0x2000_0000_0000 && y < 0x2000_0000_0000 ==> #[trigger] adder_output(known, exprs, x, y)
            == x + y
}

/// The number the circuit puts on its "z" wires for the numbers `x` and `y`.
pub open spec fn circuit_sum(c: Circuit, x: u64, y: u64) -> int {
    z_number(node_bits(c, xy_given(c.names@.dom(), x, y)))
}

/// The circuit adds each pair of numbers right.
pub open spec fn pairs_add_up(c: Circuit, pairs: Seq<(u64, u64)>) -> bool {
    forall|k: int| 0 <= k < pairs.len() ==> circuit_sum(c, (#[trigger] pairs[k]).0, pairs[k].1) == pairs[k].0
        + pairs[k].1
}

/// Test the circuit on the given pairs of numbers: the names `swap_outs` joined by commas
/// when it adds every pair right, else "circuit is still broken".
pub fn test_report(c: &Circuit, swap_outs: &Vec<&str>, pairs: &Vec<(u64, u64)>) -> (r: String)
    requires
        c.wf(),
        c.adder_shaped(),
        forall|k: int| 0 <= k < pairs@.len() ==> (#[trigger] pairs@[k]).0 + pairs@[k].1 <= u64::MAX,
    ensures
        r@ == (if pairs_add_up(*c, pairs@) {
            text::join(swap_outs@.map_values(|s: &str| s@), ","@)
        } else {
            "circuit is still broken"@
        }),
{
    let mut fails: u64 = 0;
    let mut k: usize = 0;
    while k < pairs.len()
        invariant
            c.wf(),
            c.adder_shaped(),
            k <= pairs@.len(),
            forall|j: int| 0 <= j < pairs@.len() ==> (#[trigger] pairs@[j]).0 + pairs@[j].1 <= u64::MAX,
            fails == 0 <==> pairs_add_up(*c, pairs@.take(k as int)),
        decreases pairs@.len() - k,
    {
        let (x, y) = pairs[k];
        let z = c.eval_from_inputs(x, y);
        let z_expected = x + y;
        let delta_bits = z ^ z_expected;
        let ghost old_fails = fails;
        fails = fails | delta_bits;
        proof {
            assert(fails == 0 <==> old_fails == 0 && delta_bits == 0) by (bit_vector)
                requires
                    fails == old_fails | delta_bits,
            ;
            assert(delta_bits == 0 <==> z == z_expected) by (bit_vector)
                requires
                    delta_bits == z ^ z_expected,
            ;
            let t0 = pairs@.take(k as int);
            let t1 = pairs@.take(k + 1);
            assert(t1 =~= t0.push((x, y)));
            if pairs_add_up(*c, t1) {
                assert(t1[k as int] == (x, y));
                assert forall|j: int| 0 <= j < t0.len() implies circuit_sum(*c, (#[trigger] t0[j]).0, t0[j].1)
                    == t0[j].0 + t0[j].1 by {
                    assert(t1[j] == t0[j]);
                }
            }
            if pairs_add_up(*c, t0) && z == z_expected {
                assert forall|j: int| 0 <= j < t1.len() implies circuit_sum(*c, (#[trigger] t1[j]).0, t1[j].1)
                    == t1[j].0 + t1[j].1 by {
                    if j < k {
                        assert(t1[j] == t0[j]);
                    }
                }
            }
        }
        k += 1;
    }
    proof {
        assert(pairs@.take(pairs@.len() as int) =~= pairs@);
    }
    if fails == 0 {
        let mut parts: Vec<String> = Vec::new();
        let mut i: usize = 0;
        while i < swap_outs.len()
            invariant
                i <= swap_outs@.len(),
                parts@.map_values(|p: String| p@) == swap_outs@.map_values(|s: &str| s@).take(i as int),
            decreases swap_outs@.len() - i,
        {
            let ghost before = parts@;
            let part = String::from_str(swap_outs[i]);
            parts.push(part);
            proof {
                let s = swap_outs@.map_values(|s: &str| s@);
                assert(part@ == s[i as int]);
                assert(parts@.map_values(|p: String| p@) =~= before.map_values(|p: String| p@).push(
                    part@,
                ));
                assert(s.take(i + 1) =~= s.take(i as int).push(s[i as int]));
            }
            i += 1;
        }
        proof {
            let s = swap_outs@.map_values(|s: &str| s@);
            assert(s.take(s.len() as int) =~= s);
        }
        text::slice_to_line(parts.as_slice(), ",")
    } else {
        String::from_str("circuit is still broken")
    }
}

/// Repair the circuit by swapping the outputs of four pairs of gates, and test it on ten
/// random sums of 45-bit numbers: the swapped wires, sorted and joined by commas, when every
/// test passes, else "circuit is still broken".
pub fn part2(input: &str) -> (r: String)
    requires
        d24::valid_input(swapped_text(input@)),
        buildable(
            d24::init_of(swapped_text(input@)).dom(),
            d24::exprs_of(swapped_text(input@)),
        ),
        adder_wires(
            d24::init_of(swapped_text(input@)).dom(),
            d24::exprs_of(swapped_text(input@)),
        ),
    ensures
        r@ == "circuit is still broken"@ || swap_report(r@),
        adds_up(
            d24::init_of(swapped_text(input@)).dom(),
            d24::exprs_of(swapped_text(input@)),
        ) ==> swap_report(r@),
        (forall|x: u64, y: u64|
            x < 0x2000_0000_0000 && y < 0x2000_0000_0000 ==> #[trigger] adder_output(
                d24::init_of(swapped_text(input@)).dom(),
                d24::exprs_of(swapped_text(input@)),
                x,
                y,
            ) != x + y) ==> r@ == "circuit is still broken"@,
{
    let swapped = apply_swaps(input);
    let mut swap_outs: Vec<&str> = vec!["z08", "mvb", "jss", "rds", "wss", "z18", "bmn", "z23"];
    let ghost listed = swap_outs@.map_values(|s: &str| s@);
    proof {
        assert(listed =~= swapped_wires());
    }
    sort_strs(&mut swap_outs);
    let (vals, exprs) = parse_input(swapped.as_str());
    let ghost known = vals@.dom();
    let ghost es = exprs@;
    let inputs = wire_list(&vals);
    proof {
        inputs@.unique_seq_to_set();
    }
    let circuit = Circuit::new(inputs, exprs);
    proof {
        lemma_built_wires(circuit, inputs@, es, 0, 0);
        assert(circuit.adder_shaped());
    }
    assert(1u64 << 45u64 == 0x2000_0000_0000) by (bit_vector);
    let max: u64 = 1 << 45;
    let mut pairs: Vec<(u64, u64)> = Vec::new();
    let mut k: usize = 0;
    while k < 10
        invariant
            circuit.wf(),
            circuit.adder_shaped(),
            circuit.names@.dom() == wires_of(known, es),
            known == inputs@.to_set(),
            built_as(circuit, inputs@, build_order(known, es)),
            max == 0x2000_0000_0000,
            k <= 10,
            pairs@.len() == k,
            forall|j: int|
                0 <= j < k ==> (#[trigger] pairs@[j]).0 < max && pairs@[j].1 < max && circuit_sum(
                    circuit,
                    pairs@[j].0,
                    pairs@[j].1,
                ) == adder_output(known, es, pairs@[j].0, pairs@[j].1),
        decreases 10 - k,
    {
        let x = random_below(max);
        let y = random_below(max);
        proof {
            lemma_built_wires(circuit, inputs@, es, x, y);
            let given = xy_given(circuit.names@.dom(), x, y);
            assert(node_bits(circuit, given) =~= wire_bits(known, es, given));
        }
        let ghost before = pairs@;
        pairs.push((x, y));
        proof {
            assert forall|j: int| 0 <= j < k + 1 implies (#[trigger] pairs@[j]).0 < max && pairs@[j].1 < max
                && circuit_sum(circuit, pairs@[j].0, pairs@[j].1) == adder_output(
                known,
                es,
                pairs@[j].0,
                pairs@[j].1,
            ) by {
                if j < k {
                    assert(pairs@[j] == before[j]);
                }
            }
        }
        k += 1;
    }
    let r = test_report(&circuit, &swap_outs, &pairs);
    proof {
        let s = swap_outs@.map_values(|s: &str| s@);
        assert forall|i: int, j: int| 0 <= i < j < s.len() implies str_le(
            #[trigger] s[i],
            #[trigger] s[j],
        ) by {
            assert(str_le(swap_outs@[i]@, swap_outs@[j]@));
        }
        if pairs_add_up(circuit, pairs@) {
            assert(swap_report(r@));
        }
        if adds_up(known, es) {
            assert forall|j: int| 0 <= j < pairs@.len() implies circuit_sum(
                circuit,
                (#[trigger] pairs@[j]).0,
                pairs@[j].1,
            ) == pairs@[j].0 + pairs@[j].1 by {
                assert(adder_output(known, es, pairs@[j].0, pairs@[j].1) == pairs@[j].0 + pairs@[j].1);
            }
        }
        if forall|x: u64, y: u64|
            x < 0x2000_0000_0000 && y < 0x2000_0000_0000 ==> #[trigger] adder_output(known, es, x, y) != x + y {
            assert(pairs@[0].0 < max);
            assert(adder_output(known, es, pairs@[0].0, pairs@[0].1) != pairs@[0].0 + pairs@[0].1);
            assert(!pairs_add_up(circuit, pairs@));
        }
    }
    r
}

// ---------------------------------------------------------------------------
// Mnemonic names for the parts of the adder

/// Whether gate `i`, driven by `op`, takes its inputs from wires named `l_parent` and
/// `r_parent` with the same number, its own name not being one of that form yet: that
/// number. The inputs are taken as the graph lists them, most recently added edge first:
/// the right input, then the left.
pub open spec fn half_fit(nodes: Seq<Node>, ins: Seq<(usize, usize)>, i: int, l_parent: char, r_parent: char, op: Op) -> Option<u32> {
    let a = nodes[ins[i].1 as int].name;
    let b = nodes[ins[i].0 as int].name;
    if nodes[i].op != Some(op) || parsed_name(nodes[i].name) is Some {
        None
    } else if parsed_name(a) is Some && parsed_name(b) is Some && letter_of(a) == l_parent
        && letter_of(b) == r_parent && level_of(a) == level_of(b) {
        Some(level_of(a))
    } else {
        None
    }
}

/// `half_fit` with the parents in either order.
pub open spec fn pattern_fit(nodes: Seq<Node>, ins: Seq<(usize, usize)>, i: int, p1: char, p2: char, op: Op) -> Option<u32> {
    match half_fit(nodes, ins, i, p1, p2, op) {
        Some(l) => Some(l),
        None => half_fit(nodes, ins, i, p2, p1, op),
    }
}

/// True if the parents are at the same level and named by the given characters, and the
/// node itself has the given operation: that level.
pub fn fits_half_pattern(c: &Circuit, i: usize, l_parent: char, r_parent: char, op: Op) -> (r: Option<u32>)
    requires
        i < c.nodes@.len(),
        c.ins@.len() == c.nodes@.len(),
        c.nodes@[i as int].op is Some ==> c.ins@[i as int].0 < c.nodes@.len() && c.ins@[i as int].1
            < c.nodes@.len(),
    ensures
        r == half_fit(c.nodes@, c.ins@, i as int, l_parent, r_parent, op),
{
    let node = c.nodes[i];
    match node.op {
        Some(o) => {
            if o != op {
                return None;
            }
        },
        None => {
            return None;
        },
    }
    if parse_name(node.name).is_some() {
        return None;
    }
    let (li, ri) = c.ins[i];
    let l = parse_name(c.nodes[ri].name);
    let r = parse_name(c.nodes[li].name);
    match (l, r) {
        (Some((ln, lv)), Some((rn, rv))) => {
            if ln == l_parent && rn == r_parent && lv == rv {
                Some(lv)
            } else {
                None
            }
        },
        _ => None,
    }
}

/// `fits_half_pattern` with the parents in either order.
pub fn fits_pattern(c: &Circuit, i: usize, parent_1: char, parent_2: char, op: Op) -> (r: Option<u32>)
    requires
        i < c.nodes@.len(),
        c.ins@.len() == c.nodes@.len(),
        c.nodes@[i as int].op is Some ==> c.ins@[i as int].0 < c.nodes@.len() && c.ins@[i as int].1
            < c.nodes@.len(),
    ensures
        r == pattern_fit(c.nodes@, c.ins@, i as int, parent_1, parent_2, op),
{
    let a = fits_half_pattern(c, i, parent_1, parent_2, op);
    let b = fits_half_pattern(c, i, parent_2, parent_1, op);
    match a {
        Some(v) => Some(v),
        None => b,
    }
}

impl Circuit {
    /// Give the node of wire `src` the name `dst`.
    pub fn rename_node(&mut self, src: u64, dst: u64)
        requires
            old(self).names@.contains_key(src),
            old(self).names@[src] < old(self).nodes@.len(),
        ensures
            final(self).names@ == old(self).names@.remove(src).insert(dst, old(self).names@[src]),
            final(self).nodes@ == old(self).nodes@.update(
                old(self).names@[src] as int,
                Node { name: dst, op: old(self).nodes@[old(self).names@[src] as int].op },
            ),
            final(self).ins@ == old(self).ins@,
            final(self).topo@ == old(self).topo@,
    {
        let i = self.names.remove(&src).unwrap();
        self.names.insert(dst, i);
        let op = self.nodes[i].op;
        self.nodes.set(i, Node { name: dst, op });
    }
}

/// The code of the name of character `ch` and the two digits of `n`.
fn mnemonic(ch: char, n: u32) -> (code: u64)
    requires
        33 <= ch as int <= 126,
        n < 100,
    ensures
        code == indexed_code(ch, n as int),
{
    proof {
        d24::lemma_code_digits(ch as int, 48 + n / 10, 48 + n % 10);
        let s = seq![ch, (48 + n / 10) as char, (48 + n % 10) as char];
        assert(s[0] == ch && s[1] as int == 48 + n / 10 && s[2] as int == 48 + n % 10);
    }
    (ch as u64) * 0x400_0000_0000 + (48 + (n as u64) / 10) * 0x20_0000 + (48 + (n as u64) % 10)
}

/// Number of the first `k` nodes whose name is not yet of the form "x07".
pub open spec fn unnamed_count(nodes: Seq<Node>, k: int) -> nat
    decreases k,
{
    if k <= 0 {
        0
    } else {
        unnamed_count(nodes, k - 1) + if parsed_name(nodes[k - 1].name) is None {
            1nat
        } else {
            0
        }
    }
}

/// What renaming keeps: nodes with a name not of the form "x07" have names of their own,
/// which lead to them; every name leads to a node; names of that form have numbers below 99,
/// and below 98 for "x", "y" and "b".
pub open spec fn mnemonic_state(c: Circuit) -> bool {
    let n = c.nodes@.len();
    &&& c.ins@.len() == n
    &&& forall|i: int|
        0 <= i < n && (#[trigger] c.nodes@[i]).op is Some ==> c.ins@[i].0 < n && c.ins@[i].1 < n
    &&& forall|i: int|
        0 <= i < n && parsed_name((#[trigger] c.nodes@[i]).name) is None ==> c.names@.contains_key(
            c.nodes@[i].name,
        ) && c.names@[c.nodes@[i].name] == i
    &&& forall|w: u64| #[trigger] c.names@.contains_key(w) ==> c.names@[w] < n
    &&& forall|i: int|
        0 <= i < n && parsed_name((#[trigger] c.nodes@[i]).name) is Some ==> level_of(c.nodes@[i].name)
            <= 98 && (letter_of(c.nodes@[i].name) == 'x' || letter_of(c.nodes@[i].name) == 'y'
            || letter_of(c.nodes@[i].name) == 'b' ==> level_of(c.nodes@[i].name) <= 97)
}

proof fn lemma_unnamed_count(nodes: Seq<Node>, k: int)
    requires
        0 <= k <= nodes.len(),
    ensures
        unnamed_count(nodes, k) <= k,
    decreases k,
{
    if k > 0 {
        lemma_unnamed_count(nodes, k - 1);
    }
}

proof fn lemma_unnamed_update(nodes: Seq<Node>, i: int, node: Node, k: int)
    requires
        0 <= i < nodes.len(),
        0 <= k <= nodes.len(),
        parsed_name(nodes[i].name) is None,
        parsed_name(node.name) is Some,
    ensures
        unnamed_count(nodes.update(i, node), k) + if i < k {
            1nat
        } else {
            0
        } == unnamed_count(nodes, k),
    decreases k,
{
    if k > 0 {
        lemma_unnamed_update(nodes, i, node, k - 1);
    }
}

/// A name given to a gate by its part in the adder: "aNN" or "cNN" for an AND gate, "bNN"
/// for an XOR gate, "dNN" for an OR gate.
pub open spec fn mnemonic_for(op: Option<Op>, name: u64) -> bool {
    &&& parsed_name(name) is Some
    &&& level_of(name) < 100
    &&& ((letter_of(name) == 'a' || letter_of(name) == 'c') && op == Some(Op::And)) || (letter_of(name)
        == 'b' && op == Some(Op::Xor)) || (letter_of(name) == 'd' && op == Some(Op::Or))
}

/// `c` is `c0` with some names changed: the same nodes, inputs, ops and topological order;
/// a name of the form "x07" is kept, and a changed name is a mnemonic for its gate.
pub open spec fn renames_only(c0: Circuit, c: Circuit) -> bool {
    &&& c.nodes@.len() == c0.nodes@.len()
    &&& c.ins@ == c0.ins@
    &&& c.topo@ == c0.topo@
    &&& forall|i: int|
        0 <= i < c.nodes@.len() ==> (#[trigger] c.nodes@[i]).op == c0.nodes@[i].op && (c.nodes@[i].name
            == c0.nodes@[i].name || (parsed_name(c0.nodes@[i].name) is None && mnemonic_for(
            c.nodes@[i].op,
            c.nodes@[i].name,
        )))
}

/// Renaming twice is renaming once.
proof fn lemma_renames_trans(c0: Circuit, c1: Circuit, c2: Circuit)
    requires
        renames_only(c0, c1),
        renames_only(c1, c2),
    ensures
        renames_only(c0, c2),
{
    assert forall|i: int| 0 <= i < c2.nodes@.len() implies (#[trigger] c2.nodes@[i]).op == c0.nodes@[i].op
        && (c2.nodes@[i].name == c0.nodes@[i].name || (parsed_name(c0.nodes@[i].name) is None
        && mnemonic_for(c2.nodes@[i].op, c2.nodes@[i].name))) by {
        assert(c1.nodes@[i].op == c0.nodes@[i].op);
    }
}

/// If gate `i` fits the pattern, rename it to `letter` and the number (plus one if asked).
fn rename_if_fits(c: &mut Circuit, i: usize, p1: char, p2: char, op: Op, letter: char, next: bool) -> (renamed: bool)
    requires
        mnemonic_state(*old(c)),
        i < old(c).nodes@.len(),
        letter == 'a' || letter == 'b' || letter == 'c' || letter == 'd',
        letter == 'a' ==> p1 == 'x' && p2 == 'y' && next,
        letter == 'b' ==> p1 == 'x' && p2 == 'y' && !next,
        letter == 'c' ==> p1 == 'b' && next,
        letter == 'd' ==> p1 == 'a' && p2 == 'c' && !next,
        letter == 'a' || letter == 'c' ==> op == Op::And,
        letter == 'b' ==> op == Op::Xor,
        letter == 'd' ==> op == Op::Or,
    ensures
        mnemonic_state(*final(c)),
        renames_only(*old(c), *final(c)),
        final(c).ins@ == old(c).ins@,
        final(c).topo@ == old(c).topo@,
        final(c).nodes@.len() == old(c).nodes@.len(),
        renamed == (pattern_fit(old(c).nodes@, old(c).ins@, i as int, p1, p2, op) is Some),
        !renamed ==> *final(c) == *old(c),
        renamed ==> {
            let lvl = pattern_fit(old(c).nodes@, old(c).ins@, i as int, p1, p2, op)->0;
            &&& final(c).nodes@ == old(c).nodes@.update(
                i as int,
                Node {
                    name: indexed_code(letter, if next { lvl + 1 } else { lvl as int }),
                    op: old(c).nodes@[i as int].op,
                },
            )
            &&& unnamed_count(final(c).nodes@, final(c).nodes@.len() as int) + 1 == unnamed_count(
                old(c).nodes@,
                old(c).nodes@.len() as int,
            )
        },
{
    match fits_pattern(c, i, p1, p2, op) {
        Some(lvl) => {
            let ghost n = c.nodes@.len() as int;
            let ghost old_c = *c;
            let old_name = c.nodes[i].name;
            proof {
                let a = old_c.nodes@[old_c.ins@[i as int].1 as int].name;
                let b = old_c.nodes@[old_c.ins@[i as int].0 as int].name;
                assert(parsed_name(a) is Some);
                assert(parsed_name(b) is Some);
                assert(old_c.nodes@[old_c.ins@[i as int].1 as int] == old_c.nodes@[old_c.ins@[i as int].1 as int]);
                assert(old_c.nodes@[old_c.ins@[i as int].0 as int] == old_c.nodes@[old_c.ins@[i as int].0 as int]);
                assert(lvl <= 97 || (lvl <= 98 && !next));
            }
            let new_level = if next {
                lvl + 1
            } else {
                lvl
            };
            let new_name = mnemonic(letter, new_level);
            proof {
                lemma_indexed_code(letter, new_level as int);
                assert(old_c.names@[old_name] == i);
            }
            c.rename_node(old_name, new_name);
            proof {
                let node = Node { name: new_name, op: old_c.nodes@[i as int].op };
                lemma_unnamed_update(old_c.nodes@, i as int, node, n);
                assert forall|j: int|
                    0 <= j < n && parsed_name((#[trigger] c.nodes@[j]).name) is None implies c.names@.contains_key(
                    c.nodes@[j].name,
                ) && c.names@[c.nodes@[j].name] == j by {
                    assert(j != i);
                    assert(c.nodes@[j] == old_c.nodes@[j]);
                    assert(old_c.names@[old_c.nodes@[j].name] == j);
                    assert(old_c.nodes@[j].name != old_name);
                    assert(old_c.nodes@[j].name != new_name);
                }
                assert forall|j: int|
                    0 <= j < n && parsed_name((#[trigger] c.nodes@[j]).name) is Some implies level_of(
                    c.nodes@[j].name,
                ) <= 98 && (letter_of(c.nodes@[j].name) == 'x' || letter_of(c.nodes@[j].name) == 'y'
                    || letter_of(c.nodes@[j].name) == 'b' ==> level_of(c.nodes@[j].name) <= 97) by {
                    if j != i {
                        assert(c.nodes@[j] == old_c.nodes@[j]);
                    }
                }
                assert forall|j: int|
                    0 <= j < n && (#[trigger] c.nodes@[j]).op is Some implies c.ins@[j].0 < n
                    && c.ins@[j].1 < n by {
                    assert(c.nodes@[j].op == old_c.nodes@[j].op);
                }
                assert(old_c.nodes@[i as int].op == Some(op));
                assert(parsed_name(old_name) is None);
                assert(mnemonic_for(c.nodes@[i as int].op, c.nodes@[i as int].name));
                assert forall|j: int| 0 <= j < n implies (#[trigger] c.nodes@[j]).op == old_c.nodes@[j].op
                    && (c.nodes@[j].name == old_c.nodes@[j].name || (parsed_name(old_c.nodes@[j].name)
                    is None && mnemonic_for(c.nodes@[j].op, c.nodes@[j].name))) by {
                    if j != i {
                        assert(c.nodes@[j] == old_c.nodes@[j]);
                    }
                }
            }
            true
        },
        None => false,
    }
}

/// One pass over the nodes, renaming those that fit a pattern; how many were renamed.
fn mnemonic_pass(c: &mut Circuit) -> (replacements: usize)
    requires
        mnemonic_state(*old(c)),
    ensures
        mnemonic_state(*final(c)),
        renames_only(*old(c), *final(c)),
        final(c).ins@ == old(c).ins@,
        final(c).topo@ == old(c).topo@,
        final(c).nodes@.len() == old(c).nodes@.len(),
        replacements + unnamed_count(final(c).nodes@, final(c).nodes@.len() as int) == unnamed_count(
            old(c).nodes@,
            old(c).nodes@.len() as int,
        ),
        replacements == 0 ==> *final(c) == *old(c) && forall|i: int|
            0 <= i < final(c).nodes@.len() ==> no_pattern_fits(*final(c), i),
{
    let ghost c0 = *c;
    let n = c.nodes.len();
    let mut replacements: usize = 0;
    let mut i: usize = 0;
    proof {
        lemma_unnamed_count(c.nodes@, n as int);
    }
    while i < n
        invariant
            n == c.nodes@.len(),
            n == c0.nodes@.len(),
            i <= n,
            mnemonic_state(*c),
            renames_only(c0, *c),
            c.ins@ == c0.ins@,
            c.topo@ == c0.topo@,
            replacements + unnamed_count(c.nodes@, n as int) == unnamed_count(c0.nodes@, n as int),
            unnamed_count(c0.nodes@, n as int) <= n,
            replacements <= i,
            replacements == 0 ==> *c == c0 && forall|j: int| 0 <= j < i ==> no_pattern_fits(*c, j),
        decreases n - i,
    {
        let ghost s0 = *c;
        let r1 = rename_if_fits(c, i, 'x', 'y', Op::And, 'a', true);
        let ghost s1 = *c;
        let r2 = rename_if_fits(c, i, 'x', 'y', Op::Xor, 'b', false);
        let ghost s2 = *c;
        let r3 = rename_if_fits(c, i, 'b', 'a', Op::And, 'c', true);
        let ghost s3 = *c;
        let r4 = rename_if_fits(c, i, 'b', 'd', Op::And, 'c', true);
        let ghost s4 = *c;
        let r5 = rename_if_fits(c, i, 'a', 'c', Op::Or, 'd', false);
        proof {
            lemma_renames_trans(c0, s0, s1);
            lemma_renames_trans(c0, s1, s2);
            lemma_renames_trans(c0, s2, s3);
            lemma_renames_trans(c0, s3, s4);
            lemma_renames_trans(c0, s4, *c);
            lemma_unnamed_count(c.nodes@, n as int);
        }
        replacements += (r1 as usize) + (r2 as usize) + (r3 as usize) + (r4 as usize) + (r5 as usize);
        i += 1;
    }
    replacements
}

/// No pattern fits node `i`.
pub open spec fn no_pattern_fits(c: Circuit, i: int) -> bool {
    &&& pattern_fit(c.nodes@, c.ins@, i, 'x', 'y', Op::And) is None
    &&& pattern_fit(c.nodes@, c.ins@, i, 'x', 'y', Op::Xor) is None
    &&& pattern_fit(c.nodes@, c.ins@, i, 'b', 'a', Op::And) is None
    &&& pattern_fit(c.nodes@, c.ins@, i, 'b', 'd', Op::And) is None
    &&& pattern_fit(c.nodes@, c.ins@, i, 'a', 'c', Op::Or) is None
}

/// Rename the nodes that play a known part in the adder, until none is left: "aNN" for
/// x & y (the carry of the bit below), "bNN" for x ^ y, "cNN" for b & a or b & d (the carry
/// through the bit below), and "dNN" for a | c.
pub fn circuit_mnemonics(circuit: &mut Circuit)
    requires
        mnemonic_state(*old(circuit)),
    ensures
        mnemonic_state(*final(circuit)),
        renames_only(*old(circuit), *final(circuit)),
        final(circuit).ins@ == old(circuit).ins@,
        final(circuit).topo@ == old(circuit).topo@,
        final(circuit).nodes@.len() == old(circuit).nodes@.len(),
        forall|i: int| 0 <= i < final(circuit).nodes@.len() ==> no_pattern_fits(*final(circuit), i),
{
    let ghost c0 = *circuit;
    loop
        invariant
            mnemonic_state(*circuit),
            renames_only(c0, *circuit),
            circuit.ins@ == c0.ins@,
            circuit.topo@ == c0.topo@,
            circuit.nodes@.len() == c0.nodes@.len(),
        ensures
            mnemonic_state(*circuit),
            renames_only(c0, *circuit),
            circuit.ins@ == c0.ins@,
            circuit.topo@ == c0.topo@,
            circuit.nodes@.len() == c0.nodes@.len(),
            forall|i: int| 0 <= i < circuit.nodes@.len() ==> no_pattern_fits(*circuit, i),
        decreases unnamed_count(circuit.nodes@, circuit.nodes@.len() as int),
    {
        let ghost before = *circuit;
        let replacements = mnemonic_pass(circuit);
        proof {
            lemma_renames_trans(c0, before, *circuit);
        }
        if replacements == 0 {
            break;
        }
    }
}

} // verus!
