use crate::lgl::parse;
use std::collections::HashMap;
use vstd::prelude::*;

verus! {

broadcast use vstd::std_specs::hash::group_hash_axioms;

// ---------------------------------------------------------------------------
// Gates

#[derive(Clone, Copy, Debug, PartialEq, Eq, Structural)]
pub enum Op {
    And,
    Or,
    Xor,
}

/// What a gate computes from its two inputs.
pub open spec fn apply(op: Op, l: u64, r: u64) -> u64 {
    match op {
        Op::And => l & r,
        Op::Or => l | r,
        Op::Xor => l ^ r,
    }
}

/// A gate: the wires of its inputs and output, each named by its code.
#[derive(Clone, Copy, Debug)]
pub struct Expr {
    pub l: u64,
    pub op: Op,
    pub r: u64,
    pub out: u64,
}

impl Expr {
    /// What this gate outputs, once both inputs are known.
    pub fn eval(&self, vals: &HashMap<u64, u64>) -> (v: Option<u64>)
        ensures
            v == (if vals@.contains_key(self.l) && vals@.contains_key(self.r) {
                Some(apply(self.op, vals@[self.l], vals@[self.r]))
            } else {
                None
            }),
    {
        match (vals.get(&self.l), vals.get(&self.r)) {
            (Some(l), Some(r)) => Some(
                match self.op {
                    Op::And => *l & *r,
                    Op::Or => *l | *r,
                    Op::Xor => *l ^ *r,
                },
            ),
            _ => None,
        }
    }
}

/// The first gate whose output is `w`, among the first `n`.
pub open spec fn gate_of(exprs: Seq<Expr>, w: u64, n: int) -> Option<int>
    decreases n,
{
    if n <= 0 {
        None
    } else {
        match gate_of(exprs, w, n - 1) {
            Some(k) => Some(k),
            None => if exprs[n - 1].out == w {
                Some(n - 1)
            } else {
                None
            },
        }
    }
}

/// The value of wire `w`, computed through at most `d` layers of gates from the initial
/// values; `None` when it takes more, or never settles.
pub open spec fn val_at(init: Map<u64, u64>, exprs: Seq<Expr>, w: u64, d: nat) -> Option<u64>
    decreases d,
{
    if init.contains_key(w) {
        Some(init[w])
    } else if d == 0 {
        None
    } else {
        match gate_of(exprs, w, exprs.len() as int) {
            None => None,
            Some(k) => match (
                val_at(init, exprs, exprs[k].l, (d - 1) as nat),
                val_at(init, exprs, exprs[k].r, (d - 1) as nat),
            ) {
                (Some(a), Some(b)) => Some(apply(exprs[k].op, a, b)),
                _ => None,
            },
        }
    }
}

/// Each wire is the output of at most one gate and has no initial value when it is one.
pub open spec fn functional(init: Map<u64, u64>, exprs: Seq<Expr>) -> bool {
    &&& forall|k: int| 0 <= k < exprs.len() ==> !init.contains_key(#[trigger] exprs[k].out)
    &&& forall|k: int, k2: int|
        0 <= k < k2 < exprs.len() ==> (#[trigger] exprs[k]).out != (#[trigger] exprs[k2]).out
}

/// The depth that is enough for any wire: one layer per gate.
pub open spec fn depth(exprs: Seq<Expr>) -> nat {
    exprs.len()
}

/// Every gate's output settles.
pub open spec fn settles(init: Map<u64, u64>, exprs: Seq<Expr>) -> bool {
    forall|k: int|
        0 <= k < exprs.len() ==> val_at(init, exprs, (#[trigger] exprs[k]).out, depth(exprs)) is Some
}

proof fn lemma_gate_of(exprs: Seq<Expr>, w: u64, n: int, k: int)
    requires
        0 <= k < n <= exprs.len(),
        exprs[k].out == w,
        forall|k1: int, k2: int|
            0 <= k1 < k2 < exprs.len() ==> (#[trigger] exprs[k1]).out != (#[trigger] exprs[k2]).out,
    ensures
        gate_of(exprs, w, n) == Some(k),
    decreases n,
{
    if k < n - 1 {
        lemma_gate_of(exprs, w, n - 1, k);
    } else {
        lemma_gate_of_none(exprs, w, n - 1);
    }
}

proof fn lemma_gate_of_none(exprs: Seq<Expr>, w: u64, n: int)
    requires
        0 <= n < exprs.len(),
        exprs[n].out == w,
        forall|k1: int, k2: int|
            0 <= k1 < k2 < exprs.len() ==> (#[trigger] exprs[k1]).out != (#[trigger] exprs[k2]).out,
    ensures
        gate_of(exprs, w, n) is None,
    decreases n,
{
    if n > 0 {
        lemma_gate_of_none_below(exprs, w, n - 1, n);
    }
}

proof fn lemma_gate_of_none_below(exprs: Seq<Expr>, w: u64, m: int, n: int)
    requires
        0 <= m < n < exprs.len(),
        exprs[n].out == w,
        forall|k1: int, k2: int|
            0 <= k1 < k2 < exprs.len() ==> (#[trigger] exprs[k1]).out != (#[trigger] exprs[k2]).out,
    ensures
        gate_of(exprs, w, m + 1) is None,
    decreases m,
{
    assert(exprs[m].out != exprs[n].out);
    if m > 0 {
        lemma_gate_of_none_below(exprs, w, m - 1, n);
    }
}

proof fn lemma_gate_of_found(exprs: Seq<Expr>, w: u64, n: int)
    requires
        0 <= n <= exprs.len(),
    ensures
        gate_of(exprs, w, n) matches Some(k) ==> 0 <= k < n && exprs[k].out == w,
    decreases n,
{
    if n > 0 {
        lemma_gate_of_found(exprs, w, n - 1);
    }
}

/// A value found within `d` layers is found within more.
proof fn lemma_val_mono(init: Map<u64, u64>, exprs: Seq<Expr>, w: u64, d: nat, e: nat)
    requires
        val_at(init, exprs, w, d) is Some,
        d <= e,
    ensures
        val_at(init, exprs, w, e) == val_at(init, exprs, w, d),
    decreases d,
{
    if !init.contains_key(w) && d > 0 {
        lemma_gate_of_found(exprs, w, exprs.len() as int);
        let k = gate_of(exprs, w, exprs.len() as int)->0;
        lemma_val_mono(init, exprs, exprs[k].l, (d - 1) as nat, (e - 1) as nat);
        lemma_val_mono(init, exprs, exprs[k].r, (d - 1) as nat, (e - 1) as nat);
    }
}

/// Wire `w` is a gate's output.
pub open spec fn is_out(exprs: Seq<Expr>, w: u64) -> bool {
    exists|k: int| 0 <= k < exprs.len() && (#[trigger] exprs[k]).out == w
}

/// The values found so far are those of the circuit.
#[verifier::opaque]
pub open spec fn sound(init: Map<u64, u64>, all: Seq<Expr>, vals: Map<u64, u64>) -> bool {
    &&& forall|w: u64| #[trigger] init.contains_key(w) ==> vals.contains_key(w) && vals[w] == init[w]
    &&& forall|w: u64| #[trigger] vals.contains_key(w) ==> init.contains_key(w) || is_out(all, w)
    &&& forall|w: u64|
        #[trigger] vals.contains_key(w) ==> exists|d: nat| val_at(init, all, w, d) == Some(vals[w])
}

/// Evaluating gate `k` once both inputs are known keeps the values those of the circuit.
proof fn lemma_sound_insert(init: Map<u64, u64>, all: Seq<Expr>, vals: Map<u64, u64>, k: int)
    requires
        functional(init, all),
        sound(init, all, vals),
        0 <= k < all.len(),
        vals.contains_key(all[k].l),
        vals.contains_key(all[k].r),
    ensures
        sound(init, all, vals.insert(all[k].out, apply(all[k].op, vals[all[k].l], vals[all[k].r]))),
{
    reveal(sound);
    let e = all[k];
    let v = apply(e.op, vals[e.l], vals[e.r]);
    let nv = vals.insert(e.out, v);
    let dl = choose|d: nat| val_at(init, all, e.l, d) == Some(vals[e.l]);
    let dr = choose|d: nat| val_at(init, all, e.r, d) == Some(vals[e.r]);
    let dm = if dl < dr { dr } else { dl };
    lemma_val_mono(init, all, e.l, dl, dm);
    lemma_val_mono(init, all, e.r, dr, dm);
    lemma_gate_of(all, e.out, all.len() as int, k);
    assert(!init.contains_key(e.out));
    assert(val_at(init, all, e.out, dm + 1) == Some(v));
    assert(is_out(all, e.out));
    assert forall|w: u64| #[trigger] nv.contains_key(w) implies exists|d: nat| val_at(init, all, w, d) == Some(nv[w]) by {
        if w == e.out {
            assert(val_at(init, all, w, dm + 1) == Some(nv[w]));
        } else {
            assert(vals.contains_key(w));
        }
    }
}

/// The gates `es` are the gates of `all` at the positions `idx`.
pub open spec fn at_positions(all: Seq<Expr>, es: Seq<Expr>, idx: Seq<int>) -> bool {
    &&& es.len() == idx.len()
    &&& forall|j: int| 0 <= j < es.len() ==> 0 <= #[trigger] idx[j] < all.len() && es[j] == all[idx[j]]
}

/// Every gate of `all` whose output is not known yet has its position in `idx`.
#[verifier::opaque]
pub open spec fn waiting_in(all: Seq<Expr>, vals: Map<u64, u64>, idx: Seq<int>) -> bool {
    forall|k: int|
        0 <= k < all.len() && !vals.contains_key(#[trigger] all[k].out) ==> exists|j: int|
            0 <= j < idx.len() && idx[j] == k
}

/// Every gate whose output is known within `t` layers has been found.
#[verifier::opaque]
pub open spec fn found_upto(init: Map<u64, u64>, all: Seq<Expr>, vals: Map<u64, u64>, t: nat) -> bool {
    forall|k: int|
        0 <= k < all.len() && val_at(init, all, (#[trigger] all[k]).out, t) is Some ==> vals.contains_key(
            all[k].out,
        )
}

/// While gates wait, fewer rounds than gates have passed.
proof fn lemma_round_start(
    init: Map<u64, u64>,
    all: Seq<Expr>,
    vals: Map<u64, u64>,
    es: Seq<Expr>,
    idx: Seq<int>,
    t: nat,
)
    requires
        settles(init, all),
        at_positions(all, es, idx),
        found_upto(init, all, vals, t),
        t > 0 ==> forall|j: int| 0 <= j < es.len() ==> !vals.contains_key((#[trigger] es[j]).out),
        t <= all.len(),
        es.len() > 0,
    ensures
        t < all.len(),
{
    let k = idx[0];
    if t == all.len() {
        reveal(found_upto);
        assert(val_at(init, all, all[k].out, depth(all)) is Some);
        assert(vals.contains_key(all[k].out));
        assert(!vals.contains_key(es[0].out));
    }
}

/// After a round, every gate whose output is known within one more layer has been found.
#[verifier::spinoff_prover]
proof fn lemma_round_found(
    init: Map<u64, u64>,
    all: Seq<Expr>,
    start: Map<u64, u64>,
    vals: Map<u64, u64>,
    before: Seq<Expr>,
    idx: Seq<int>,
    t: nat,
)
    requires
        functional(init, all),
        forall|w: u64| #[trigger] init.contains_key(w) ==> start.contains_key(w),
        forall|w: u64| #[trigger] start.contains_key(w) ==> vals.contains_key(w),
        found_upto(init, all, start, t),
        at_positions(all, before, idx),
        waiting_in(all, start, idx),
        forall|j: int|
            0 <= j < before.len() && start.contains_key((#[trigger] before[j]).l) && start.contains_key(before[j].r)
                ==> vals.contains_key(before[j].out),
    ensures
        found_upto(init, all, vals, t + 1),
{
    reveal(found_upto);
    reveal(waiting_in);
    assert forall|k: int|
        0 <= k < all.len() && val_at(init, all, (#[trigger] all[k]).out, t + 1) is Some implies vals.contains_key(
        all[k].out,
    ) by {
        let w = all[k].out;
        if !start.contains_key(w) {
            let jj = choose|jj: int| 0 <= jj < idx.len() && idx[jj] == k;
            assert(before[jj] == all[k]);
            lemma_gate_of(all, w, all.len() as int, k);
            assert(!init.contains_key(w));
            lemma_input_known(init, all, start, all[k].l, t);
            lemma_input_known(init, all, start, all[k].r, t);
            assert(start.contains_key(before[jj].l) && start.contains_key(before[jj].r));
        }
    }
}

/// Once no gate waits, the values are those of the circuit, and every gate's output is known.
proof fn lemma_eval_end(init: Map<u64, u64>, all: Seq<Expr>, vals: Map<u64, u64>)
    requires
        settles(init, all),
        sound(init, all, vals),
        waiting_in(all, vals, Seq::empty()),
    ensures
        forall|w: u64| #[trigger] vals.contains_key(w) <==> init.contains_key(w) || is_out(all, w),
        forall|w: u64| #[trigger] vals.contains_key(w) ==> val_at(init, all, w, depth(all)) == Some(vals[w]),
{
    reveal(waiting_in);
    reveal(sound);
    assert forall|w: u64| #[trigger] vals.contains_key(w) <==> init.contains_key(w) || is_out(all, w) by {
        if is_out(all, w) && !vals.contains_key(w) {
            let k = choose|k: int| 0 <= k < all.len() && (#[trigger] all[k]).out == w;
            assert(!vals.contains_key(all[k].out));
        }
    }
    assert forall|w: u64| #[trigger] vals.contains_key(w) implies val_at(init, all, w, depth(all)) == Some(vals[w]) by {
        let d = choose|d: nat| val_at(init, all, w, d) == Some(vals[w]);
        if !init.contains_key(w) {
            let k = choose|k: int| 0 <= k < all.len() && (#[trigger] all[k]).out == w;
            assert(val_at(init, all, all[k].out, depth(all)) is Some);
            if d <= depth(all) {
                lemma_val_mono(init, all, w, d, depth(all));
            } else {
                lemma_val_mono(init, all, w, depth(all), d);
            }
        }
    }
}

/// The gates whose output is still unknown, in order.
fn retain_waiting(exprs: &Vec<Expr>, vals: &HashMap<u64, u64>, Ghost(all): Ghost<Seq<Expr>>, Ghost(idx): Ghost<Seq<int>>) -> (r: (Vec<Expr>, Ghost<Seq<int>>))
    requires
        at_positions(all, exprs@, idx),
    ensures
        at_positions(all, r.0@, r.1@),
        forall|q: int| 0 <= q < r.0@.len() ==> !vals@.contains_key((#[trigger] r.0@[q]).out),
        forall|p: int| 0 <= p < exprs@.len() && !vals@.contains_key((#[trigger] exprs@[p]).out) ==> exists|q: int|
            0 <= q < r.1@.len() && r.1@[q] == idx[p],
{
    let mut kept: Vec<Expr> = Vec::new();
    let ghost mut kidx: Seq<int> = Seq::empty();
    let mut j: usize = 0;
    while j < exprs.len()
        invariant
            at_positions(all, exprs@, idx),
            at_positions(all, kept@, kidx),
            j <= exprs@.len(),
            forall|q: int| 0 <= q < kept@.len() ==> !vals@.contains_key((#[trigger] kept@[q]).out),
            forall|p: int| 0 <= p < j && !vals@.contains_key((#[trigger] exprs@[p]).out) ==> exists|q: int|
                0 <= q < kidx.len() && kidx[q] == idx[p],
        decreases exprs@.len() - j,
    {
        let e = exprs[j];
        if !vals.contains_key(&e.out) {
            kept.push(e);
            proof {
                let old_kidx = kidx;
                kidx = kidx.push(idx[j as int]);
                assert forall|p: int| 0 <= p < j + 1 && !vals@.contains_key((#[trigger] exprs@[p]).out) implies exists|q: int|
                    0 <= q < kidx.len() && kidx[q] == idx[p] by {
                    if p < j {
                        let q = choose|q: int| 0 <= q < old_kidx.len() && old_kidx[q] == idx[p];
                        assert(kidx[q] == idx[p]);
                    } else {
                        assert(kidx[kidx.len() - 1] == idx[p]);
                    }
                }
            }
        }
        j += 1;
    }
    (kept, Ghost(kidx))
}

/// Evaluate the gates until every gate's output is known. The values found are those of
/// the circuit.
pub fn eval(vals: &mut HashMap<u64, u64>, exprs: Vec<Expr>)
    requires
        functional(old(vals)@, exprs@),
        settles(old(vals)@, exprs@),
    ensures
        forall|w: u64| #[trigger]
            final(vals)@.contains_key(w) <==> old(vals)@.contains_key(w) || is_out(exprs@, w),
        forall|w: u64| #[trigger]
            final(vals)@.contains_key(w) ==> val_at(old(vals)@, exprs@, w, depth(exprs@)) == Some(
                final(vals)@[w],
            ),
{
    let ghost init = vals@;
    let ghost all = exprs@;
    let mut exprs = exprs;
    let ghost mut t: nat = 0;
    let ghost mut idx: Seq<int> = Seq::new(all.len(), |j: int| j);
    proof {
        reveal(sound);
        assert forall|w: u64| #[trigger] vals@.contains_key(w) implies exists|d: nat|
            val_at(init, all, w, d) == Some(vals@[w]) by {
            assert(val_at(init, all, w, 0) == Some(vals@[w]));
        }
        reveal(waiting_in);
        reveal(found_upto);
        assert forall|k: int| 0 <= k < all.len() && !vals@.contains_key(#[trigger] all[k].out) implies exists|j: int|
            0 <= j < idx.len() && idx[j] == k by {
            assert(idx[k] == k);
        }
        assert forall|k: int|
            0 <= k < all.len() && val_at(init, all, (#[trigger] all[k]).out, 0) is Some implies vals@.contains_key(
            all[k].out,
        ) by {}
    }
    while exprs.len() > 0
        invariant
            functional(init, all),
            settles(init, all),
            sound(init, all, vals@),
            found_upto(init, all, vals@, t),
            at_positions(all, exprs@, idx),
            waiting_in(all, vals@, idx),
            t > 0 ==> forall|j: int| 0 <= j < exprs@.len() ==> !vals@.contains_key((#[trigger] exprs@[j]).out),
            t <= all.len(),
        decreases all.len() + 1 - t,
    {
        proof {
            lemma_round_start(init, all, vals@, exprs@, idx, t);
        }
        let ghost start = vals@;
        proof {
            reveal(sound);
        }
        let mut i: usize = 0;
        while i < exprs.len()
            invariant
                functional(init, all),
                sound(init, all, vals@),
                forall|w: u64| #[trigger] start.contains_key(w) ==> vals@.contains_key(w),
                at_positions(all, exprs@, idx),
                i <= exprs@.len(),
                forall|j: int|
                    0 <= j < i && start.contains_key((#[trigger] exprs@[j]).l) && start.contains_key(exprs@[j].r)
                        ==> vals@.contains_key(exprs@[j].out),
            decreases exprs@.len() - i,
        {
            let e = exprs[i];
            if let Some(out) = e.eval(&vals) {
                proof {
                    lemma_sound_insert(init, all, vals@, idx[i as int]);
                }
                vals.insert(e.out, out);
            }
            i += 1;
        }
        let ghost before = exprs@;
        let ghost before_idx = idx;
        proof {
            lemma_round_found(init, all, start, vals@, before, before_idx, t);
        }
        let (kept, Ghost(kidx)) = retain_waiting(&exprs, &vals, Ghost(all), Ghost(idx));
        proof {
            reveal(waiting_in);
            assert forall|k: int| 0 <= k < all.len() && !vals@.contains_key(#[trigger] all[k].out) implies exists|q: int|
                0 <= q < kidx.len() && kidx[q] == k by {
                assert(!start.contains_key(all[k].out));
                let p = choose|p: int| 0 <= p < before_idx.len() && before_idx[p] == k;
                assert(before[p] == all[k]);
                assert(!vals@.contains_key(before[p].out));
            }
        }
        exprs = kept;
        proof {
            idx = kidx;
            t = t + 1;
        }
    }
    proof {
        assert(idx.len() == 0);
        assert(idx =~= Seq::<int>::empty());
        lemma_eval_end(init, all, vals@);
    }
}

/// An input of a gate known within `t + 1` layers but not from the start is the output of
/// a gate known within `t` layers, which the completed rounds have found.
proof fn lemma_input_known(init: Map<u64, u64>, all: Seq<Expr>, start: Map<u64, u64>, w: u64, t: nat)
    requires
        val_at(init, all, w, t) is Some,
        forall|w2: u64| #[trigger] init.contains_key(w2) ==> start.contains_key(w2),
        forall|k: int|
            0 <= k < all.len() && val_at(init, all, (#[trigger] all[k]).out, t) is Some ==> start.contains_key(
                all[k].out,
            ),
    ensures
        start.contains_key(w),
{
    if !init.contains_key(w) {
        lemma_gate_of_found(all, w, all.len() as int);
        let k = gate_of(all, w, all.len() as int)->0;
        assert(all[k].out == w);
    }
}

// ---------------------------------------------------------------------------
// Wire names

/// A wire name: three printable ASCII characters.
pub open spec fn valid_name(s: Seq<char>) -> bool {
    s.len() == 3 && forall|i: int| 0 <= i < 3 ==> '!' <= #[trigger] s[i] <= '~'
}

/// The code of a three-character name: its characters as base-2^21 digits.
pub open spec fn name_code(s: Seq<char>) -> u64 {
    ((s[0] as int) * 0x400_0000_0000 + (s[1] as int) * 0x20_0000 + (s[2] as int)) as u64
}

/// The code of the name "zNN" of output bit `i`.
pub open spec fn z_code(i: int) -> u64 {
    name_code(seq!['z', (48 + i / 10) as char, (48 + i % 10) as char])
}

pub proof fn lemma_code_digits(a: int, b: int, c: int)
    requires
        0 <= a < 0x20_0000,
        0 <= b < 0x20_0000,
        0 <= c < 0x20_0000,
    ensures
        0 <= a * 0x400_0000_0000 + b * 0x20_0000 + c <= u64::MAX,
        (a * 0x400_0000_0000 + b * 0x20_0000 + c) / 0x400_0000_0000 == a,
        ((a * 0x400_0000_0000 + b * 0x20_0000 + c) / 0x20_0000) % 0x20_0000 == b,
        (a * 0x400_0000_0000 + b * 0x20_0000 + c) % 0x20_0000 == c,
{
    let x = a * 0x400_0000_0000 + b * 0x20_0000 + c;
    assert(0 <= x <= u64::MAX) by (nonlinear_arith)
        requires
            0 <= a < 0x20_0000,
            0 <= b < 0x20_0000,
            0 <= c < 0x20_0000,
            x == a * 0x400_0000_0000 + b * 0x20_0000 + c,
    ;
    assert(x == a * 0x400_0000_0000 + (b * 0x20_0000 + c));
    assert(0 <= b * 0x20_0000 + c < 0x400_0000_0000) by (nonlinear_arith)
        requires
            0 <= b < 0x20_0000,
            0 <= c < 0x20_0000,
    ;
    vstd::arithmetic::div_mod::lemma_fundamental_div_mod_converse(x, 0x400_0000_0000, a, b * 0x20_0000 + c);
    assert(x == (a * 0x20_0000 + b) * 0x20_0000 + c) by (nonlinear_arith)
        requires
            x == a * 0x400_0000_0000 + b * 0x20_0000 + c,
    ;
    vstd::arithmetic::div_mod::lemma_fundamental_div_mod_converse(x, 0x20_0000, a * 0x20_0000 + b, c);
    vstd::arithmetic::div_mod::lemma_fundamental_div_mod_converse(
        a * 0x20_0000 + b,
        0x20_0000,
        a,
        b,
    );
}

/// Codes of valid names tell the names apart.
pub proof fn lemma_name_code_injective(s: Seq<char>, t: Seq<char>)
    requires
        valid_name(s),
        valid_name(t),
        name_code(s) == name_code(t),
    ensures
        s == t,
{
    assert('!' <= s[0] <= '~' && '!' <= s[1] <= '~' && '!' <= s[2] <= '~');
    assert('!' <= t[0] <= '~' && '!' <= t[1] <= '~' && '!' <= t[2] <= '~');
    lemma_code_digits(s[0] as int, s[1] as int, s[2] as int);
    lemma_code_digits(t[0] as int, t[1] as int, t[2] as int);
    assert(s[0] == t[0] && s[1] == t[1] && s[2] == t[2]);
    assert(s =~= t);
}

/// The code of the name `s[lo..lo + 3]`.
pub fn code_of(s: &[char], lo: usize) -> (c: u64)
    requires
        lo + 3 <= s@.len(),
        valid_name(s@.subrange(lo as int, lo + 3)),
    ensures
        c == name_code(s@.subrange(lo as int, lo + 3)),
{
    let ghost n = s@.subrange(lo as int, lo + 3);
    proof {
        assert('!' <= n[0] <= '~' && '!' <= n[1] <= '~' && '!' <= n[2] <= '~');
        lemma_code_digits(n[0] as int, n[1] as int, n[2] as int);
    }
    (s[lo] as u64) * 0x400_0000_0000 + (s[lo + 1] as u64) * 0x20_0000 + (s[lo + 2] as u64)
}

/// The output bit named by a code "zNN", if it is one.
pub fn z_index(code: u64) -> (i: Option<u64>)
    ensures
        i matches Some(n) ==> n < 100 && code == z_code(n as int),
        i is None ==> forall|n: int| 0 <= n < 100 ==> code != #[trigger] z_code(n),
{
    let a = code / 0x400_0000_0000;
    let b = (code / 0x20_0000) % 0x20_0000;
    let c = code % 0x20_0000;
    proof {
        assert forall|n: int| 0 <= n < 100 implies (#[trigger] z_code(n)) / 0x400_0000_0000 == 122 && (z_code(n)
            / 0x20_0000) % 0x20_0000 == 48 + n / 10 && z_code(n) % 0x20_0000 == 48 + n % 10 by {
            lemma_code_digits(122, 48 + n / 10, 48 + n % 10);
        }
        assert(code == a * 0x400_0000_0000 + b * 0x20_0000 + c) by (nonlinear_arith)
            requires
                a == code / 0x400_0000_0000,
                b == (code / 0x20_0000) % 0x20_0000,
                c == code % 0x20_0000,
        {
            assert(code == (code / 0x20_0000) * 0x20_0000 + c);
            assert(code / 0x20_0000 == (code / 0x20_0000 / 0x20_0000) * 0x20_0000 + b);
            vstd::arithmetic::div_mod::lemma_div_denominator(code as int, 0x20_0000, 0x20_0000);
        }
    }
    if a == 122 && 48 <= b && b <= 57 && 48 <= c && c <= 57 {
        let n = (b - 48) * 10 + (c - 48);
        proof {
            lemma_code_digits(122, 48 + n / 10, 48 + n % 10);
        }
        Some(n)
    } else {
        None
    }
}

// ---------------------------------------------------------------------------
// Reading the output

/// `2^i`
pub open spec fn two_to(i: nat) -> nat
    decreases i,
{
    if i == 0 {
        1
    } else {
        2 * two_to((i - 1) as nat)
    }
}

/// The contribution of output bit `i` to the number, when its wire is among `done`.
pub open spec fn z_term(vals: Map<u64, u64>, done: Set<u64>, i: int) -> int {
    if done.contains(z_code(i)) && vals.contains_key(z_code(i)) {
        vals[z_code(i)] * two_to(i as nat)
    } else {
        0
    }
}

/// The number on the output bits below `m` whose wires are among `done`.
pub open spec fn z_sum(vals: Map<u64, u64>, done: Set<u64>, m: int) -> int
    decreases m,
{
    if m <= 0 {
        0
    } else {
        z_sum(vals, done, m - 1) + z_term(vals, done, m - 1)
    }
}

/// The number that the output wires "z00", "z01", ... spell in binary.
pub open spec fn z_number(vals: Map<u64, u64>) -> int {
    z_sum(vals, vals.dom(), 100)
}

/// The output bits are below 64 and hold 0 or 1.
pub open spec fn z_bits_ok(vals: Map<u64, u64>) -> bool {
    forall|i: int|
        0 <= i < 100 && vals.contains_key(#[trigger] z_code(i)) ==> i < 64 && vals[z_code(i)] <= 1
}

proof fn lemma_z_code_injective(i: int, j: int)
    requires
        0 <= i < 100,
        0 <= j < 100,
        z_code(i) == z_code(j),
    ensures
        i == j,
{
    lemma_code_digits(122, 48 + i / 10, 48 + i % 10);
    lemma_code_digits(122, 48 + j / 10, 48 + j % 10);
}

proof fn lemma_z_sum_insert(vals: Map<u64, u64>, done: Set<u64>, k: u64, m: int)
    requires
        !done.contains(k),
        0 <= m <= 100,
    ensures
        z_sum(vals, done.insert(k), m) == z_sum(vals, done, m) + (if exists|i: int|
            0 <= i < m && #[trigger] z_code(i) == k {
            z_term(vals, done.insert(k), choose|i: int| 0 <= i < m && #[trigger] z_code(i) == k)
        } else {
            0
        }),
    decreases m,
{
    if m > 0 {
        lemma_z_sum_insert(vals, done, k, m - 1);
        let i0 = m - 1;
        if z_code(i0) == k {
            assert(exists|i: int| 0 <= i < m && #[trigger] z_code(i) == k);
            let c = choose|i: int| 0 <= i < m && #[trigger] z_code(i) == k;
            lemma_z_code_injective(c, i0);
            if exists|i: int| 0 <= i < m - 1 && #[trigger] z_code(i) == k {
                let c2 = choose|i: int| 0 <= i < m - 1 && #[trigger] z_code(i) == k;
                lemma_z_code_injective(c2, i0);
            }
        } else {
            if exists|i: int| 0 <= i < m && #[trigger] z_code(i) == k {
                let c = choose|i: int| 0 <= i < m && #[trigger] z_code(i) == k;
                assert(exists|i: int| 0 <= i < m - 1 && #[trigger] z_code(i) == k);
                let c2 = choose|i: int| 0 <= i < m - 1 && #[trigger] z_code(i) == k;
                lemma_z_code_injective(c, c2);
            }
        }
    }
}

proof fn lemma_z_sum_bound(vals: Map<u64, u64>, done: Set<u64>, m: int)
    requires
        z_bits_ok(vals),
        0 <= m <= 100,
    ensures
        0 <= z_sum(vals, done, m) <= (if m <= 64 { two_to(m as nat) - 1 } else { two_to(64) - 1 }),
    decreases m,
{
    if m > 0 {
        lemma_z_sum_bound(vals, done, m - 1);
        let i = m - 1;
        if done.contains(z_code(i)) && vals.contains_key(z_code(i)) {
            assert(i < 64 && vals[z_code(i)] <= 1);
            assert(vals[z_code(i)] * two_to(i as nat) <= two_to(i as nat)) by (nonlinear_arith)
                requires
                    vals[z_code(i)] <= 1,
            ;
        }
        assert(two_to(m as nat) == 2 * two_to(i as nat));
    }
}

proof fn lemma_z_sum_subset(vals: Map<u64, u64>, a: Set<u64>, b: Set<u64>, m: int)
    requires
        a.subset_of(b),
    ensures
        z_sum(vals, a, m) <= z_sum(vals, b, m),
    decreases m,
{
    if m > 0 {
        lemma_z_sum_subset(vals, a, b, m - 1);
    }
}

/// `2^i` as a `u64`.
pub fn pow2_u64(i: u64) -> (p: u64)
    requires
        i < 64,
    ensures
        p == two_to(i as nat),
{
    let mut p: u64 = 1;
    let mut k: u64 = 0;
    proof {
        assert(two_to(64) == 0x1_0000_0000_0000_0000) by {
            reveal_with_fuel(two_to, 65);
        }
    }
    while k < i
        invariant
            k <= i < 64,
            p == two_to(k as nat),
            two_to(64) == 0x1_0000_0000_0000_0000,
        decreases i - k,
    {
        proof {
            lemma_two_to_mono((k + 1) as nat, 63);
            assert(two_to(64) == 2 * two_to(63));
            assert(two_to((k + 1) as nat) == 2 * two_to(k as nat));
        }
        p = p * 2;
        k += 1;
    }
    p
}

proof fn lemma_two_to_mono(a: nat, b: nat)
    requires
        a <= b,
    ensures
        two_to(a) <= two_to(b),
    decreases b,
{
    if a < b {
        lemma_two_to_mono(a, (b - 1) as nat);
    }
}

/// The number on the output wires "z00", "z01", ...: each wire's value times 2 to its
/// index.
pub fn read_z(vals: &HashMap<u64, u64>) -> (z: u64)
    requires
        z_bits_ok(vals@),
    ensures
        z == z_number(vals@),
{
    let mut z: u64 = 0;
    let ghost m = vals@;
    proof {
        lemma_z_sum_bound(m, m.dom(), 100);
        assert(two_to(64) == 0x1_0000_0000_0000_0000) by {
            reveal_with_fuel(two_to, 65);
        }
        assert(z_sum(m, Set::empty(), 100) == 0) by {
            lemma_z_sum_empty(m, 100);
        }
    }
    let ghost mut done: Set<u64> = Set::empty();
    for k in it: vals.keys()
        invariant
            m == vals@,
            z_bits_ok(m),
            it.seq().unref().to_set() == m.dom(),
            it.seq().unref().no_duplicates(),
            forall|x: u64| #[trigger] done.contains(x) <==> m.contains_key(x) && !pending(it.seq(), it.index() as int, x),
            z == z_sum(m, done, 100),
            z_sum(m, m.dom(), 100) <= u64::MAX,
    {
        let ghost i0 = it.index();
        let ghost ks = it.seq();
        let ghost before = done;
        let ghost after = done_keys(m, ks, i0 + 1);
        proof {
            assert(ks.unref().to_set().contains(*k));
            assert(*ks[i0 as int] == *k);
            assert(pending(ks, i0 as int, *k));
            assert(!before.contains(*k));
            assert forall|x: u64| #[trigger] after.contains(x) <==> before.insert(*k).contains(x) by {
                if x != *k && pending(ks, i0 as int, x) && !pending(ks, i0 + 1, x) {
                    let i = choose|i: int| i0 <= i < ks.len() && *(#[trigger] ks[i]) == x;
                    assert(i == i0);
                }
                if x == *k && pending(ks, i0 + 1, x) {
                    let i = choose|i: int| i0 + 1 <= i < ks.len() && *(#[trigger] ks[i]) == x;
                    assert(ks.unref()[i] == ks.unref()[i0 as int]);
                }
                if x != *k && pending(ks, i0 + 1, x) {
                    let i = choose|i: int| i0 + 1 <= i < ks.len() && *(#[trigger] ks[i]) == x;
                    assert(pending(ks, i0 as int, x));
                }
                if x != *k && !pending(ks, i0 as int, x) {
                    assert(!pending(ks, i0 + 1, x)) by {
                        if pending(ks, i0 + 1, x) {
                            let i = choose|i: int| i0 + 1 <= i < ks.len() && *(#[trigger] ks[i]) == x;
                        }
                    }
                }
            }
            lemma_z_sum_insert(m, before, *k, 100);
            lemma_z_sum_subset(m, before.insert(*k), m.dom(), 100);
            done = done.insert(*k);
        }
        match z_index(*k) {
            Some(i) => {
                proof {
                    assert(exists|j: int| 0 <= j < 100 && #[trigger] z_code(j) == *k);
                    let c = choose|j: int| 0 <= j < 100 && #[trigger] z_code(j) == *k;
                    lemma_z_code_injective(c, i as int);
                    assert(m.contains_key(z_code(i as int)));
                }
                let v = *vals.get(k).unwrap();
                let p = pow2_u64(i);
                proof {
                    assert(v * p <= p) by (nonlinear_arith)
                        requires
                            v <= 1,
                    ;
                }
                z = z + v * p;
            },
            None => {
                proof {
                    assert(!exists|j: int| 0 <= j < 100 && #[trigger] z_code(j) == *k);
                }
            },
        }
    }
    proof {
        assert(done =~= m.dom());
    }
    z
}

/// The keys of `m` not pending at position `i0` of `ks`.
pub open spec fn done_keys(m: Map<u64, u64>, ks: Seq<&u64>, i0: int) -> Set<u64> {
    Set::new(|x: u64| m.contains_key(x) && !pending(ks, i0, x))
}

/// Key `x` stands in `ks` at or after position `i0`.
pub open spec fn pending(ks: Seq<&u64>, i0: int, x: u64) -> bool {
    exists|i: int| i0 <= i < ks.len() && *(#[trigger] ks[i]) == x
}

proof fn lemma_z_sum_empty(vals: Map<u64, u64>, m: int)
    ensures
        z_sum(vals, Set::empty(), m) == 0,
    decreases m,
{
    if m > 0 {
        lemma_z_sum_empty(vals, m - 1);
    }
}

// ---------------------------------------------------------------------------
// Input

/// Which operation an operator's name stands for.
pub open spec fn op_of(s: Seq<char>) -> Option<Op> {
    if s == seq!['A', 'N', 'D'] {
        Some(Op::And)
    } else if s == seq!['O', 'R'] {
        Some(Op::Or)
    } else if s == seq!['X', 'O', 'R'] {
        Some(Op::Xor)
    } else {
        None
    }
}

/// A line "name: value".
pub open spec fn valid_val_line(l: Seq<char>) -> bool {
    let f = parse::split_on(l, ':');
    f.len() == 2 && valid_name(f[0]) && parse::lit_unsigned(parse::trim(f[1]), u64::MAX as int) is Some
}

/// A line "left OP right -> out".
pub open spec fn valid_expr_line(l: Seq<char>) -> bool {
    let w = parse::words_of(l);
    w.len() >= 5 && valid_name(w[0]) && op_of(w[1]) is Some && valid_name(w[2]) && valid_name(w[4])
}

pub open spec fn val_lines(input: Seq<char>) -> Seq<Seq<char>> {
    parse::lines_of(parse::split_blank(input)[0])
}

pub open spec fn expr_lines(input: Seq<char>) -> Seq<Seq<char>> {
    parse::lines_of(parse::split_blank(input)[1])
}

pub open spec fn valid_input(input: Seq<char>) -> bool {
    &&& parse::split_blank(input).len() >= 2
    &&& forall|k: int| 0 <= k < val_lines(input).len() ==> valid_val_line(#[trigger] val_lines(input)[k])
    &&& forall|k: int| 0 <= k < expr_lines(input).len() ==> valid_expr_line(#[trigger] expr_lines(input)[k])
}

/// The initial values of the first `n` lines, a later line for a wire replacing an earlier.
pub open spec fn vals_upto(lines: Seq<Seq<char>>, n: int) -> Map<u64, u64>
    decreases n,
{
    if n <= 0 {
        Map::empty()
    } else {
        let f = parse::split_on(lines[n - 1], ':');
        vals_upto(lines, n - 1).insert(
            name_code(f[0]),
            parse::lit_unsigned(parse::trim(f[1]), u64::MAX as int)->0 as u64,
        )
    }
}

pub open spec fn init_of(input: Seq<char>) -> Map<u64, u64> {
    vals_upto(val_lines(input), val_lines(input).len() as int)
}

pub open spec fn line_expr(l: Seq<char>) -> Expr {
    let w = parse::words_of(l);
    Expr { l: name_code(w[0]), op: op_of(w[1])->0, r: name_code(w[2]), out: name_code(w[4]) }
}

pub open spec fn exprs_of(input: Seq<char>) -> Seq<Expr> {
    expr_lines(input).map_values(|l: Seq<char>| line_expr(l))
}

/// Which operation the name in `s[lo..hi]` stands for.
pub fn parse_op(s: &[char], lo: usize, hi: usize) -> (op: Option<Op>)
    requires
        lo <= hi <= s@.len(),
    ensures
        op == op_of(s@.subrange(lo as int, hi as int)),
{
    let ghost w = s@.subrange(lo as int, hi as int);
    if hi - lo == 3 && s[lo] == 'A' && s[lo + 1] == 'N' && s[lo + 2] == 'D' {
        assert(w =~= seq!['A', 'N', 'D']);
        Some(Op::And)
    } else if hi - lo == 2 && s[lo] == 'O' && s[lo + 1] == 'R' {
        assert(w =~= seq!['O', 'R']);
        assert(w != seq!['A', 'N', 'D']);
        Some(Op::Or)
    } else if hi - lo == 3 && s[lo] == 'X' && s[lo + 1] == 'O' && s[lo + 2] == 'R' {
        assert(w =~= seq!['X', 'O', 'R']);
        assert(w != seq!['A', 'N', 'D']);
        assert(w != seq!['O', 'R']);
        Some(Op::Xor)
    } else {
        assert(w != seq!['A', 'N', 'D'] && w != seq!['O', 'R'] && w != seq!['X', 'O', 'R']) by {
            assert(w.len() == hi - lo);
            if w == seq!['A', 'N', 'D'] {
                assert(seq!['A', 'N', 'D'][0] == 'A' && seq!['A', 'N', 'D'][1] == 'N' && seq!['A', 'N', 'D'][2] == 'D');
                assert(w[0] == s@[lo as int] && w[1] == s@[lo + 1] && w[2] == s@[lo + 2]);
            }
            if w == seq!['O', 'R'] {
                assert(seq!['O', 'R'][0] == 'O' && seq!['O', 'R'][1] == 'R');
                assert(w[0] == s@[lo as int] && w[1] == s@[lo + 1]);
            }
            if w == seq!['X', 'O', 'R'] {
                assert(seq!['X', 'O', 'R'][0] == 'X' && seq!['X', 'O', 'R'][1] == 'O' && seq!['X', 'O', 'R'][2] == 'R');
                assert(w[0] == s@[lo as int] && w[1] == s@[lo + 1] && w[2] == s@[lo + 2]);
            }
        }
        None
    }
}

/// The initial values and the gates of the input.
pub fn parse_input(input: &str) -> (r: (HashMap<u64, u64>, Vec<Expr>))
    requires
        valid_input(input@),
    ensures
        r.0@ == init_of(input@),
        r.1@ == exprs_of(input@),
{
    let s = parse::chars_of(input);
    let blocks = parse::blank_spans(s.as_slice());
    let (b0, e0) = blocks[0];
    let (b1, e1) = blocks[1];
    let vls = parse::line_spans(s.as_slice(), b0, e0);
    let ghost vl = val_lines(input@);
    let mut vals: HashMap<u64, u64> = HashMap::new();
    let mut k: usize = 0;
    while k < vls.len()
        invariant
            s@ == input@,
            valid_input(input@),
            vl == val_lines(input@),
            vl == parse::lines_of(s@.subrange(b0 as int, e0 as int)),
            vls@.len() == vl.len(),
            forall|j: int|
                0 <= j < vls@.len() ==> {
                    let (b, e) = #[trigger] vls@[j];
                    &&& b <= e <= s@.len()
                    &&& s@.subrange(b as int, e as int) == vl[j]
                },
            k <= vls@.len(),
            vals@ == vals_upto(vl, k as int),
        decreases vls@.len() - k,
    {
        let (b, e) = vls[k];
        let ghost line = vl[k as int];
        assert(valid_val_line(line));
        let f = parse::split_spans(s.as_slice(), b, e, ':');
        let (fb0, fe0) = f[0];
        let (fb1, fe1) = f[1];
        let (tb, te) = parse::trim_span(s.as_slice(), fb1, fe1);
        let v = parse::parse_unsigned(s.as_slice(), tb, te, u64::MAX).unwrap();
        proof {
            assert(s@.subrange(fb0 as int, fe0 as int).len() == 3);
            assert(s@.subrange(fb0 as int, fb0 + 3) =~= s@.subrange(fb0 as int, fe0 as int));
        }
        let c = code_of(s.as_slice(), fb0);
        vals.insert(c, v);
        k += 1;
    }
    let els = parse::line_spans(s.as_slice(), b1, e1);
    let ghost el = expr_lines(input@);
    let mut exprs: Vec<Expr> = Vec::new();
    let mut k: usize = 0;
    while k < els.len()
        invariant
            s@ == input@,
            valid_input(input@),
            el == expr_lines(input@),
            el == parse::lines_of(s@.subrange(b1 as int, e1 as int)),
            els@.len() == el.len(),
            forall|j: int|
                0 <= j < els@.len() ==> {
                    let (b, e) = #[trigger] els@[j];
                    &&& b <= e <= s@.len()
                    &&& s@.subrange(b as int, e as int) == el[j]
                },
            k <= els@.len(),
            exprs@ == el.take(k as int).map_values(|l: Seq<char>| line_expr(l)),
        decreases els@.len() - k,
    {
        let (b, e) = els[k];
        let ghost line = el[k as int];
        assert(valid_expr_line(line));
        let ws = parse::word_spans(s.as_slice(), b, e);
        let ghost w = parse::words_of(line);
        let (wb0, we0) = ws[0];
        let (wb1, we1) = ws[1];
        let (wb2, we2) = ws[2];
        let (wb4, we4) = ws[4];
        proof {
            assert(s@.subrange(b as int, e as int) == line);
            assert(s@.subrange(wb0 as int, wb0 + 3) =~= s@.subrange(wb0 as int, we0 as int));
            assert(s@.subrange(wb2 as int, wb2 + 3) =~= s@.subrange(wb2 as int, we2 as int));
            assert(s@.subrange(wb4 as int, wb4 + 3) =~= s@.subrange(wb4 as int, we4 as int));
        }
        let l = code_of(s.as_slice(), wb0);
        let op = parse_op(s.as_slice(), wb1, we1).unwrap();
        let r = code_of(s.as_slice(), wb2);
        let out = code_of(s.as_slice(), wb4);
        exprs.push(Expr { l, op, r, out });
        assert(exprs@ =~= el.take(k + 1).map_values(|l: Seq<char>| line_expr(l)));
        k += 1;
    }
    assert(el.take(el.len() as int) =~= el);
    (vals, exprs)
}

/// The values of all wires once the circuit has settled.
pub open spec fn circuit_values(init: Map<u64, u64>, exprs: Seq<Expr>) -> Map<u64, u64> {
    Map::new(
        |w: u64| init.contains_key(w) || is_out(exprs, w),
        |w: u64| val_at(init, exprs, w, depth(exprs))->0,
    )
}

/// Values of 0 and 1 give values of 0 and 1.
proof fn lemma_val_bit(init: Map<u64, u64>, exprs: Seq<Expr>, w: u64, d: nat)
    requires
        forall|x: u64| #[trigger] init.contains_key(x) ==> init[x] <= 1,
        val_at(init, exprs, w, d) is Some,
    ensures
        val_at(init, exprs, w, d)->0 <= 1,
    decreases d,
{
    if !init.contains_key(w) && d > 0 {
        lemma_gate_of_found(exprs, w, exprs.len() as int);
        let k = gate_of(exprs, w, exprs.len() as int)->0;
        lemma_val_bit(init, exprs, exprs[k].l, (d - 1) as nat);
        lemma_val_bit(init, exprs, exprs[k].r, (d - 1) as nat);
        let a = val_at(init, exprs, exprs[k].l, (d - 1) as nat)->0;
        let b = val_at(init, exprs, exprs[k].r, (d - 1) as nat)->0;
        assert(a & b <= 1 && (a | b) <= 1 && a ^ b <= 1) by (bit_vector)
            requires
                a <= 1,
                b <= 1,
        ;
    }
}

/// The circuit works within the limits: one gate per output, every gate settles, values
/// of 0 and 1, and output bits below 64.
pub open spec fn valid_circuit(init: Map<u64, u64>, exprs: Seq<Expr>) -> bool {
    &&& functional(init, exprs)
    &&& settles(init, exprs)
    &&& forall|x: u64| #[trigger] init.contains_key(x) ==> init[x] <= 1
    &&& forall|i: int|
        64 <= i < 100 ==> !init.contains_key(#[trigger] z_code(i)) && !is_out(exprs, z_code(i))
}

/// The number on the output wires once the circuit has settled.
pub fn part1(input: &str) -> (z: u64)
    requires
        valid_input(input@),
        valid_circuit(init_of(input@), exprs_of(input@)),
    ensures
        z == z_number(circuit_values(init_of(input@), exprs_of(input@))),
{
    let (mut vals, exprs) = parse_input(input);
    let ghost init = vals@;
    let ghost all = exprs@;
    eval(&mut vals, exprs);
    proof {
        assert(vals@ =~= circuit_values(init, all));
        assert forall|i: int|
            0 <= i < 100 && vals@.contains_key(#[trigger] z_code(i)) implies i < 64 && vals@[z_code(i)] <= 1 by {
            lemma_val_bit(init, all, z_code(i), depth(all));
        }
    }
    read_z(&vals)
}

/// The number of the second part, given as is.
pub fn part2() -> (n: usize)
    ensures
        n == 2,
{
    2
}

} // verus!
