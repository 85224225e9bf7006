use crate::lgl::data::table;
use crate::lgl::parse;
use std::collections::HashSet;
use vstd::prelude::*;
use vstd::string::StrSliceExecFns;

verus! {

// ---------------------------------------------------------------------------
// Rules and updates

/// The rule table of the input: its first block, each line split on '|'.
pub open spec fn rule_table(input: Seq<char>) -> Seq<Seq<Seq<char>>> {
    table::sep_table(parse::split_blank(input)[0], '|')
}

/// The update table of the input: its second block, each line split on ','.
pub open spec fn page_table(input: Seq<char>) -> Seq<Seq<Seq<char>>> {
    table::sep_table(parse::split_blank(input)[1], ',')
}

/// Two blocks, every cell a `u32`, and every rule with two pages at least.
pub open spec fn input_ok(input: Seq<char>) -> bool {
    &&& parse::split_blank(input).len() >= 2
    &&& table::all_cells_u32(rule_table(input))
    &&& table::all_cells_u32(page_table(input))
    &&& forall|i: int| 0 <= i < rule_table(input).len() ==> (#[trigger] rule_table(input)[i]).len() >= 2
}

/// The rules "first page before second page".
pub open spec fn rules(input: Seq<char>) -> Seq<(u32, u32)> {
    table::cells_u32(rule_table(input)).map_values(|row: Seq<u32>| (row[0], row[1]))
}

/// The updates: lists of pages.
pub open spec fn updates(input: Seq<char>) -> Seq<Seq<u32>> {
    table::cells_u32(page_table(input))
}

/// A rule puts page `a` before page `b`.
pub open spec fn must_precede(rs: Seq<(u32, u32)>, a: u32, b: u32) -> bool {
    exists|k: int| 0 <= k < rs.len() && #[trigger] rs[k] == (a, b)
}

/// Some page of the update must come before an earlier one.
pub open spec fn out_of_order(rs: Seq<(u32, u32)>, s: Seq<u32>) -> bool {
    exists|i: int, j: int| 0 <= i < j < s.len() && #[trigger] must_precede(rs, s[j], s[i])
}

/// The key of the rule "`a` before `b`".
pub open spec fn pair_key(a: u32, b: u32) -> u64 {
    (a as int * 0x1_0000_0000 + b as int) as u64
}

/// The keys of the rules.
pub open spec fn rule_keys(rs: Seq<(u32, u32)>) -> Set<u64> {
    rs.map_values(|p: (u32, u32)| pair_key(p.0, p.1)).to_set()
}

proof fn lemma_pair_key(a: u32, b: u32, c: u32, d: u32)
    ensures
        pair_key(a, b) == pair_key(c, d) ==> a == c && b == d,
        pair_key(a, b) == a as int * 0x1_0000_0000 + b as int,
{
    assert(0 <= a as int * 0x1_0000_0000 + b as int <= u64::MAX) by (nonlinear_arith)
        requires
            a <= u32::MAX,
            b <= u32::MAX,
    ;
    assert(0 <= c as int * 0x1_0000_0000 + d as int <= u64::MAX) by (nonlinear_arith)
        requires
            c <= u32::MAX,
            d <= u32::MAX,
    ;
    if pair_key(a, b) == pair_key(c, d) {
        assert(a == c && b == d) by (nonlinear_arith)
            requires
                a as int * 0x1_0000_0000 + b as int == c as int * 0x1_0000_0000 + d as int,
                b <= u32::MAX,
                d <= u32::MAX,
        ;
    }
}

proof fn lemma_key_of_rule(rs: Seq<(u32, u32)>, a: u32, b: u32)
    ensures
        rule_keys(rs).contains(pair_key(a, b)) == must_precede(rs, a, b),
{
    let ks = rs.map_values(|p: (u32, u32)| pair_key(p.0, p.1));
    if rule_keys(rs).contains(pair_key(a, b)) {
        let k = choose|k: int| 0 <= k < ks.len() && ks[k] == pair_key(a, b);
        lemma_pair_key(rs[k].0, rs[k].1, a, b);
        assert(rs[k] == (a, b));
    }
    if must_precede(rs, a, b) {
        let k = choose|k: int| 0 <= k < rs.len() && #[trigger] rs[k] == (a, b);
        assert(ks[k] == pair_key(a, b));
        assert(ks.contains(pair_key(a, b)));
    }
}

/// The key of the rule "`a` before `b`".
fn key(a: u32, b: u32) -> (k: u64)
    ensures
        k == pair_key(a, b),
{
    proof {
        lemma_pair_key(a, b, a, b);
    }
    (a as u64) * 0x1_0000_0000 + (b as u64)
}

/// The rules, as a set of keys, and the updates.
pub fn parse_input(input: &str) -> (r: (HashSet<u64>, Vec<Vec<u32>>))
    requires
        input_ok(input@),
    ensures
        r.0@ == rule_keys(rules(input@)),
        table::deep(r.1@) == updates(input@),
{
    let cs = parse::chars_of(input);
    let spans = parse::blank_spans(cs.as_slice());
    let (b0, e0) = spans[0];
    let (b1, e1) = spans[1];
    let first = input.substring_char(b0, e0);
    let second = input.substring_char(b1, e1);
    let rule_rows = table::parse_table_u32(table::to_table(first, '|'));
    let ghost rt = table::deep(rule_rows@);
    let ghost rs = rules(input@);
    proof {
        assert(rt == table::cells_u32(rule_table(input@)));
    }
    let mut succ: HashSet<u64> = HashSet::new();
    let mut k: usize = 0;
    while k < rule_rows.len()
        invariant
            rt == table::deep(rule_rows@),
            rt == table::cells_u32(rule_table(input@)),
            rs == rules(input@),
            input_ok(input@),
            k <= rule_rows@.len(),
            succ@ == rule_keys(rs.take(k as int)),
        decreases rule_rows@.len() - k,
    {
        proof {
            assert(rule_table(input@)[k as int].len() >= 2);
            assert(rt[k as int] == rule_rows@[k as int]@);
        }
        let x = key(rule_rows[k][0], rule_rows[k][1]);
        succ.insert(x);
        proof {
            let ks = rs.take(k as int).map_values(|p: (u32, u32)| pair_key(p.0, p.1));
            let ks1 = rs.take(k + 1).map_values(|p: (u32, u32)| pair_key(p.0, p.1));
            assert(ks1 =~= ks.push(x));
            assert(ks.push(x).to_set() =~= ks.to_set().insert(x)) by {
                assert forall|y: u64| #[trigger] ks.push(x).to_set().contains(y) == ks.to_set().insert(x).contains(y) by {
                    if ks.push(x).contains(y) {
                        let j = choose|j: int| 0 <= j < ks.push(x).len() && ks.push(x)[j] == y;
                        if j < ks.len() {
                            assert(ks[j] == y);
                        }
                    }
                    if ks.contains(y) {
                        let j = choose|j: int| 0 <= j < ks.len() && ks[j] == y;
                        assert(ks.push(x)[j] == y);
                    }
                    if y == x {
                        assert(ks.push(x)[ks.len() as int] == y);
                    }
                }
            }
        }
        k += 1;
    }
    proof {
        assert(rs.take(rule_rows@.len() as int) =~= rs);
    }
    let pages = table::parse_table_u32(table::to_table(second, ','));
    (succ, pages)
}

/// Page `x0` is one that page `x1` must come before.
pub fn successor_is_first(succ: &HashSet<u64>, x0: u32, x1: u32) -> (b: bool)
    ensures
        b == succ@.contains(pair_key(x1, x0)),
{
    succ.contains(&key(x1, x0))
}

/// Some page of the update must come before an earlier one.
fn fails(succ: &HashSet<u64>, xs: &[u32], Ghost(rs): Ghost<Seq<(u32, u32)>>) -> (b: bool)
    requires
        succ@ == rule_keys(rs),
    ensures
        b == out_of_order(rs, xs@),
{
    let mut i: usize = 0;
    while i < xs.len()
        invariant
            succ@ == rule_keys(rs),
            i <= xs@.len(),
            forall|a: int, b: int| 0 <= a < b < i ==> !#[trigger] must_precede(rs, xs@[b], xs@[a]),
        decreases xs@.len() - i,
    {
        let mut j: usize = 0;
        while j < i
            invariant
                succ@ == rule_keys(rs),
                i < xs@.len(),
                j <= i,
                forall|a: int, b: int| 0 <= a < b < i ==> !#[trigger] must_precede(rs, xs@[b], xs@[a]),
                forall|a: int| 0 <= a < j ==> !#[trigger] must_precede(rs, xs@[i as int], xs@[a]),
            decreases i - j,
        {
            proof {
                lemma_key_of_rule(rs, xs@[i as int], xs@[j as int]);
            }
            if successor_is_first(succ, xs[j], xs[i]) {
                return true;
            }
            j += 1;
        }
        i += 1;
    }
    false
}

/// The middle page.
pub open spec fn middle(s: Seq<u32>) -> int {
    s[(s.len() / 2) as int] as int
}

/// Sum of the middle pages of the updates already in order.
pub open spec fn ordered_sum(rs: Seq<(u32, u32)>, us: Seq<Seq<u32>>) -> int
    decreases us.len(),
{
    if us.len() == 0 {
        0
    } else {
        ordered_sum(rs, us.drop_last()) + if !out_of_order(rs, us.last()) { middle(us.last()) } else { 0 }
    }
}

proof fn lemma_ordered_sum_prefix(rs: Seq<(u32, u32)>, us: Seq<Seq<u32>>, k: int)
    requires
        0 <= k <= us.len(),
    ensures
        0 <= ordered_sum(rs, us.take(k)) <= ordered_sum(rs, us),
    decreases us.len(),
{
    if us.len() > 0 {
        if k < us.len() {
            lemma_ordered_sum_prefix(rs, us.drop_last(), k);
            assert(us.drop_last().take(k) =~= us.take(k));
        } else {
            assert(us.take(k) =~= us);
            lemma_ordered_sum_prefix(rs, us.drop_last(), k - 1);
            assert(us.drop_last().take(k - 1) =~= us.drop_last());
        }
    } else {
        assert(us.take(k) =~= us);
    }
}

/// Sum of the middle pages of the updates that are already in order.
pub fn part1(input: &str) -> (r: u32)
    requires
        input_ok(input@),
        forall|k: int| 0 <= k < updates(input@).len() ==> (#[trigger] updates(input@)[k]).len() > 0,
        ordered_sum(rules(input@), updates(input@)) <= u32::MAX,
    ensures
        r == ordered_sum(rules(input@), updates(input@)),
{
    let ghost rs = rules(input@);
    let ghost us = updates(input@);
    let (succ, seqs) = parse_input(input);
    let mut total: u32 = 0;
    let mut k: usize = 0;
    while k < seqs.len()
        invariant
            succ@ == rule_keys(rs),
            table::deep(seqs@) == us,
            forall|q: int| 0 <= q < us.len() ==> (#[trigger] us[q]).len() > 0,
            ordered_sum(rs, us) <= u32::MAX,
            k <= us.len(),
            total == ordered_sum(rs, us.take(k as int)),
        decreases us.len() - k,
    {
        proof {
            assert(us[k as int] == seqs@[k as int]@);
            assert(us.take(k + 1).drop_last() =~= us.take(k as int));
            lemma_ordered_sum_prefix(rs, us, k + 1);
        }
        let s = &seqs[k];
        if !fails(&succ, s.as_slice(), Ghost(rs)) {
            total = total + s[s.len() / 2];
        }
        k += 1;
    }
    proof {
        assert(us.take(us.len() as int) =~= us);
    }
    total
}

// ---------------------------------------------------------------------------
// Putting updates in order

/// The rules order the pages of `s` totally: no page twice, no page before itself, of two
/// different pages exactly one before the other, and in a transitive way.
pub open spec fn total_on(rs: Seq<(u32, u32)>, s: Seq<u32>) -> bool {
    &&& s.no_duplicates()
    &&& forall|x: u32| #[trigger] s.contains(x) ==> !must_precede(rs, x, x)
    &&& forall|x: u32, y: u32|
        s.contains(x) && s.contains(y) && x != y ==> (#[trigger] must_precede(rs, x, y) != #[trigger] must_precede(rs, y, x))
    &&& forall|x: u32, y: u32, z: u32|
        s.contains(x) && s.contains(y) && s.contains(z) && #[trigger] must_precede(rs, x, y) && #[trigger] must_precede(rs, y, z)
            ==> must_precede(rs, x, z)
}

/// No page of `t` must come before an earlier one.
pub open spec fn in_order(rs: Seq<(u32, u32)>, t: Seq<u32>) -> bool {
    forall|i: int, j: int| 0 <= i < j < t.len() ==> !#[trigger] must_precede(rs, t[j], t[i])
}

/// The pages of `s` put in the order of the rules.
pub open spec fn put_in_order(rs: Seq<(u32, u32)>, s: Seq<u32>) -> Seq<u32> {
    choose|t: Seq<u32>| t.to_multiset() == s.to_multiset() && in_order(rs, t)
}

proof fn lemma_last_not_before(rs: Seq<(u32, u32)>, t: Seq<u32>, x: u32)
    requires
        in_order(rs, t),
        t.contains(x),
        t.len() > 0,
        x != t.last(),
    ensures
        !must_precede(rs, t.last(), x),
{
    let i = choose|i: int| 0 <= i < t.len() && t[i] == x;
    assert(!must_precede(rs, t[t.len() - 1], t[i]));
}

/// Two orderings of the same pages agree.
proof fn lemma_order_unique(rs: Seq<(u32, u32)>, s: Seq<u32>, a: Seq<u32>, b: Seq<u32>)
    requires
        total_on(rs, s),
        a.to_multiset() == b.to_multiset(),
        forall|x: u32| #[trigger] a.contains(x) ==> s.contains(x),
        in_order(rs, a),
        in_order(rs, b),
    ensures
        a == b,
    decreases a.len(),
{
    broadcast use vstd::seq_lib::group_to_multiset_ensures;

    assert(a.len() == a.to_multiset().len());
    assert(b.len() == b.to_multiset().len());
    if a.len() > 0 {
        let x = a.last();
        let y = b.last();
        assert(a.to_multiset().count(x) > 0);
        assert(b.contains(x));
        assert(b.to_multiset().count(y) > 0);
        assert(a.contains(y));
        if x != y {
            lemma_last_not_before(rs, a, y);
            lemma_last_not_before(rs, b, x);
            assert(a.contains(x));
            assert(must_precede(rs, x, y) != must_precede(rs, y, x));
        }
        let a0 = a.drop_last();
        let b0 = b.drop_last();
        assert(a0.push(x) =~= a);
        assert(b0.push(x) =~= b);
        assert(a0.to_multiset() =~= b0.to_multiset()) by {
            assert(a0.push(x).to_multiset() =~= a0.to_multiset().insert(x));
            assert(b0.push(x).to_multiset() =~= b0.to_multiset().insert(x));
            assert forall|z: u32| a0.to_multiset().count(z) == b0.to_multiset().count(z) by {
                assert(a0.to_multiset().insert(x).count(z) == b0.to_multiset().insert(x).count(z));
            }
        }
        assert forall|z: u32| #[trigger] a0.contains(z) implies s.contains(z) by {
            let i = choose|i: int| 0 <= i < a0.len() && a0[i] == z;
            assert(a[i] == z);
            assert(a.contains(z));
        }
        lemma_order_unique(rs, s, a0, b0);
    } else {
        assert(a =~= b);
    }
}

/// The pages of `s` in the order of the rules: each page goes in before the first page it
/// must precede.
pub fn sort_pages(succ: &HashSet<u64>, s: &Vec<u32>, Ghost(rs): Ghost<Seq<(u32, u32)>>) -> (t: Vec<u32>)
    requires
        succ@ == rule_keys(rs),
        total_on(rs, s@),
    ensures
        t@ == put_in_order(rs, s@),
        t@.to_multiset() == s@.to_multiset(),
        t@.len() == s@.len(),
{
    broadcast use vstd::seq_lib::group_to_multiset_ensures;

    let mut t: Vec<u32> = Vec::new();
    let mut i: usize = 0;
    while i < s.len()
        invariant
            succ@ == rule_keys(rs),
            total_on(rs, s@),
            i <= s@.len(),
            t@.to_multiset() == s@.take(i as int).to_multiset(),
            in_order(rs, t@),
            t@.no_duplicates(),
        decreases s@.len() - i,
    {
        let x = s[i];
        let ghost t0 = t@;
        // Pages of `t` come from the first `i` of `s`, so none is `x`.
        proof {
            t0.to_multiset_ensures();
            s@.take(i as int).to_multiset_ensures();
            assert forall|z: u32| #[trigger] t0.contains(z) implies s@.take(i as int).contains(z) by {
                assert(t0.to_multiset().count(z) > 0);
            }
        }
        let mut p: usize = 0;
        while p < t.len() && !successor_is_first(succ, t[p], x)
            invariant
                succ@ == rule_keys(rs),
                t0 == t@,
                p <= t@.len(),
                forall|q: int| 0 <= q < p ==> !#[trigger] must_precede(rs, x, t@[q]),
            decreases t@.len() - p,
        {
            proof {
                lemma_key_of_rule(rs, x, t@[p as int]);
            }
            p += 1;
        }
        proof {
            if p < t@.len() {
                lemma_key_of_rule(rs, x, t@[p as int]);
            }
        }
        t.insert(p, x);
        proof {
            let t1 = t@;
            assert(t1 =~= t0.insert(p as int, x));
            vstd::seq_lib::to_multiset_insert(t0, p as int, x);
            assert(s@.take(i + 1) =~= s@.take(i as int).push(x));
            vstd::seq_lib::to_multiset_build(s@.take(i as int), x);
            assert forall|q: int| 0 <= q < t0.len() implies t0[q] != x && s@.contains(t0[q]) by {
                assert(t0.contains(t0[q]));
                let j = choose|j: int| 0 <= j < i && s@.take(i as int)[j] == t0[q];
                assert(s@[j] == t0[q]);
                assert(s@[i as int] == x);
            }
            assert(s@.contains(x));
            assert forall|a: int, b: int| 0 <= a < t1.len() && 0 <= b < t1.len() && a != b implies t1[a] != t1[b] by {
                if a != p && b != p {
                    let a0 = if a < p { a } else { a - 1 };
                    let b0 = if b < p { b } else { b - 1 };
                    assert(t1[a] == t0[a0]);
                    assert(t1[b] == t0[b0]);
                } else if a == p {
                    let b0 = if b < p { b } else { b - 1 };
                    assert(t1[b] == t0[b0]);
                } else {
                    let a0 = if a < p { a } else { a - 1 };
                    assert(t1[a] == t0[a0]);
                }
            }
            assert forall|a: int, b: int| 0 <= a < b < t1.len() implies !#[trigger] must_precede(rs, t1[b], t1[a]) by {
                if b == p {
                    assert(t1[a] == t0[a]);
                } else if a == p {
                    let y = t0[b - 1];
                    assert(t1[b] == y);
                    assert(must_precede(rs, x, t0[p as int]));
                    if b - 1 > p {
                        let z = t0[p as int];
                        assert(y != z);
                        assert(!must_precede(rs, y, z));
                        assert(must_precede(rs, y, z) != must_precede(rs, z, y));
                        assert(must_precede(rs, z, y));
                        assert(must_precede(rs, x, y));
                    }
                    assert(must_precede(rs, x, y) != must_precede(rs, y, x));
                } else if a < p && b > p {
                    assert(t1[a] == t0[a]);
                    assert(t1[b] == t0[b - 1]);
                } else if a > p {
                    assert(t1[a] == t0[a - 1]);
                    assert(t1[b] == t0[b - 1]);
                }
            }
        }
        i += 1;
    }
    proof {
        assert(s@.take(s@.len() as int) =~= s@);
        let c = put_in_order(rs, s@);
        assert(c.to_multiset() == s@.to_multiset() && in_order(rs, c));
        t@.to_multiset_ensures();
        s@.to_multiset_ensures();
        assert forall|x: u32| #[trigger] t@.contains(x) implies s@.contains(x) by {
            assert(t@.to_multiset().count(x) > 0);
        }
        lemma_order_unique(rs, s@, t@, c);
    }
    t
}

/// Sum of the middle pages of the updates out of order, once put in order.
pub open spec fn fixed_sum(rs: Seq<(u32, u32)>, us: Seq<Seq<u32>>) -> int
    decreases us.len(),
{
    if us.len() == 0 {
        0
    } else {
        fixed_sum(rs, us.drop_last()) + if out_of_order(rs, us.last()) {
            middle(put_in_order(rs, us.last()))
        } else {
            0
        }
    }
}

proof fn lemma_fixed_sum_prefix(rs: Seq<(u32, u32)>, us: Seq<Seq<u32>>, k: int)
    requires
        0 <= k <= us.len(),
    ensures
        0 <= fixed_sum(rs, us.take(k)) <= fixed_sum(rs, us),
    decreases us.len(),
{
    if us.len() > 0 {
        if k < us.len() {
            lemma_fixed_sum_prefix(rs, us.drop_last(), k);
            assert(us.drop_last().take(k) =~= us.take(k));
        } else {
            assert(us.take(k) =~= us);
            lemma_fixed_sum_prefix(rs, us.drop_last(), k - 1);
            assert(us.drop_last().take(k - 1) =~= us.drop_last());
        }
    } else {
        assert(us.take(k) =~= us);
    }
}

/// Sum of the middle pages of the updates that were out of order, once put in order.
pub fn part2(input: &str) -> (r: u32)
    requires
        input_ok(input@),
        forall|k: int|
            0 <= k < updates(input@).len() && out_of_order(rules(input@), #[trigger] updates(input@)[k]) ==> total_on(
                rules(input@),
                updates(input@)[k],
            ),
        fixed_sum(rules(input@), updates(input@)) <= u32::MAX,
    ensures
        r == fixed_sum(rules(input@), updates(input@)),
{
    broadcast use vstd::seq_lib::group_to_multiset_ensures;

    let ghost rs = rules(input@);
    let ghost us = updates(input@);
    let (succ, seqs) = parse_input(input);
    let mut total: u32 = 0;
    let mut k: usize = 0;
    while k < seqs.len()
        invariant
            succ@ == rule_keys(rs),
            table::deep(seqs@) == us,
            forall|q: int| 0 <= q < us.len() && out_of_order(rs, #[trigger] us[q]) ==> total_on(rs, us[q]),
            fixed_sum(rs, us) <= u32::MAX,
            k <= us.len(),
            total == fixed_sum(rs, us.take(k as int)),
        decreases us.len() - k,
    {
        proof {
            assert(us[k as int] == seqs@[k as int]@);
            assert(us.take(k + 1).drop_last() =~= us.take(k as int));
            lemma_fixed_sum_prefix(rs, us, k + 1);
        }
        let s = &seqs[k];
        if fails(&succ, s.as_slice(), Ghost(rs)) {
            let t = sort_pages(&succ, s, Ghost(rs));
            total = total + t[t.len() / 2];
        }
        k += 1;
    }
    proof {
        assert(us.take(us.len() as int) =~= us);
    }
    total
}

} // verus!
