use crate::lgl::data::array2d;
use crate::lgl::parse;
use crate::lgl::text;
use vstd::prelude::*;

verus! {

// ---------------------------------------------------------------------------
// The order of names

/// `a` comes strictly before `b` in the order of `str`: character by character, a proper
/// prefix first (for UTF-8 the order of the bytes is that of the characters).
pub open spec fn str_lt(a: Seq<char>, b: Seq<char>) -> bool
    decreases a.len(),
{
    if b.len() == 0 {
        false
    } else if a.len() == 0 {
        true
    } else if a[0] != b[0] {
        a[0] < b[0]
    } else {
        str_lt(a.drop_first(), b.drop_first())
    }
}

proof fn lemma_lt_irrefl(a: Seq<char>)
    ensures
        !str_lt(a, a),
    decreases a.len(),
{
    if a.len() > 0 {
        lemma_lt_irrefl(a.drop_first());
    }
}

proof fn lemma_lt_trans(a: Seq<char>, b: Seq<char>, c: Seq<char>)
    requires
        str_lt(a, b),
        str_lt(b, c),
    ensures
        str_lt(a, c),
    decreases a.len(),
{
    if a.len() > 0 && b.len() > 0 && c.len() > 0 {
        if a[0] == b[0] && b[0] == c[0] {
            lemma_lt_trans(a.drop_first(), b.drop_first(), c.drop_first());
        }
    }
}

proof fn lemma_lt_total(a: Seq<char>, b: Seq<char>)
    requires
        a != b,
    ensures
        str_lt(a, b) || str_lt(b, a),
    decreases a.len(),
{
    if a.len() == 0 {
        if b.len() == 0 {
            assert(a =~= b);
        }
    } else if b.len() == 0 {
    } else if a[0] == b[0] {
        if a.drop_first() == b.drop_first() {
            assert(a =~= seq![a[0]] + a.drop_first());
            assert(b =~= seq![b[0]] + b.drop_first());
        }
        lemma_lt_total(a.drop_first(), b.drop_first());
    }
}

/// Whether `a` comes strictly before `b`.
pub fn str_less(a: &Vec<char>, b: &Vec<char>) -> (r: bool)
    ensures
        r == str_lt(a@, b@),
{
    let mut i: usize = 0;
    proof {
        assert(a@.skip(0) =~= a@);
        assert(b@.skip(0) =~= b@);
    }
    while i < a.len() && i < b.len() && a[i] == b[i]
        invariant
            i <= a@.len(),
            i <= b@.len(),
            str_lt(a@, b@) == str_lt(a@.skip(i as int), b@.skip(i as int)),
        decreases a@.len() - i,
    {
        proof {
            assert(a@.skip(i as int).drop_first() =~= a@.skip(i + 1));
            assert(b@.skip(i as int).drop_first() =~= b@.skip(i + 1));
        }
        i += 1;
    }
    if i == b.len() {
        false
    } else if i == a.len() {
        true
    } else {
        a[i] < b[i]
    }
}

/// Names in strictly ascending order.
pub open spec fn strictly_sorted(s: Seq<Seq<char>>) -> bool {
    forall|i: int, j: int| 0 <= i < j < s.len() ==> str_lt(#[trigger] s[i], #[trigger] s[j])
}

/// The characters of the names.
pub open spec fn views(v: Seq<Vec<char>>) -> Seq<Seq<char>> {
    v.map_values(|x: Vec<char>| x@)
}

/// Two ascending sequences of the same names are equal.
proof fn lemma_sorted_names_unique(a: Seq<Seq<char>>, b: Seq<Seq<char>>)
    requires
        strictly_sorted(a),
        strictly_sorted(b),
        a.to_set() == b.to_set(),
    ensures
        a == b,
    decreases a.len(),
{
    if a.len() == 0 {
        if b.len() > 0 {
            assert(b.to_set().contains(b[0]));
        }
        assert(a =~= b);
    } else if b.len() == 0 {
        assert(a.to_set().contains(a[0]));
    } else {
        // The first of each is the least of the common set.
        assert(b.to_set().contains(a[0]));
        assert(a.to_set().contains(b[0]));
        let i = choose|i: int| 0 <= i < b.len() && b[i] == a[0];
        let j = choose|j: int| 0 <= j < a.len() && a[j] == b[0];
        if i > 0 && j > 0 {
            lemma_lt_trans(a[0], a[j], b[i]);
            lemma_lt_irrefl(a[0]);
        } else if i > 0 {
            assert(a[0] == b[0] || j == 0);
        }
        if a[0] != b[0] {
            if i > 0 {
                assert(str_lt(b[0], b[i]));
                assert(j == 0);
                lemma_lt_irrefl(a[0]);
            } else {
                assert(b[0] == a[0]);
            }
        }
        assert(a[0] == b[0]);
        let a1 = a.drop_first();
        let b1 = b.drop_first();
        assert forall|x: Seq<char>| a1.to_set().contains(x) implies b1.to_set().contains(x) by {
            let k = choose|k: int| 0 <= k < a1.len() && a1[k] == x;
            assert(a.to_set().contains(x));
            let m = choose|m: int| 0 <= m < b.len() && b[m] == x;
            if m == 0 {
                assert(str_lt(a[0], a[k + 1]));
                lemma_lt_irrefl(a[0]);
            }
            assert(b1[m - 1] == x);
        }
        assert forall|x: Seq<char>| b1.to_set().contains(x) implies a1.to_set().contains(x) by {
            let k = choose|k: int| 0 <= k < b1.len() && b1[k] == x;
            assert(b.to_set().contains(x));
            let m = choose|m: int| 0 <= m < a.len() && a[m] == x;
            if m == 0 {
                assert(str_lt(b[0], b[k + 1]));
                lemma_lt_irrefl(b[0]);
            }
            assert(a1[m - 1] == x);
        }
        assert(a1.to_set() =~= b1.to_set());
        lemma_sorted_names_unique(a1, b1);
        assert(a =~= seq![a[0]] + a1);
        assert(b =~= seq![b[0]] + b1);
    }
}

/// Add `x` to the ascending names, unless it is there already.
fn insert_name(names: &mut Vec<Vec<char>>, x: Vec<char>)
    requires
        strictly_sorted(views(old(names)@)),
    ensures
        strictly_sorted(views(final(names)@)),
        views(final(names)@).to_set() == views(old(names)@).to_set().insert(x@),
{
    let ghost s = views(names@);
    let mut p: usize = 0;
    while p < names.len() && str_less(&names[p], &x)
        invariant
            s == views(names@),
            p <= names@.len(),
            forall|i: int| 0 <= i < p ==> str_lt(#[trigger] s[i], x@),
        decreases names@.len() - p,
    {
        p += 1;
    }
    if p < names.len() && !str_less(&x, &names[p]) {
        proof {
            if s[p as int] != x@ {
                lemma_lt_total(s[p as int], x@);
            }
            assert(s.to_set().insert(x@) =~= s.to_set());
        }
        return;
    }
    names.insert(p, x);
    proof {
        let t = views(names@);
        assert(t =~= s.insert(p as int, x@));
        assert forall|i: int, j: int| 0 <= i < j < t.len() implies str_lt(#[trigger] t[i], #[trigger] t[j]) by {
            if p < s.len() {
                assert(str_lt(x@, s[p as int]));
            }
            if j == p {
                assert(t[i] == s[i]);
            } else if i == p {
                if j > p + 1 {
                    lemma_lt_trans(x@, s[p as int], s[j - 1]);
                }
            } else if i < p && j > p {
                if p < s.len() {
                    lemma_lt_trans(s[i], x@, s[p as int]);
                    if j > p + 1 {
                        lemma_lt_trans(s[i], s[p as int], s[j - 1]);
                    }
                }
            }
        }
        assert forall|y: Seq<char>| #[trigger] t.to_set().contains(y) == s.to_set().insert(x@).contains(y) by {
            if t.to_set().contains(y) {
                let k = choose|k: int| 0 <= k < t.len() && t[k] == y;
                if k < p {
                    assert(s[k] == y);
                } else if k > p {
                    assert(s[k - 1] == y);
                }
            }
            if s.to_set().contains(y) {
                let k = choose|k: int| 0 <= k < s.len() && s[k] == y;
                if k < p {
                    assert(t[k] == y);
                } else {
                    assert(t[k + 1] == y);
                }
            }
            if y == x@ {
                assert(t[p as int] == y);
            }
        }
        assert(t.to_set() =~= s.to_set().insert(x@));
    }
}

/// Add `x` to the ascending indexes, unless it is there already.
fn insert_sorted(v: &mut Vec<usize>, x: usize)
    requires
        forall|i: int, j: int| 0 <= i < j < old(v)@.len() ==> old(v)@[i] < old(v)@[j],
    ensures
        forall|i: int, j: int| 0 <= i < j < final(v)@.len() ==> final(v)@[i] < final(v)@[j],
        forall|y: usize| #[trigger] final(v)@.contains(y) <==> (old(v)@.contains(y) || y == x),
{
    let ghost s = v@;
    let mut p: usize = 0;
    while p < v.len() && v[p] < x
        invariant
            s == v@,
            p <= v@.len(),
            forall|i: int| 0 <= i < p ==> s[i] < x,
        decreases v@.len() - p,
    {
        p += 1;
    }
    if p < v.len() && v[p] == x {
        return;
    }
    v.insert(p, x);
    proof {
        assert(v@ =~= s.insert(p as int, x));
        assert forall|y: usize| #[trigger] v@.contains(y) <==> (s.contains(y) || y == x) by {
            if v@.contains(y) {
                let k = choose|k: int| 0 <= k < v@.len() && v@[k] == y;
                if k < p {
                    assert(s[k] == y);
                } else if k > p {
                    assert(s[k - 1] == y);
                }
            }
            if s.contains(y) {
                let k = choose|k: int| 0 <= k < s.len() && s[k] == y;
                if k < p {
                    assert(v@[k] == y);
                } else {
                    assert(v@[k + 1] == y);
                }
            }
            if y == x {
                assert(v@[p as int] == y);
            }
        }
    }
}

// ---------------------------------------------------------------------------
// The network

/// Position of the first '-' of a line (its length if there is none).
pub open spec fn first_dash(l: Seq<char>) -> int
    decreases l.len(),
{
    if l.len() == 0 || l[0] == '-' {
        0
    } else {
        1 + first_dash(l.drop_first())
    }
}

/// The two computers a line links: the text before and after its first '-'.
pub open spec fn edge_of(l: Seq<char>) -> (Seq<char>, Seq<char>) {
    let p = first_dash(l);
    (l.take(p), l.skip(p + 1))
}

/// The links of the input, one per line.
pub open spec fn edges(input: Seq<char>) -> Seq<(Seq<char>, Seq<char>)> {
    parse::lines_of(input).map_values(|l: Seq<char>| edge_of(l))
}

/// Every line holds a '-'.
pub open spec fn links_ok(input: Seq<char>) -> bool {
    forall|i: int| 0 <= i < parse::lines_of(input).len() ==> (#[trigger] parse::lines_of(input)[i]).contains('-')
}

/// Some link joins `x` and `y`, either way round.
pub open spec fn linked(es: Seq<(Seq<char>, Seq<char>)>, x: Seq<char>, y: Seq<char>) -> bool {
    exists|e: int| 0 <= e < es.len() && ((#[trigger] es[e].0 == x && es[e].1 == y) || (es[e].0 == y && es[e].1 == x))
}

/// The computers named by the links.
pub open spec fn nodes(es: Seq<(Seq<char>, Seq<char>)>) -> Set<Seq<char>> {
    Set::new(|x: Seq<char>| exists|e: int| 0 <= e < es.len() && (#[trigger] es[e].0 == x || es[e].1 == x))
}

/// The computers' names in ascending order.
pub open spec fn names_of(es: Seq<(Seq<char>, Seq<char>)>) -> Seq<Seq<char>> {
    choose|s: Seq<Seq<char>>| strictly_sorted(s) && s.to_set() == nodes(es)
}

/// The computers of the network in ascending order of their names, and for each the
/// ascending positions of those it is linked to.
pub struct Network {
    pub names: Vec<Vec<char>>,
    pub adj: Vec<Vec<usize>>,
}

impl Network {
    pub open spec fn wf(&self) -> bool {
        &&& strictly_sorted(views(self.names@))
        &&& self.adj@.len() == self.names@.len()
        &&& forall|i: int| 0 <= i < self.adj@.len() ==> {
            let a = #[trigger] self.adj@[i]@;
            &&& forall|x: int, y: int| 0 <= x < y < a.len() ==> a[x] < a[y]
            &&& forall|x: int| 0 <= x < a.len() ==> a[x] < self.names@.len()
        }
    }

    /// The network of links `es`.
    pub open spec fn of(&self, es: Seq<(Seq<char>, Seq<char>)>) -> bool {
        &&& self.wf()
        &&& views(self.names@) == names_of(es)
        &&& forall|i: int, j: int|
            0 <= i < self.names@.len() && 0 <= j < self.names@.len() ==> (#[trigger] self.adj@[i]@.contains(
                j as usize,
            ) <==> linked(es, names_of(es)[i], #[trigger] names_of(es)[j]))
    }
}

/// The characters `cs[b..e]`.
fn copy_range(cs: &Vec<char>, b: usize, e: usize) -> (v: Vec<char>)
    requires
        b <= e <= cs@.len(),
    ensures
        v@ == cs@.subrange(b as int, e as int),
{
    let mut v: Vec<char> = Vec::new();
    let mut i = b;
    while i < e
        invariant
            b <= i <= e <= cs@.len(),
            v@ == cs@.subrange(b as int, i as int),
        decreases e - i,
    {
        v.push(cs[i]);
        proof {
            assert(v@ =~= cs@.subrange(b as int, i + 1));
        }
        i += 1;
    }
    v
}

proof fn lemma_first_dash(l: Seq<char>)
    requires
        l.contains('-'),
    ensures
        0 <= first_dash(l) < l.len(),
        l[first_dash(l)] == '-',
        forall|k: int| 0 <= k < first_dash(l) ==> l[k] != '-',
    decreases l.len(),
{
    if l[0] != '-' {
        let k = choose|k: int| 0 <= k < l.len() && l[k] == '-';
        assert(l.drop_first()[k - 1] == '-');
        lemma_first_dash(l.drop_first());
        assert forall|k: int| 0 <= k < first_dash(l) implies l[k] != '-' by {
            if k > 0 {
                assert(l[k] == l.drop_first()[k - 1]);
            }
        }
    }
}

/// Position of a name among the ascending names.
fn position(names: &Vec<Vec<char>>, x: &Vec<char>) -> (r: usize)
    requires
        strictly_sorted(views(names@)),
        views(names@).to_set().contains(x@),
    ensures
        r < names@.len(),
        names@[r as int]@ == x@,
{
    let ghost s = views(names@);
    let mut p: usize = 0;
    while p < names.len()
        invariant
            s == views(names@),
            s.to_set().contains(x@),
            p <= names@.len(),
            forall|i: int| 0 <= i < p ==> s[i] != x@,
        decreases names@.len() - p,
    {
        if !str_less(&names[p], &x) && !str_less(&x, &names[p]) {
            proof {
                if s[p as int] != x@ {
                    lemma_lt_total(s[p as int], x@);
                }
            }
            return p;
        }
        proof {
            if s[p as int] == x@ {
                lemma_lt_irrefl(x@);
            }
        }
        p += 1;
    }
    proof {
        let k = choose|k: int| 0 <= k < s.len() && s[k] == x@;
    }
    0
}

proof fn lemma_nodes_step(es: Seq<(Seq<char>, Seq<char>)>, k: int)
    requires
        0 <= k < es.len(),
    ensures
        nodes(es.take(k + 1)) == nodes(es.take(k)).insert(es[k].0).insert(es[k].1),
{
    let a = es.take(k + 1);
    let b = es.take(k);
    assert forall|x: Seq<char>| #[trigger] nodes(a).contains(x) == nodes(b).insert(es[k].0).insert(es[k].1).contains(x) by {
        if nodes(a).contains(x) {
            let e = choose|e: int| 0 <= e < a.len() && (#[trigger] a[e].0 == x || a[e].1 == x);
            if e < k {
                assert(b[e] == a[e]);
            }
        }
        if nodes(b).contains(x) {
            let e = choose|e: int| 0 <= e < b.len() && (#[trigger] b[e].0 == x || b[e].1 == x);
            assert(a[e] == b[e]);
        }
        if x == es[k].0 || x == es[k].1 {
            assert(a[k] == es[k]);
        }
    }
    assert(nodes(a) =~= nodes(b).insert(es[k].0).insert(es[k].1));
}

/// Read the links and build the network.
pub fn parse_network(input: &str) -> (net: Network)
    requires
        links_ok(input@),
    ensures
        net.of(edges(input@)),
{
    let ghost es = edges(input@);
    let ghost lines = parse::lines_of(input@);
    let cs = parse::chars_of(input);
    let spans = parse::line_spans(&cs, 0, cs.len());
    proof {
        assert(cs@.subrange(0, cs@.len() as int) =~= input@);
    }
    // The two ends of each link.
    let mut ends: Vec<(Vec<char>, Vec<char>)> = Vec::new();
    let mut k: usize = 0;
    while k < spans.len()
        invariant
            cs@ == input@,
            lines == parse::lines_of(input@),
            es == edges(input@),
            links_ok(input@),
            spans@.len() == lines.len(),
            forall|q: int|
                0 <= q < spans@.len() ==> {
                    let (b, e) = #[trigger] spans@[q];
                    &&& 0 <= b <= e <= cs@.len()
                    &&& cs@.subrange(b as int, e as int) == lines[q]
                },
            k <= spans@.len(),
            ends@.len() == k,
            forall|q: int| 0 <= q < k ==> (#[trigger] ends@[q]).0@ == es[q].0 && ends@[q].1@ == es[q].1,
        decreases spans@.len() - k,
    {
        let (b, e) = spans[k];
        let ghost l = lines[k as int];
        proof {
            assert(l.contains('-'));
            lemma_first_dash(l);
        }
        let mut p = b;
        while cs[p] != '-'
            invariant
                b <= p < e <= cs@.len(),
                l == cs@.subrange(b as int, e as int),
                0 <= first_dash(l) < l.len(),
                l[first_dash(l)] == '-',
                forall|q: int| 0 <= q < first_dash(l) ==> l[q] != '-',
                p - b <= first_dash(l),
            decreases e - p,
        {
            proof {
                assert(l[p - b] == cs@[p as int]);
                if p - b == first_dash(l) {
                    assert(false);
                }
            }
            p += 1;
        }
        proof {
            assert(l[p - b] == '-');
            assert(p - b == first_dash(l));
        }
        let a = copy_range(&cs, b, p);
        let c = copy_range(&cs, p + 1, e);
        proof {
            assert(a@ =~= l.take(p - b));
            assert(c@ =~= l.skip(p - b + 1));
            assert(es[k as int] == edge_of(l));
        }
        ends.push((a, c));
        k += 1;
    }
    // The names, in ascending order.
    let mut names: Vec<Vec<char>> = Vec::new();
    let mut k: usize = 0;
    while k < ends.len()
        invariant
            es.len() == ends@.len(),
            forall|q: int| 0 <= q < ends@.len() ==> (#[trigger] ends@[q]).0@ == es[q].0 && ends@[q].1@ == es[q].1,
            k <= ends@.len(),
            strictly_sorted(views(names@)),
            views(names@).to_set() == nodes(es.take(k as int)),
        decreases ends@.len() - k,
    {
        let ghost before = views(names@).to_set();
        insert_name(&mut names, ends[k].0.clone());
        insert_name(&mut names, ends[k].1.clone());
        proof {
            lemma_nodes_step(es, k as int);
        }
        k += 1;
    }
    proof {
        assert(es.take(es.len() as int) =~= es);
        let nm = views(names@);
        lemma_sorted_names_unique(nm, names_of(es));
    }
    // The links of each computer.
    let n = names.len();
    let mut adj: Vec<Vec<usize>> = Vec::new();
    let mut i: usize = 0;
    while i < n
        invariant
            n == names@.len(),
            i <= n,
            adj@.len() == i,
            forall|q: int| 0 <= q < i ==> (#[trigger] adj@[q])@.len() == 0,
        decreases n - i,
    {
        adj.push(Vec::new());
        i += 1;
    }
    let ghost nm = views(names@);
    let mut k: usize = 0;
    while k < ends.len()
        invariant
            es.len() == ends@.len(),
            forall|q: int| 0 <= q < ends@.len() ==> (#[trigger] ends@[q]).0@ == es[q].0 && ends@[q].1@ == es[q].1,
            k <= ends@.len(),
            nm == views(names@),
            nm == names_of(es),
            strictly_sorted(nm),
            nm.to_set() == nodes(es),
            n == nm.len(),
            adj@.len() == n,
            forall|q: int| 0 <= q < n ==> {
                let a = #[trigger] adj@[q]@;
                &&& forall|x: int, y: int| 0 <= x < y < a.len() ==> a[x] < a[y]
                &&& forall|x: int| 0 <= x < a.len() ==> a[x] < n
            },
            forall|q: int, j: int|
                0 <= q < n && 0 <= j < n ==> (#[trigger] adj@[q]@.contains(j as usize) <==> linked(es.take(k as int), nm[q], #[trigger] nm[j])),
        decreases ends@.len() - k,
    {
        proof {
            assert(nodes(es).contains(es[k as int].0));
            assert(nodes(es).contains(es[k as int].1));
        }
        let ia = position(&names, &ends[k].0);
        let ic = position(&names, &ends[k].1);
        let ghost before = adj@;
        let ghost nb = nm;
        insert_sorted(&mut adj[ia], ic);
        let ghost mid = adj@;
        insert_sorted(&mut adj[ic], ia);
        proof {
            assert forall|q: int| 0 <= q < n implies {
                let a = #[trigger] adj@[q]@;
                &&& forall|x: int, y: int| 0 <= x < y < a.len() ==> a[x] < a[y]
                &&& forall|x: int| 0 <= x < a.len() ==> a[x] < n
            } by {
                let a = adj@[q]@;
                assert forall|x: int| 0 <= x < a.len() implies a[x] < n by {
                    assert(a.contains(a[x]));
                    if q == ic as int {
                        if a[x] != ia {
                            assert(mid[q]@.contains(a[x]));
                            if q == ia as int {
                                if a[x] != ic {
                                    assert(before[q]@.contains(a[x]));
                                    let y = choose|y: int| 0 <= y < before[q]@.len() && before[q]@[y] == a[x];
                                }
                            } else {
                                let y = choose|y: int| 0 <= y < mid[q]@.len() && mid[q]@[y] == a[x];
                            }
                        }
                    } else if q == ia as int {
                        if a[x] != ic {
                            assert(before[q]@.contains(a[x]));
                            let y = choose|y: int| 0 <= y < before[q]@.len() && before[q]@[y] == a[x];
                        }
                    }
                }
            }
            assert forall|q: int, j: int|
                0 <= q < n && 0 <= j < n implies (#[trigger] adj@[q]@.contains(j as usize) <==> linked(es.take(k + 1), nm[q], #[trigger] nm[j])) by {
                let lk = linked(es.take(k as int), nm[q], nm[j]);
                assert(before[q]@.contains(j as usize) <==> lk);
                // Distinct positions hold distinct names.
                if q != ia as int && nm[q] == nm[ia as int] {
                    if q < ia { lemma_lt_irrefl(nm[q]); } else { lemma_lt_irrefl(nm[q]); }
                }
                if j != ia as int && nm[j] == nm[ia as int] {
                    lemma_lt_irrefl(nm[j]);
                }
                if q != ic as int && nm[q] == nm[ic as int] {
                    lemma_lt_irrefl(nm[q]);
                }
                if j != ic as int && nm[j] == nm[ic as int] {
                    lemma_lt_irrefl(nm[j]);
                }
                if linked(es.take(k + 1), nm[q], nm[j]) {
                    let e = choose|e: int| 0 <= e < k + 1 && ((#[trigger] es.take(k + 1)[e].0 == nm[q] && es.take(k + 1)[e].1 == nm[j]) || (es.take(k + 1)[e].0 == nm[j] && es.take(k + 1)[e].1 == nm[q]));
                    if e < k {
                        assert(es.take(k as int)[e] == es.take(k + 1)[e]);
                    }
                }
                if lk {
                    let e = choose|e: int| 0 <= e < k && ((#[trigger] es.take(k as int)[e].0 == nm[q] && es.take(k as int)[e].1 == nm[j]) || (es.take(k as int)[e].0 == nm[j] && es.take(k as int)[e].1 == nm[q]));
                    assert(es.take(k as int)[e] == es.take(k + 1)[e]);
                }
                if (q == ia as int && j == ic as int) || (q == ic as int && j == ia as int) {
                    assert(es.take(k + 1)[k as int] == es[k as int]);
                }
            }
        }
        k += 1;
    }
    proof {
        assert(es.take(es.len() as int) =~= es);
    }
    Network { names, adj }
}

// ---------------------------------------------------------------------------
// Triangles

/// The name begins with 't'.
pub open spec fn starts_t(x: Seq<char>) -> bool {
    x.len() > 0 && x[0] == 't'
}

/// The computers at positions `i`, `j`, `k` of the ascending names are linked pairwise, and
/// one of them begins with 't'.
pub open spec fn t_triangle(es: Seq<(Seq<char>, Seq<char>)>, i: int, j: int, k: int) -> bool {
    let nm = names_of(es);
    &&& linked(es, nm[i], nm[j]) && linked(es, nm[i], nm[k]) && linked(es, nm[j], nm[k])
    &&& starts_t(nm[i]) || starts_t(nm[j]) || starts_t(nm[k])
}

/// A name counts as a 't' computer exactly when "t" is a prefix of it (`starts_with("t")`):
/// its first character is 't', whatever the characters after it.
pub proof fn lemma_starts_t_prefix(x: Seq<char>)
    ensures
        starts_t(x) <==> seq!['t'].is_prefix_of(x),
{
    if seq!['t'].is_prefix_of(x) {
        assert(x.subrange(0, 1)[0] == seq!['t'][0]);
    }
    if starts_t(x) {
        assert(x.subrange(0, 1) =~= seq!['t']);
    }
}

/// Three computers make a counted triangle exactly when they are linked pairwise and the
/// name of one of them has "t" as a prefix.
pub proof fn lemma_t_triangle_prefix(es: Seq<(Seq<char>, Seq<char>)>, i: int, j: int, k: int)
    ensures
        t_triangle(es, i, j, k) <==> {
            let nm = names_of(es);
            &&& linked(es, nm[i], nm[j]) && linked(es, nm[i], nm[k]) && linked(es, nm[j], nm[k])
            &&& seq!['t'].is_prefix_of(nm[i]) || seq!['t'].is_prefix_of(nm[j]) || seq!['t'].is_prefix_of(
                nm[k],
            )
        },
{
    let nm = names_of(es);
    lemma_starts_t_prefix(nm[i]);
    lemma_starts_t_prefix(nm[j]);
    lemma_starts_t_prefix(nm[k]);
}

proof fn lemma_no_t_count_k(es: Seq<(Seq<char>, Seq<char>)>, i: int, j: int, hi: int)
    requires
        forall|x: int| 0 <= x < names_of(es).len() ==> !seq!['t'].is_prefix_of(#[trigger] names_of(es)[x]),
        0 <= i < names_of(es).len(),
        0 <= j < names_of(es).len(),
        hi <= names_of(es).len(),
    ensures
        count_k(es, i, j, hi) == 0,
    decreases hi - j,
{
    if hi > j {
        lemma_no_t_count_k(es, i, j, hi - 1);
        lemma_t_triangle_prefix(es, i, j, hi - 1);
        if hi - 1 >= 0 {
            assert(!seq!['t'].is_prefix_of(names_of(es)[hi - 1]));
        }
        assert(!seq!['t'].is_prefix_of(names_of(es)[i]));
        assert(!seq!['t'].is_prefix_of(names_of(es)[j]));
    }
}

proof fn lemma_no_t_count_j(es: Seq<(Seq<char>, Seq<char>)>, i: int, hi: int)
    requires
        forall|x: int| 0 <= x < names_of(es).len() ==> !seq!['t'].is_prefix_of(#[trigger] names_of(es)[x]),
        0 <= i < names_of(es).len(),
        hi <= names_of(es).len(),
    ensures
        count_j(es, i, hi) == 0,
    decreases hi - i,
{
    if hi > i {
        lemma_no_t_count_j(es, i, hi - 1);
        lemma_no_t_count_k(es, i, hi - 1, names_of(es).len() as int);
    }
}

proof fn lemma_no_t_count_i(es: Seq<(Seq<char>, Seq<char>)>, hi: int)
    requires
        forall|x: int| 0 <= x < names_of(es).len() ==> !seq!['t'].is_prefix_of(#[trigger] names_of(es)[x]),
        hi <= names_of(es).len(),
    ensures
        count_i(es, hi) == 0,
    decreases hi,
{
    if hi > 0 {
        lemma_no_t_count_i(es, hi - 1);
        lemma_no_t_count_j(es, hi - 1, names_of(es).len() as int);
    }
}

/// A network in which no computer's name starts with 't' has no counted triangle, whatever
/// the other characters of the names.
pub proof fn lemma_no_t_no_triangles(es: Seq<(Seq<char>, Seq<char>)>)
    requires
        forall|x: int| 0 <= x < names_of(es).len() ==> !seq!['t'].is_prefix_of(#[trigger] names_of(es)[x]),
    ensures
        t_triangles(es) == 0,
{
    lemma_no_t_count_i(es, names_of(es).len() as int);
}

/// Number of `k` in `[j, hi)` that make a triangle with `i` and `j`.
pub open spec fn count_k(es: Seq<(Seq<char>, Seq<char>)>, i: int, j: int, hi: int) -> nat
    decreases hi - j,
{
    if hi <= j {
        0
    } else {
        count_k(es, i, j, hi - 1) + if t_triangle(es, i, j, hi - 1) { 1nat } else { 0 }
    }
}

/// Number of triangles `i <= j <= k` with `j < hi`.
pub open spec fn count_j(es: Seq<(Seq<char>, Seq<char>)>, i: int, hi: int) -> nat
    decreases hi - i,
{
    if hi <= i {
        0
    } else {
        count_j(es, i, hi - 1) + count_k(es, i, hi - 1, names_of(es).len() as int)
    }
}

/// Number of triangles `i <= j <= k` with `i < hi`.
pub open spec fn count_i(es: Seq<(Seq<char>, Seq<char>)>, hi: int) -> nat
    decreases hi,
{
    if hi <= 0 {
        0
    } else {
        count_i(es, hi - 1) + count_j(es, hi - 1, names_of(es).len() as int)
    }
}

/// Number of sets of three computers, each linked to the other two, of which one at least
/// has a name beginning with 't'.
pub open spec fn t_triangles(es: Seq<(Seq<char>, Seq<char>)>) -> nat {
    count_i(es, names_of(es).len() as int)
}

proof fn lemma_count_k_mono(es: Seq<(Seq<char>, Seq<char>)>, i: int, j: int, a: int, b: int)
    requires
        a <= b,
    ensures
        count_k(es, i, j, a) <= count_k(es, i, j, b),
    decreases b - a,
{
    if a < b {
        lemma_count_k_mono(es, i, j, a, b - 1);
    }
}

proof fn lemma_count_k_zero(es: Seq<(Seq<char>, Seq<char>)>, i: int, j: int, hi: int)
    requires
        !linked(es, names_of(es)[i], names_of(es)[j]),
    ensures
        count_k(es, i, j, hi) == 0,
    decreases hi - j,
{
    if hi > j {
        lemma_count_k_zero(es, i, j, hi - 1);
    }
}

proof fn lemma_count_j_mono(es: Seq<(Seq<char>, Seq<char>)>, i: int, a: int, b: int)
    requires
        a <= b,
    ensures
        count_j(es, i, a) <= count_j(es, i, b),
    decreases b - a,
{
    if a < b {
        lemma_count_j_mono(es, i, a, b - 1);
    }
}

proof fn lemma_count_i_mono(es: Seq<(Seq<char>, Seq<char>)>, a: int, b: int)
    requires
        a <= b,
    ensures
        count_i(es, a) <= count_i(es, b),
    decreases b - a,
{
    if a < b {
        lemma_count_i_mono(es, a, b - 1);
    }
}

/// Whether each pair of computers is linked, as a matrix.
fn link_matrix(net: &Network) -> (m: Vec<Vec<bool>>)
    requires
        net.wf(),
    ensures
        m@.len() == net.names@.len(),
        forall|i: int| 0 <= i < m@.len() ==> (#[trigger] m@[i])@.len() == net.names@.len(),
        forall|i: int, j: int|
            0 <= i < m@.len() && 0 <= j < m@.len() ==> #[trigger] m@[i]@[j] == net.adj@[i]@.contains(j as usize),
{
    let n = net.names.len();
    let mut m: Vec<Vec<bool>> = Vec::new();
    let mut i: usize = 0;
    while i < n
        invariant
            net.wf(),
            n == net.names@.len(),
            i <= n,
            m@.len() == i,
            forall|q: int| 0 <= q < i ==> (#[trigger] m@[q])@.len() == n,
            forall|q: int, j: int| 0 <= q < i && 0 <= j < n ==> #[trigger] m@[q]@[j] == net.adj@[q]@.contains(j as usize),
        decreases n - i,
    {
        let mut row: Vec<bool> = Vec::new();
        let mut j: usize = 0;
        while j < n
            invariant
                j <= n,
                row@.len() == j,
                forall|x: int| 0 <= x < j ==> !row@[x],
            decreases n - j,
        {
            row.push(false);
            j += 1;
        }
        let a = &net.adj[i];
        let ghost av = a@;
        proof {
            assert(net.adj@[i as int]@ == av);
        }
        let mut t: usize = 0;
        while t < a.len()
            invariant
                av == a@,
                forall|x: int| 0 <= x < av.len() ==> av[x] < n,
                t <= av.len(),
                row@.len() == n,
                forall|x: int| 0 <= x < n ==> (#[trigger] row@[x] <==> exists|y: int| 0 <= y < t && av[y] == x as usize),
            decreases av.len() - t,
        {
            let x = a[t];
            row.set(x, true);
            proof {
                assert forall|z: int| 0 <= z < n implies (#[trigger] row@[z] <==> exists|y: int| 0 <= y < t + 1 && av[y] == z as usize) by {
                    if z == x as int {
                        assert(av[t as int] == z as usize);
                    } else if exists|y: int| 0 <= y < t + 1 && av[y] == z as usize {
                        let y = choose|y: int| 0 <= y < t + 1 && av[y] == z as usize;
                        assert(y < t);
                    }
                }
            }
            t += 1;
        }
        proof {
            assert forall|z: int| 0 <= z < n implies (#[trigger] row@[z] == av.contains(z as usize)) by {
                if av.contains(z as usize) {
                    let y = choose|y: int| 0 <= y < av.len() && av[y] == z as usize;
                }
            }
        }
        m.push(row);
        i += 1;
    }
    m
}

/// Whether the name begins with 't'.
fn begins_t(x: &Vec<char>) -> (b: bool)
    ensures
        b == starts_t(x@),
{
    x.len() > 0 && x[0] == 't'
}

/// Number of sets of three linked computers of which one at least has a name beginning
/// with 't'.
pub fn part1(input: &str) -> (r: usize)
    requires
        links_ok(input@),
        t_triangles(edges(input@)) <= usize::MAX,
    ensures
        r == t_triangles(edges(input@)),
{
    let ghost es = edges(input@);
    let net = parse_network(input);
    let m = link_matrix(&net);
    let ghost nm = names_of(es);
    let n = net.names.len();
    let mut count: usize = 0;
    let mut i: usize = 0;
    while i < n
        invariant
            net.of(es),
            nm == names_of(es),
            n == nm.len(),
            m@.len() == n,
            forall|q: int| 0 <= q < n ==> (#[trigger] m@[q])@.len() == n,
            forall|q: int, j: int| 0 <= q < n && 0 <= j < n ==> #[trigger] m@[q]@[j] == linked(es, nm[q], nm[j]),
            i <= n,
            count == count_i(es, i as int),
            t_triangles(es) <= usize::MAX,
        decreases n - i,
    {
        proof {
            lemma_count_i_mono(es, i + 1, n as int);
        }
        let mut j: usize = i;
        let mut cj: usize = 0;
        while j < n
            invariant
                net.of(es),
                nm == names_of(es),
                n == nm.len(),
                m@.len() == n,
                forall|q: int| 0 <= q < n ==> (#[trigger] m@[q])@.len() == n,
                forall|q: int, x: int| 0 <= q < n && 0 <= x < n ==> #[trigger] m@[q]@[x] == linked(es, nm[q], nm[x]),
                i < n,
                i <= j <= n,
                cj == count_j(es, i as int, j as int),
                count == count_i(es, i as int),
                count + count_j(es, i as int, n as int) <= usize::MAX,
            decreases n - j,
        {
            proof {
                lemma_count_j_mono(es, i as int, j + 1, n as int);
                assert(m@[i as int]@[j as int] == linked(es, nm[i as int], nm[j as int]));
            }
            if m[i][j] {
                let ti = begins_t(&net.names[i]);
                let tj = begins_t(&net.names[j]);
                proof {
                    assert(views(net.names@)[i as int] == net.names@[i as int]@);
                    assert(views(net.names@)[j as int] == net.names@[j as int]@);
                }
                let mut k: usize = j;
                let mut ck: usize = 0;
                while k < n
                    invariant
                        net.of(es),
                        nm == names_of(es),
                        n == nm.len(),
                        m@.len() == n,
                        forall|q: int| 0 <= q < n ==> (#[trigger] m@[q])@.len() == n,
                        forall|q: int, x: int| 0 <= q < n && 0 <= x < n ==> #[trigger] m@[q]@[x] == linked(es, nm[q], nm[x]),
                        i < n,
                        i <= j < n,
                        j <= k <= n,
                        linked(es, nm[i as int], nm[j as int]),
                        ti == starts_t(nm[i as int]),
                        tj == starts_t(nm[j as int]),
                        ck == count_k(es, i as int, j as int, k as int),
                        count + cj + count_k(es, i as int, j as int, n as int) <= usize::MAX,
                    decreases n - k,
                {
                    proof {
                        lemma_count_k_mono(es, i as int, j as int, k + 1, n as int);
                        assert(m@[i as int]@[k as int] == linked(es, nm[i as int], nm[k as int]));
                        assert(m@[j as int]@[k as int] == linked(es, nm[j as int], nm[k as int]));
                        assert(views(net.names@)[k as int] == net.names@[k as int]@);
                    }
                    if m[i][k] && m[j][k] && (ti || tj || begins_t(&net.names[k])) {
                        ck += 1;
                    }
                    k += 1;
                }
                cj += ck;
            } else {
                proof {
                    lemma_count_k_zero(es, i as int, j as int, n as int);
                }
            }
            j += 1;
        }
        count += cj;
        i += 1;
    }
    count
}

// ---------------------------------------------------------------------------
// Sets of computers, in the order of their members' names

/// `a` comes strictly before `b`: element by element, a proper prefix first. For ascending
/// positions among the ascending names, this is the order of the sets of names.
pub open spec fn set_lt(a: Seq<usize>, b: Seq<usize>) -> bool
    decreases a.len(),
{
    if b.len() == 0 {
        false
    } else if a.len() == 0 {
        true
    } else if a[0] != b[0] {
        a[0] < b[0]
    } else {
        set_lt(a.drop_first(), b.drop_first())
    }
}

proof fn lemma_set_lt_irrefl(a: Seq<usize>)
    ensures
        !set_lt(a, a),
    decreases a.len(),
{
    if a.len() > 0 {
        lemma_set_lt_irrefl(a.drop_first());
    }
}

proof fn lemma_set_lt_trans(a: Seq<usize>, b: Seq<usize>, c: Seq<usize>)
    requires
        set_lt(a, b),
        set_lt(b, c),
    ensures
        set_lt(a, c),
    decreases a.len(),
{
    if a.len() > 0 && b.len() > 0 && c.len() > 0 {
        if a[0] == b[0] && b[0] == c[0] {
            lemma_set_lt_trans(a.drop_first(), b.drop_first(), c.drop_first());
        }
    }
}

proof fn lemma_set_lt_total(a: Seq<usize>, b: Seq<usize>)
    requires
        a != b,
    ensures
        set_lt(a, b) || set_lt(b, a),
    decreases a.len(),
{
    if a.len() == 0 {
        if b.len() == 0 {
            assert(a =~= b);
        }
    } else if b.len() == 0 {
    } else if a[0] == b[0] {
        if a.drop_first() == b.drop_first() {
            assert(a =~= seq![a[0]] + a.drop_first());
            assert(b =~= seq![b[0]] + b.drop_first());
        }
        lemma_set_lt_total(a.drop_first(), b.drop_first());
    }
}

/// Whether `a` comes strictly before `b`.
fn set_less(a: &Vec<usize>, b: &Vec<usize>) -> (r: bool)
    ensures
        r == set_lt(a@, b@),
{
    let mut i: usize = 0;
    proof {
        assert(a@.skip(0) =~= a@);
        assert(b@.skip(0) =~= b@);
    }
    while i < a.len() && i < b.len() && a[i] == b[i]
        invariant
            i <= a@.len(),
            i <= b@.len(),
            set_lt(a@, b@) == set_lt(a@.skip(i as int), b@.skip(i as int)),
        decreases a@.len() - i,
    {
        proof {
            assert(a@.skip(i as int).drop_first() =~= a@.skip(i + 1));
            assert(b@.skip(i as int).drop_first() =~= b@.skip(i + 1));
        }
        i += 1;
    }
    if i == b.len() {
        false
    } else if i == a.len() {
        true
    } else {
        a[i] < b[i]
    }
}

/// The sets in ascending order, equal ones side by side.
pub open spec fn sets_sorted(s: Seq<Seq<usize>>) -> bool {
    forall|i: int, j: int| 0 <= i < j < s.len() ==> !set_lt(#[trigger] s[j], #[trigger] s[i])
}

pub open spec fn set_views(v: Seq<Vec<usize>>) -> Seq<Seq<usize>> {
    v.map_values(|x: Vec<usize>| x@)
}

proof fn lemma_last_is_greatest(a: Seq<Seq<usize>>, x: Seq<usize>)
    requires
        sets_sorted(a),
        a.contains(x),
    ensures
        !set_lt(a.last(), x),
{
    let i = choose|i: int| 0 <= i < a.len() && a[i] == x;
    if i < a.len() - 1 {
        assert(!set_lt(a[a.len() - 1], a[i]));
    } else {
        lemma_set_lt_irrefl(x);
    }
}

/// Two ascending sequences of the same sets are equal.
proof fn lemma_sets_sorted_unique(a: Seq<Seq<usize>>, b: Seq<Seq<usize>>)
    requires
        sets_sorted(a),
        sets_sorted(b),
        a.to_multiset() == b.to_multiset(),
    ensures
        a == b,
    decreases a.len(),
{
    broadcast use vstd::seq_lib::group_to_multiset_ensures;

    assert(a.len() == a.to_multiset().len());
    assert(b.len() == b.to_multiset().len());
    if a.len() > 0 {
        let x = a.last();
        let y = b.last();
        assert(a.to_multiset().count(x) > 0);
        assert(b.contains(x));
        assert(b.to_multiset().count(y) > 0);
        assert(a.contains(y));
        lemma_last_is_greatest(b, x);
        lemma_last_is_greatest(a, y);
        if x != y {
            lemma_set_lt_total(x, y);
        }
        let a0 = a.drop_last();
        let b0 = b.drop_last();
        assert(a0.push(x) =~= a);
        assert(b0.push(x) =~= b);
        assert(a0.to_multiset() =~= b0.to_multiset()) by {
            assert(a0.push(x).to_multiset() =~= a0.to_multiset().insert(x));
            assert(b0.push(x).to_multiset() =~= b0.to_multiset().insert(x));
            assert forall|z: Seq<usize>| a0.to_multiset().count(z) == b0.to_multiset().count(z) by {
                assert(a0.to_multiset().insert(x).count(z) == b0.to_multiset().insert(x).count(z));
            }
        }
        lemma_sets_sorted_unique(a0, b0);
    } else {
        assert(a =~= b);
    }
}

/// The sets in ascending order (a stable insertion sort).
fn sort_sets(v: Vec<Vec<usize>>) -> (r: Vec<Vec<usize>>)
    ensures
        sets_sorted(set_views(r@)),
        set_views(r@).to_multiset() == set_views(v@).to_multiset(),
{
    broadcast use vstd::seq_lib::group_to_multiset_ensures;

    let mut r: Vec<Vec<usize>> = Vec::new();
    let mut t: usize = 0;
    while t < v.len()
        invariant
            t <= v@.len(),
            sets_sorted(set_views(r@)),
            set_views(r@).to_multiset() == set_views(v@.take(t as int)).to_multiset(),
        decreases v@.len() - t,
    {
        let x = v[t].clone();
        let ghost s = set_views(r@);
        let mut p: usize = 0;
        while p < r.len() && !set_less(&x, &r[p])
            invariant
                s == set_views(r@),
                p <= r@.len(),
                x@ == v@[t as int]@,
                forall|q: int| 0 <= q < p ==> !set_lt(x@, #[trigger] s[q]),
            decreases r@.len() - p,
        {
            p += 1;
        }
        let ghost xv = x@;
        r.insert(p, x);
        proof {
            let s2 = set_views(r@);
            assert(s2 =~= s.insert(p as int, xv));
            vstd::seq_lib::to_multiset_insert(s, p as int, xv);
            assert(set_views(v@.take(t + 1)) =~= set_views(v@.take(t as int)).push(xv));
            vstd::seq_lib::to_multiset_build(set_views(v@.take(t as int)), xv);
            assert forall|i: int, j: int| 0 <= i < j < s2.len() implies !set_lt(#[trigger] s2[j], #[trigger] s2[i]) by {
                if i == p {
                    // x sorts before every later set.
                    if j - 1 > p {
                        assert(set_lt(xv, s[p as int]));
                        if set_lt(s[j - 1], xv) {
                            lemma_set_lt_trans(s[j - 1], xv, s[p as int]);
                        }
                    } else {
                        assert(set_lt(xv, s[p as int]));
                        if set_lt(s[p as int], xv) {
                            lemma_set_lt_trans(xv, s[p as int], xv);
                            lemma_set_lt_irrefl(xv);
                        }
                    }
                } else if j == p {
                    // and after every earlier one.
                    assert(!set_lt(xv, s[i]));
                } else if i < p && j > p {
                    assert(!set_lt(s[j - 1], s[i]));
                }
            }
        }
        t += 1;
    }
    proof {
        assert(v@.take(v@.len() as int) =~= v@);
    }
    r
}

/// The computer `k` and those linked to it, as ascending positions below `hi`.
pub open spec fn circle(es: Seq<(Seq<char>, Seq<char>)>, k: int, hi: int) -> Seq<usize>
    decreases hi,
{
    if hi <= 0 {
        seq![]
    } else {
        let rest = circle(es, k, hi - 1);
        if hi - 1 == k || linked(es, names_of(es)[k], names_of(es)[hi - 1]) {
            rest.push((hi - 1) as usize)
        } else {
            rest
        }
    }
}

proof fn lemma_circle_bounds(es: Seq<(Seq<char>, Seq<char>)>, k: int, hi: int)
    requires
        0 <= hi,
    ensures
        forall|t: int| 0 <= t < circle(es, k, hi).len() ==> #[trigger] circle(es, k, hi)[t] < hi,
    decreases hi,
{
    if hi > 0 {
        lemma_circle_bounds(es, k, hi - 1);
        let rest = circle(es, k, hi - 1);
        assert forall|t: int| 0 <= t < circle(es, k, hi).len() implies #[trigger] circle(es, k, hi)[t] < hi by {
            if t < rest.len() {
                assert(circle(es, k, hi)[t] == rest[t]);
            }
        }
    }
}

/// Each computer with those it is linked to, in the order of the computers.
pub open spec fn circles(es: Seq<(Seq<char>, Seq<char>)>) -> Seq<Seq<usize>> {
    Seq::new(names_of(es).len(), |k: int| circle(es, k, names_of(es).len() as int))
}

/// The same sets in ascending order.
pub open spec fn sorted_circles(es: Seq<(Seq<char>, Seq<char>)>) -> Seq<Seq<usize>> {
    choose|s: Seq<Seq<usize>>| sets_sorted(s) && s.to_multiset() == circles(es).to_multiset()
}

/// Every member of `c` is a member of `s`.
pub open spec fn within(c: Seq<usize>, s: Seq<usize>) -> bool {
    forall|x: usize| #[trigger] c.contains(x) ==> s.contains(x)
}

/// Number of the sets among the first `hi` that hold `c`.
pub open spec fn holders(ns: Seq<Seq<usize>>, c: Seq<usize>, hi: int) -> nat
    decreases hi,
{
    if hi <= 0 {
        0
    } else {
        holders(ns, c, hi - 1) + if within(c, ns[hi - 1]) { 1nat } else { 0 }
    }
}

/// `c` is a clique candidate: it has no more members than there are sets that hold it.
pub open spec fn qualifies(ns: Seq<Seq<usize>>, c: Seq<usize>) -> bool {
    c.len() <= holders(ns, c, ns.len() as int)
}

/// The last qualifying set `ns[p]` without one of its first `i` members.
pub open spec fn last_in_set(ns: Seq<Seq<usize>>, p: int, i: int) -> Option<Seq<usize>>
    decreases i,
{
    if i <= 0 {
        None
    } else if qualifies(ns, ns[p].remove(i - 1)) {
        Some(ns[p].remove(i - 1))
    } else {
        last_in_set(ns, p, i - 1)
    }
}

/// The last qualifying candidate from the first `p` sets.
pub open spec fn last_upto(ns: Seq<Seq<usize>>, p: int) -> Option<Seq<usize>>
    decreases p,
{
    if p <= 0 {
        None
    } else {
        match last_in_set(ns, p - 1, ns[p - 1].len() as int) {
            Some(c) => Some(c),
            None => last_upto(ns, p - 1),
        }
    }
}

/// The clique found: the last qualifying candidate, or no computer at all.
pub open spec fn clique(ns: Seq<Seq<usize>>) -> Seq<usize> {
    match last_upto(ns, ns.len() as int) {
        Some(c) => c,
        None => seq![],
    }
}

/// The password: the names of the clique's computers, in order, joined by commas.
pub open spec fn password(es: Seq<(Seq<char>, Seq<char>)>) -> Seq<char> {
    text::join(clique(sorted_circles(es)).map_values(|x: usize| names_of(es)[x as int]), ","@)
}

/// `s` without its member at position `i`.
fn without(s: &Vec<usize>, i: usize) -> (r: Vec<usize>)
    requires
        i < s@.len(),
    ensures
        r@ == s@.remove(i as int),
{
    let mut r: Vec<usize> = Vec::new();
    let mut j: usize = 0;
    while j < s.len()
        invariant
            i < s@.len(),
            j <= s@.len(),
            r@ == (if j <= i { s@.take(j as int) } else { s@.take(j as int).remove(i as int) }),
        decreases s@.len() - j,
    {
        if j != i {
            r.push(s[j]);
        }
        proof {
            if j < i {
                assert(s@.take(j + 1) =~= s@.take(j as int).push(s@[j as int]));
            } else if j == i {
                assert(s@.take(j + 1).remove(i as int) =~= s@.take(j as int));
            } else {
                assert(s@.take(j + 1).remove(i as int) =~= s@.take(j as int).remove(i as int).push(s@[j as int]));
            }
        }
        j += 1;
    }
    proof {
        assert(s@.take(s@.len() as int) =~= s@);
    }
    r
}

/// The largest group of computers all linked to each other, as the search of the puzzle
/// finds it: for each computer with those it is linked to, in the order of these sets, each
/// set less one of its members is a candidate, and the last candidate held by at least as
/// many of the sets as it has members is the answer. Its names are given in order, joined
/// by commas.
pub fn part2(input: &str) -> (r: String)
    requires
        links_ok(input@),
    ensures
        r@ == password(edges(input@)),
{
    let ghost es = edges(input@);
    let net = parse_network(input);
    let m = link_matrix(&net);
    let ghost nm = names_of(es);
    let n = net.names.len();
    // Each computer with those it is linked to.
    let mut sets: Vec<Vec<usize>> = Vec::new();
    let mut k: usize = 0;
    while k < n
        invariant
            net.of(es),
            nm == names_of(es),
            n == nm.len(),
            m@.len() == n,
            forall|q: int| 0 <= q < n ==> (#[trigger] m@[q])@.len() == n,
            forall|q: int, j: int| 0 <= q < n && 0 <= j < n ==> #[trigger] m@[q]@[j] == linked(es, nm[q], nm[j]),
            k <= n,
            set_views(sets@) == circles(es).take(k as int),
        decreases n - k,
    {
        let mut c: Vec<usize> = Vec::new();
        let mut j: usize = 0;
        while j < n
            invariant
                n == nm.len(),
                m@.len() == n,
                forall|q: int| 0 <= q < n ==> (#[trigger] m@[q])@.len() == n,
                forall|q: int, x: int| 0 <= q < n && 0 <= x < n ==> #[trigger] m@[q]@[x] == linked(es, nm[q], nm[x]),
                nm == names_of(es),
                k < n,
                j <= n,
                c@ == circle(es, k as int, j as int),
            decreases n - j,
        {
            proof {
                assert(m@[k as int]@[j as int] == linked(es, nm[k as int], nm[j as int]));
            }
            if j == k || m[k][j] {
                c.push(j);
            }
            j += 1;
        }
        let ghost old_sets = set_views(sets@);
        let ghost cc = c@;
        sets.push(c);
        proof {
            assert(circles(es)[k as int] == cc);
            assert(set_views(sets@) =~= old_sets.push(cc));
            assert(set_views(sets@) =~= circles(es).take(k + 1));
        }
        k += 1;
    }
    proof {
        assert(circles(es).take(n as int) =~= circles(es));
    }
    let sets = sort_sets(sets);
    let ghost ns = set_views(sets@);
    proof {
        lemma_sets_sorted_unique(ns, sorted_circles(es));
        assert forall|q: int, t: int| 0 <= q < ns.len() && 0 <= t < ns[q].len() implies #[trigger] ns[q][t] < n by {
            broadcast use vstd::seq_lib::group_to_multiset_ensures;
            assert(ns.contains(ns[q]));
            assert(ns.to_multiset().count(ns[q]) > 0);
            assert(circles(es).contains(ns[q]));
            let k = choose|k: int| 0 <= k < circles(es).len() && circles(es)[k] == ns[q];
            lemma_circle_bounds(es, k, n as int);
        }
        assert(ns.len() == n) by {
            broadcast use vstd::seq_lib::group_to_multiset_ensures;
            assert(ns.len() == ns.to_multiset().len());
            assert(circles(es).len() == circles(es).to_multiset().len());
        }
    }
    // Which positions each set holds.
    let mut holds: Vec<Vec<bool>> = Vec::new();
    let mut p: usize = 0;
    while p < sets.len()
        invariant
            ns == set_views(sets@),
            ns.len() == n,
            p <= n,
            holds@.len() == p,
            forall|q: int| 0 <= q < p ==> (#[trigger] holds@[q])@.len() == n,
            forall|q: int, x: int| 0 <= q < p && 0 <= x < n ==> #[trigger] holds@[q]@[x] == ns[q].contains(x as usize),
            forall|q: int, t: int| 0 <= q < n && 0 <= t < ns[q].len() ==> #[trigger] ns[q][t] < n,
        decreases n - p,
    {
        let mut row: Vec<bool> = Vec::new();
        let mut x: usize = 0;
        while x < n
            invariant
                x <= n,
                row@.len() == x,
                forall|y: int| 0 <= y < x ==> !row@[y],
            decreases n - x,
        {
            row.push(false);
            x += 1;
        }
        let s = &sets[p];
        let ghost sv = s@;
        proof {
            assert(ns[p as int] == sv);
        }
        let mut t: usize = 0;
        while t < s.len()
            invariant
                sv == s@,
                forall|y: int| 0 <= y < sv.len() ==> sv[y] < n,
                t <= sv.len(),
                row@.len() == n,
                forall|z: int| 0 <= z < n ==> (#[trigger] row@[z] <==> exists|y: int| 0 <= y < t && sv[y] == z as usize),
            decreases sv.len() - t,
        {
            let z0 = s[t];
            row.set(z0, true);
            proof {
                assert forall|z: int| 0 <= z < n implies (#[trigger] row@[z] <==> exists|y: int| 0 <= y < t + 1 && sv[y] == z as usize) by {
                    if z == z0 as int {
                        assert(sv[t as int] == z as usize);
                    } else if exists|y: int| 0 <= y < t + 1 && sv[y] == z as usize {
                        let y = choose|y: int| 0 <= y < t + 1 && sv[y] == z as usize;
                        assert(y < t);
                    }
                }
            }
            t += 1;
        }
        proof {
            assert forall|z: int| 0 <= z < n implies (#[trigger] row@[z] == sv.contains(z as usize)) by {
                if sv.contains(z as usize) {
                    let y = choose|y: int| 0 <= y < sv.len() && sv[y] == z as usize;
                }
            }
        }
        holds.push(row);
        p += 1;
    }
    // The search.
    let mut best: Vec<usize> = Vec::new();
    let mut p: usize = 0;
    while p < sets.len()
        invariant
            ns == set_views(sets@),
            ns.len() == n,
            p <= n,
            holds@.len() == n,
            forall|q: int| 0 <= q < n ==> (#[trigger] holds@[q])@.len() == n,
            forall|q: int, x: int| 0 <= q < n && 0 <= x < n ==> #[trigger] holds@[q]@[x] == ns[q].contains(x as usize),
            forall|q: int, t: int| 0 <= q < n && 0 <= t < ns[q].len() ==> #[trigger] ns[q][t] < n,
            best@ == (match last_upto(ns, p as int) {
                Some(c) => c,
                None => seq![],
            }),
            forall|u: int| 0 <= u < best@.len() ==> #[trigger] best@[u] < n,
        decreases n - p,
    {
        let mut i: usize = 0;
        let ghost before = best@;
        while i < sets[p].len()
            invariant
                ns == set_views(sets@),
                ns.len() == n,
                p < n,
                i <= ns[p as int].len(),
                holds@.len() == n,
                forall|q: int| 0 <= q < n ==> (#[trigger] holds@[q])@.len() == n,
                forall|q: int, x: int| 0 <= q < n && 0 <= x < n ==> #[trigger] holds@[q]@[x] == ns[q].contains(x as usize),
                forall|q: int, t: int| 0 <= q < n && 0 <= t < ns[q].len() ==> #[trigger] ns[q][t] < n,
                before == (match last_upto(ns, p as int) {
                    Some(c) => c,
                    None => seq![],
                }),
                best@ == (match last_in_set(ns, p as int, i as int) {
                    Some(c) => c,
                    None => before,
                }),
                forall|u: int| 0 <= u < best@.len() ==> #[trigger] best@[u] < n,
            decreases ns[p as int].len() - i,
        {
            proof {
                assert(sets@[p as int]@ == ns[p as int]);
            }
            let cand = without(&sets[p], i);
            let ghost cv = cand@;
            proof {
                assert forall|t: int| 0 <= t < cv.len() implies #[trigger] cv[t] < n by {
                    if t < i {
                        assert(cv[t] == ns[p as int][t]);
                    } else {
                        assert(cv[t] == ns[p as int][t + 1]);
                    }
                }
            }
            // How many sets hold the candidate.
            let mut count: usize = 0;
            let mut q: usize = 0;
            while q < sets.len()
                invariant
                    ns == set_views(sets@),
                    ns.len() == n,
                    q <= n,
                    holds@.len() == n,
                    forall|y: int| 0 <= y < n ==> (#[trigger] holds@[y])@.len() == n,
                    forall|y: int, x: int| 0 <= y < n && 0 <= x < n ==> #[trigger] holds@[y]@[x] == ns[y].contains(x as usize),
                    cv == cand@,
                    forall|t: int| 0 <= t < cv.len() ==> #[trigger] cv[t] < n,
                    count == holders(ns, cv, q as int),
                    count <= q,
                decreases n - q,
            {
                let mut all = true;
                let mut t: usize = 0;
                while t < cand.len()
                    invariant
                        cv == cand@,
                        forall|u: int| 0 <= u < cv.len() ==> #[trigger] cv[u] < n,
                        q < n,
                        holds@.len() == n,
                        forall|y: int| 0 <= y < n ==> (#[trigger] holds@[y])@.len() == n,
                        forall|y: int, x: int| 0 <= y < n && 0 <= x < n ==> #[trigger] holds@[y]@[x] == ns[y].contains(x as usize),
                        t <= cv.len(),
                        all <==> forall|u: int| 0 <= u < t ==> ns[q as int].contains(#[trigger] cv[u]),
                    decreases cv.len() - t,
                {
                    proof {
                        assert(holds@[q as int]@[cv[t as int] as int] == ns[q as int].contains(cv[t as int]));
                    }
                    if !holds[q][cand[t]] {
                        all = false;
                    }
                    t += 1;
                }
                proof {
                    assert(all == within(cv, ns[q as int])) by {
                        if all {
                            assert forall|x: usize| #[trigger] cv.contains(x) implies ns[q as int].contains(x) by {
                                let u = choose|u: int| 0 <= u < cv.len() && cv[u] == x;
                            }
                        } else {
                            let u = choose|u: int| 0 <= u < t && !ns[q as int].contains(#[trigger] cv[u]);
                            assert(cv.contains(cv[u]));
                        }
                    }
                }
                if all {
                    count += 1;
                }
                q += 1;
            }
            if cand.len() <= count {
                best = cand;
            }
            i += 1;
        }
        proof {
            assert(ns[p as int].len() == sets@[p as int]@.len());
        }
        p += 1;
    }
    // The names, joined by commas.
    let mut parts: Vec<String> = Vec::new();
    let mut t: usize = 0;
    let ghost cl = best@;
    proof {
        assert(cl == clique(sorted_circles(es)));
    }
    while t < best.len()
        invariant
            net.of(es),
            nm == names_of(es),
            n == nm.len(),
            cl == best@,
            forall|u: int| 0 <= u < cl.len() ==> #[trigger] cl[u] < n,
            t <= cl.len(),
            parts@.map_values(|x: String| x@) == cl.take(t as int).map_values(|x: usize| nm[x as int]),
        decreases cl.len() - t,
    {
        let name = &net.names[best[t]];
        proof {
            assert(views(net.names@)[cl[t as int] as int] == name@);
            assert(name@ == nm[cl[t as int] as int]);
        }
        let mut sname = String::new();
        let mut c: usize = 0;
        while c < name.len()
            invariant
                c <= name@.len(),
                sname@ == name@.take(c as int),
            decreases name@.len() - c,
        {
            let one = array2d::char_string(name[c]);
            sname.append(one.as_str());
            proof {
                assert(name@.take(c + 1) =~= name@.take(c as int).push(name@[c as int]));
            }
            c += 1;
        }
        proof {
            assert(name@.take(c as int) =~= name@);
        }
        let ghost old_parts = parts@.map_values(|x: String| x@);
        let ghost sv = sname@;
        parts.push(sname);
        proof {
            assert(parts@.map_values(|x: String| x@) =~= old_parts.push(sv));
            assert(cl.take(t + 1) =~= cl.take(t as int).push(cl[t as int]));
            assert(cl.take(t + 1).map_values(|x: usize| nm[x as int]) =~= cl.take(t as int).map_values(|x: usize| nm[x as int]).push(nm[cl[t as int] as int]));
            assert(parts@.map_values(|x: String| x@) =~= cl.take(t + 1).map_values(|x: usize| nm[x as int]));
        }
        t += 1;
    }
    proof {
        assert(cl.take(cl.len() as int) =~= cl);
    }
    text::slice_to_line(parts.as_slice(), ",")
}

} // verus!
