use crate::lgl::parse;
use vstd::prelude::*;

verus! {

/// `p` occurs in `s` at position `i`.
pub open spec fn matches_at(s: Seq<char>, i: int, p: Seq<char>) -> bool {
    0 <= i && i + p.len() <= s.len() && s.subrange(i, i + p.len()) == p
}

/// Among the first `m` patterns, those ending at `j` and starting before `lim` contribute the
/// number of ways to build the prefix they start at.
pub open spec fn ending_sum(avail: Seq<Seq<char>>, s: Seq<char>, j: int, lim: int, m: int) -> int
    decreases j, 0int, m,
{
    if m <= 0 || j <= 0 {
        0
    } else {
        let p = avail[m - 1];
        ending_sum(avail, s, j, lim, m - 1) + (if p.len() >= 1 && j - p.len() < lim
            && matches_at(s, j - p.len(), p) {
            prefix_ways(avail, s, j - p.len())
        } else {
            0
        })
    }
}

/// Number of ways to build `s[..j]` by concatenating patterns of `avail` (a pattern that occurs
/// several times in `avail` counts once for each occurrence).
pub open spec fn prefix_ways(avail: Seq<Seq<char>>, s: Seq<char>, j: int) -> int
    decreases j, 1int, 0int,
{
    if j <= 0 {
        1
    } else {
        ending_sum(avail, s, j, j, avail.len() as int)
    }
}

/// Number of ways to build `s` by concatenating patterns of `avail`.
pub open spec fn ways(avail: Seq<Seq<char>>, s: Seq<char>) -> int {
    prefix_ways(avail, s, s.len() as int)
}

/// `s[i..]` can be built from the patterns (non-empty ones only).
pub open spec fn possible_from(avail: Seq<Seq<char>>, s: Seq<char>, i: int) -> bool
    decreases s.len() - i,
{
    if i >= s.len() {
        true
    } else {
        exists|k: int|
            0 <= k < avail.len() && avail[k].len() >= 1 && #[trigger] matches_at(s, i, avail[k])
                && possible_from(avail, s, i + avail[k].len())
    }
}

/// All patterns are non-empty.
pub open spec fn non_empty(avail: Seq<Seq<char>>) -> bool {
    forall|k: int| 0 <= k < avail.len() ==> (#[trigger] avail[k]).len() >= 1
}

proof fn lemma_ending_sum_nonneg(avail: Seq<Seq<char>>, s: Seq<char>, j: int, lim: int, m: int)
    ensures
        ending_sum(avail, s, j, lim, m) >= 0,
    decreases j, 0int, m,
{
    if m > 0 && j > 0 {
        lemma_ending_sum_nonneg(avail, s, j, lim, m - 1);
        let p = avail[m - 1];
        if p.len() >= 1 && j - p.len() < lim && matches_at(s, j - p.len(), p) {
            lemma_prefix_ways_nonneg(avail, s, j - p.len());
        }
    }
}

proof fn lemma_prefix_ways_nonneg(avail: Seq<Seq<char>>, s: Seq<char>, j: int)
    ensures
        prefix_ways(avail, s, j) >= 0,
    decreases j, 1int, 0int,
{
    if j > 0 {
        lemma_ending_sum_nonneg(avail, s, j, j, avail.len() as int);
    }
}

/// Number of the first `m` patterns that occur at `i` and end at `j`.
pub open spec fn count_ending(avail: Seq<Seq<char>>, s: Seq<char>, i: int, j: int, m: int) -> int
    decreases m,
{
    if m <= 0 {
        0
    } else {
        count_ending(avail, s, i, j, m - 1) + (if avail[m - 1].len() >= 1 && i + avail[m - 1].len()
            == j && matches_at(s, i, avail[m - 1]) {
            1int
        } else {
            0
        })
    }
}

proof fn lemma_ending_sum_step(avail: Seq<Seq<char>>, s: Seq<char>, j: int, i: int, m: int)
    requires
        0 <= i < j,
    ensures
        ending_sum(avail, s, j, i + 1, m) == ending_sum(avail, s, j, i, m) + count_ending(
            avail,
            s,
            i,
            j,
            m,
        ) * prefix_ways(avail, s, i),
    decreases m,
{
    if m > 0 {
        lemma_ending_sum_step(avail, s, j, i, m - 1);
        assert((count_ending(avail, s, i, j, m - 1) + 1) * prefix_ways(avail, s, i) == count_ending(
            avail,
            s,
            i,
            j,
            m - 1,
        ) * prefix_ways(avail, s, i) + prefix_ways(avail, s, i)) by (nonlinear_arith);
    }
}

proof fn lemma_ending_sum_zero(avail: Seq<Seq<char>>, s: Seq<char>, j: int, m: int)
    ensures
        ending_sum(avail, s, j, 0, m) == 0,
    decreases m,
{
    if m > 0 {
        lemma_ending_sum_zero(avail, s, j, m - 1);
    }
}

proof fn lemma_ending_sum_mono(avail: Seq<Seq<char>>, s: Seq<char>, j: int, lim: int, m: int)
    requires
        lim >= 0,
    ensures
        ending_sum(avail, s, j, lim, m) <= ending_sum(avail, s, j, j, m),
    decreases m,
{
    if m > 0 && j > 0 {
        lemma_ending_sum_mono(avail, s, j, lim, m - 1);
        let p = avail[m - 1];
        if p.len() >= 1 && matches_at(s, j - p.len(), p) {
            lemma_prefix_ways_nonneg(avail, s, j - p.len());
        }
    }
}

/// Whether `s[i..]` starts with `p`.
fn starts_with_at(s: &[char], i: usize, p: &[char]) -> (b: bool)
    requires
        i <= s@.len(),
    ensures
        b == matches_at(s@, i as int, p@),
{
    if p.len() > s.len() - i {
        return false;
    }
    let sl = s.len();
    let mut k: usize = 0;
    while k < p.len()
        invariant
            sl == s@.len(),
            i <= s@.len(),
            i + p@.len() <= s@.len(),
            k <= p@.len(),
            forall|t: int| 0 <= t < k ==> s@[i + t] == p@[t],
        decreases p@.len() - k,
    {
        assert(i + k < s@.len());
        if s[i + k] != p[k] {
            assert(s@.subrange(i as int, i + p@.len())[k as int] != p@[k as int]);
            return false;
        }
        k += 1;
    }
    assert(s@.subrange(i as int, i + p@.len()) =~= p@);
    true
}

pub open spec fn views(v: Seq<Vec<char>>) -> Seq<Seq<char>> {
    v.map_values(|p: Vec<char>| p@)
}

/// Nb. different ways the requested string can be created by concatenating available strings.
/// All available must be non-empty.
pub fn ways_to_match(available: &Vec<Vec<char>>, requested: &[char]) -> (n: usize)
    requires
        non_empty(views(available@)),
        forall|j: int|
            0 <= j <= requested@.len() ==> #[trigger] prefix_ways(views(available@), requested@, j)
                <= usize::MAX,
    ensures
        n == ways(views(available@), requested@),
{
    let ghost av = views(available@);
    let ghost s = requested@;
    let n = requested.len();
    let mut nb_ways: Vec<usize> = Vec::new();
    nb_ways.push(1);
    let mut j: usize = 0;
    while j < n
        invariant
            j <= n,
            n == s.len(),
            nb_ways@.len() == j + 1,
            forall|t: int| 0 <= t <= j ==> nb_ways@[t] == (if t == 0 { 1int } else { 0 }),
        decreases n - j,
    {
        nb_ways.push(0);
        j += 1;
    }
    proof {
        assert forall|t: int| 1 <= t <= n implies nb_ways@[t] == ending_sum(av, s, t, 0, av.len() as int) by {
            lemma_ending_sum_zero(av, s, t, av.len() as int);
        }
    }
    let mut i: usize = 0;
    while i < n
        invariant
            av == views(available@),
            s == requested@,
            n == s.len(),
            non_empty(av),
            forall|t: int| 0 <= t <= n ==> #[trigger] prefix_ways(av, s, t) <= usize::MAX,
            i <= n,
            nb_ways@.len() == n + 1,
            forall|t: int| 0 <= t <= i ==> nb_ways@[t] == prefix_ways(av, s, t),
            forall|t: int| i < t <= n ==> nb_ways@[t] == ending_sum(av, s, t, i as int, av.len() as int),
        decreases n - i,
    {
        let ghost before = nb_ways@;
        let w = nb_ways[i];
        let mut k: usize = 0;
        while k < available.len()
            invariant
                av == views(available@),
                s == requested@,
                n == s.len(),
                non_empty(av),
                forall|t: int| 0 <= t <= n ==> #[trigger] prefix_ways(av, s, t) <= usize::MAX,
                i < n,
                k <= av.len(),
                w == prefix_ways(av, s, i as int),
                nb_ways@.len() == n + 1,
                forall|t: int| 0 <= t <= i ==> nb_ways@[t] == before[t],
                before.len() == n + 1,
                forall|t: int|
                    i < t <= n ==> before[t] == ending_sum(av, s, t, i as int, av.len() as int),
                forall|t: int| 0 <= t <= i ==> before[t] == prefix_ways(av, s, t),
                forall|t: int|
                    i < t <= n ==> nb_ways@[t] == before[t] + count_ending(av, s, i as int, t, k as int)
                        * w,
            decreases av.len() - k,
        {
            let a = &available[k];
            assert(a@ == av[k as int]);
            if starts_with_at(requested, i, a) {
                let j = i + a.len();
                proof {
                    lemma_ending_sum_step(av, s, j as int, i as int, av.len() as int);
                    lemma_ending_sum_mono(av, s, j as int, i + 1, av.len() as int);
                    lemma_ending_sum_nonneg(av, s, j as int, i as int, av.len() as int);
                    assert(count_ending(av, s, i as int, j as int, k + 1) == count_ending(
                        av,
                        s,
                        i as int,
                        j as int,
                        k as int,
                    ) + 1);
                    lemma_count_ending_le(av, s, i as int, j as int, k + 1, av.len() as int);
                    lemma_prefix_ways_nonneg(av, s, i as int);
                    assert(count_ending(av, s, i as int, j as int, k + 1) * w <= count_ending(
                        av,
                        s,
                        i as int,
                        j as int,
                        av.len() as int,
                    ) * w) by (nonlinear_arith)
                        requires
                            count_ending(av, s, i as int, j as int, k + 1) <= count_ending(
                                av,
                                s,
                                i as int,
                                j as int,
                                av.len() as int,
                            ),
                            w >= 0,
                    ;
                    assert((count_ending(av, s, i as int, j as int, k as int) + 1) * w == count_ending(
                        av,
                        s,
                        i as int,
                        j as int,
                        k as int,
                    ) * w + w) by (nonlinear_arith);
                }
                let cur = nb_ways[j];
                assert(cur == before[j as int] + count_ending(av, s, i as int, j as int, k as int) * w);
                assert(before[j as int] == ending_sum(av, s, j as int, i as int, av.len() as int));
                assert(prefix_ways(av, s, j as int) == ending_sum(av, s, j as int, j as int, av.len() as int));
                assert(prefix_ways(av, s, j as int) <= usize::MAX);
                nb_ways.set(j, cur + w);
            }
            proof {
                assert forall|t: int| i < t <= n implies nb_ways@[t] == before[t] + count_ending(
                    av,
                    s,
                    i as int,
                    t,
                    k + 1,
                ) * w by {
                    assert((count_ending(av, s, i as int, t, k as int) + 1) * w == count_ending(
                        av,
                        s,
                        i as int,
                        t,
                        k as int,
                    ) * w + w) by (nonlinear_arith);
                }
            }
            k += 1;
        }
        proof {
            assert forall|t: int| i + 1 < t <= n implies nb_ways@[t] == ending_sum(
                av,
                s,
                t,
                i + 1,
                av.len() as int,
            ) by {
                lemma_ending_sum_step(av, s, t, i as int, av.len() as int);
            }
            let t = i + 1;
            lemma_ending_sum_step(av, s, t as int, i as int, av.len() as int);
        }
        i += 1;
    }
    nb_ways[n]
}

proof fn lemma_count_ending_le(avail: Seq<Seq<char>>, s: Seq<char>, i: int, j: int, a: int, b: int)
    requires
        0 <= a <= b,
    ensures
        count_ending(avail, s, i, j, a) <= count_ending(avail, s, i, j, b),
    decreases b,
{
    if a < b {
        lemma_count_ending_le(avail, s, i, j, a, b - 1);
    }
}

/// Whether `requested[i..]` can be built from the available patterns (all non-empty).
/// Explores every decomposition: too slow for the real input.
pub fn is_possible(available: &Vec<Vec<char>>, requested: &[char], i: usize) -> (b: bool)
    requires
        non_empty(views(available@)),
        i <= requested@.len(),
    ensures
        b == possible_from(views(available@), requested@, i as int),
    decreases requested@.len() - i,
{
    let ghost av = views(available@);
    if i == requested.len() {
        return true;
    }
    let mut k: usize = 0;
    while k < available.len()
        invariant
            av == views(available@),
            non_empty(av),
            i < requested@.len(),
            k <= av.len(),
            forall|t: int|
                0 <= t < k ==> !(av[t].len() >= 1 && #[trigger] matches_at(requested@, i as int, av[t])
                    && possible_from(av, requested@, i + av[t].len())),
        decreases av.len() - k,
    {
        let a = &available[k];
        assert(a@ == av[k as int]);
        if starts_with_at(requested, i, a) {
            let n = requested.len();
            assert(i + a@.len() <= n);
            if is_possible(available, requested, i + a.len()) {
                return true;
            }
        }
        k += 1;
    }
    false
}

/// The non-empty trimmed pieces of a sequence of pieces.
pub open spec fn trimmed_non_empty(pieces: Seq<Seq<char>>) -> Seq<Seq<char>> {
    pieces.map_values(|p: Seq<char>| parse::trim(p)).filter(|p: Seq<char>| p.len() > 0)
}

/// Available patterns: the comma-separated items before the first blank line.
pub open spec fn available_of(input: Seq<char>) -> Seq<Seq<char>> {
    trimmed_non_empty(parse::split_two(parse::split_blank(input)[0], ',', ' '))
}

/// Requested designs: the lines after the first blank line.
pub open spec fn requested_of(input: Seq<char>) -> Seq<Seq<char>> {
    trimmed_non_empty(
        parse::lines_of(input.skip((parse::split_blank(input)[0].len() + 2) as int)),
    )
}

/// Collect the trimmed non-empty pieces at the given spans.
fn collect_trimmed(s: &[char], spans: &Vec<(usize, usize)>, Ghost(pieces): Ghost<Seq<Seq<char>>>) -> (v: Vec<Vec<char>>)
    requires
        spans@.len() == pieces.len(),
        forall|k: int|
            0 <= k < spans@.len() ==> {
                let (b, e) = #[trigger] spans@[k];
                &&& b <= e <= s@.len()
                &&& s@.subrange(b as int, e as int) == pieces[k]
            },
    ensures
        views(v@) == trimmed_non_empty(pieces),
{
    let ghost f = |p: Seq<char>| parse::trim(p);
    let ghost q = |p: Seq<char>| p.len() > 0;
    let mut v: Vec<Vec<char>> = Vec::new();
    let mut k: usize = 0;
    while k < spans.len()
        invariant
            spans@.len() == pieces.len(),
            forall|j: int|
                0 <= j < spans@.len() ==> {
                    let (b, e) = #[trigger] spans@[j];
                    &&& b <= e <= s@.len()
                    &&& s@.subrange(b as int, e as int) == pieces[j]
                },
            k <= spans@.len(),
            f == (|p: Seq<char>| parse::trim(p)),
            q == (|p: Seq<char>| p.len() > 0),
            views(v@) == pieces.take(k as int).map_values(f).filter(q),
        decreases spans@.len() - k,
    {
        let (b, e) = spans[k];
        let (tb, te) = parse::trim_span(s, b, e);
        let ghost t = parse::trim(pieces[k as int]);
        proof {
            let a = pieces.take(k + 1).map_values(f);
            let b = pieces.take(k as int).map_values(f);
            assert(a.len() == b.len() + 1);
            assert forall|j: int| 0 <= j < b.len() implies a[j] == b[j] by {
                assert(pieces.take(k + 1)[j] == pieces.take(k as int)[j]);
            }
            assert(a[k as int] == f(pieces[k as int]));
            assert(a.drop_last() =~= b);
            assert(f(pieces[k as int]) == parse::trim(pieces[k as int]));
            assert(a.last() == t);
            reveal_with_fuel(Seq::filter, 1);
        }
        if tb < te {
            let mut w: Vec<char> = Vec::new();
            let mut i = tb;
            while i < te
                invariant
                    tb <= i <= te <= s@.len(),
                    w@ == s@.subrange(tb as int, i as int),
                decreases te - i,
            {
                w.push(s[i]);
                i += 1;
                assert(w@ =~= s@.subrange(tb as int, i as int));
            }
            v.push(w);
            assert(views(v@) =~= views(v@.drop_last()).push(t));
        }
        k += 1;
    }
    assert(pieces.take(spans@.len() as int) =~= pieces);
    v
}

/// Returns (available, requested) towel patterns, excluding whitespace or empty patterns.
pub fn parse_input(input: &str) -> (r: (Vec<Vec<char>>, Vec<Vec<char>>))
    requires
        parse::split_blank(input@).len() >= 2,
    ensures
        views(r.0@) == available_of(input@),
        views(r.1@) == requested_of(input@),
{
    let cs = parse::chars_of(input);
    let blocks = parse::blank_spans(&cs);
    let (b0, e0) = blocks[0];
    proof {
        lemma_first_block(cs@);
    }
    let len0 = e0 - b0;
    assert(cs@.subrange(b0 as int, e0 as int) == parse::split_blank(cs@)[0]);
    assert(len0 == parse::split_blank(cs@)[0].len());
    let total = cs.len();
    assert(len0 + 2 <= total);
    let first: Vec<char> = copy_range(&cs, 0, len0);
    let items = parse::pair_spans(&first, ',', ' ');
    let available = collect_trimmed(&first, &items, Ghost(parse::split_two(first@, ',', ' ')));
    let rest_start = len0 + 2;
    let lines = parse::line_spans(&cs, rest_start, cs.len());
    let requested = collect_trimmed(&cs, &lines, Ghost(parse::lines_of(cs@.subrange(rest_start as int, cs@.len() as int))));
    assert(cs@.subrange(rest_start as int, cs@.len() as int) =~= input@.skip((parse::split_blank(input@)[0].len() + 2) as int));
    (available, requested)
}

fn copy_range(s: &[char], b: usize, e: usize) -> (v: Vec<char>)
    requires
        b <= e <= s@.len(),
    ensures
        v@ == s@.subrange(b as int, e as int),
{
    let mut v: Vec<char> = Vec::new();
    let mut i = b;
    while i < e
        invariant
            b <= i <= e <= s@.len(),
            v@ == s@.subrange(b as int, i as int),
        decreases e - i,
    {
        v.push(s[i]);
        i += 1;
        assert(v@ =~= s@.subrange(b as int, i as int));
    }
    v
}

/// When there is a separator, the first block starts at 0 and is followed by "\n\n".
proof fn lemma_first_block(s: Seq<char>)
    requires
        parse::split_blank(s).len() >= 2,
    ensures
        parse::split_blank(s)[0].len() + 2 <= s.len(),
        s.subrange(0, parse::split_blank(s)[0].len() as int) == parse::split_blank(s)[0],
    decreases s.len(),
{
    if s.len() == 0 {
    } else if s.len() >= 2 && s[0] == '\n' && s[1] == '\n' {
        assert(s.subrange(0, 0) =~= Seq::<char>::empty());
    } else {
        let r = parse::split_blank(s.drop_first());
        parse::lemma_split_two_nonempty(s.drop_first(), '\n', '\n');
        assert(parse::split_blank(s) == parse::prepend_first(seq![s[0]], r));
        assert(r.len() >= 2);
        lemma_first_block(s.drop_first());
        assert(s.subrange(0, (r[0].len() + 1) as int) =~= seq![s[0]] + s.drop_first().subrange(0, r[0].len() as int));
    }
}

/// Sum over the first `k` designs of the number of ways to build them.
pub open spec fn total_ways(avail: Seq<Seq<char>>, req: Seq<Seq<char>>, k: int) -> int
    decreases k,
{
    if k <= 0 {
        0
    } else {
        total_ways(avail, req, k - 1) + ways(avail, req[k - 1])
    }
}

/// Number of the first `k` designs that can be built at all.
pub open spec fn nb_buildable(avail: Seq<Seq<char>>, req: Seq<Seq<char>>, k: int) -> int
    decreases k,
{
    if k <= 0 {
        0
    } else {
        nb_buildable(avail, req, k - 1) + (if ways(avail, req[k - 1]) > 0 {
            1int
        } else {
            0
        })
    }
}

/// The counts of ways fit in a `usize`, prefix by prefix, for every design.
pub open spec fn ways_fit(avail: Seq<Seq<char>>, req: Seq<Seq<char>>) -> bool {
    forall|k: int, j: int|
        0 <= k < req.len() && 0 <= j <= req[k].len() ==> #[trigger] prefix_ways(avail, req[k], j)
            <= usize::MAX
}

/// Number of requested designs that can be built.
pub fn part1(input: &str) -> (n: usize)
    requires
        parse::split_blank(input@).len() >= 2,
        ways_fit(available_of(input@), requested_of(input@)),
    ensures
        n == nb_buildable(available_of(input@), requested_of(input@), requested_of(input@).len() as int),
{
    let (available, requested) = parse_input(input);
    let ghost av = views(available@);
    let ghost rq = views(requested@);
    proof {
        lemma_trimmed_non_empty(parse::split_two(parse::split_blank(input@)[0], ',', ' '));
    }
    let mut n: usize = 0;
    let mut k: usize = 0;
    while k < requested.len()
        invariant
            av == views(available@),
            rq == views(requested@),
            av == available_of(input@),
            rq == requested_of(input@),
            non_empty(av),
            ways_fit(av, rq),
            k <= rq.len(),
            n == nb_buildable(av, rq, k as int),
            n <= k,
        decreases rq.len() - k,
    {
        let r = &requested[k];
        assert(r@ == rq[k as int]);
        assert forall|j: int| 0 <= j <= r@.len() implies #[trigger] prefix_ways(av, r@, j) <= usize::MAX by {
            assert(prefix_ways(av, rq[k as int], j) <= usize::MAX);
        }
        if ways_to_match(&available, r) > 0 {
            n += 1;
        }
        k += 1;
    }
    n
}

/// Total number of ways to build all the requested designs.
pub fn part2(input: &str) -> (n: usize)
    requires
        parse::split_blank(input@).len() >= 2,
        ways_fit(available_of(input@), requested_of(input@)),
        forall|k: int|
            0 <= k <= requested_of(input@).len() ==> #[trigger] total_ways(
                available_of(input@),
                requested_of(input@),
                k,
            ) <= usize::MAX,
    ensures
        n == total_ways(available_of(input@), requested_of(input@), requested_of(input@).len() as int),
{
    let (available, requested) = parse_input(input);
    let ghost av = views(available@);
    let ghost rq = views(requested@);
    proof {
        lemma_trimmed_non_empty(parse::split_two(parse::split_blank(input@)[0], ',', ' '));
    }
    let mut n: usize = 0;
    let mut k: usize = 0;
    while k < requested.len()
        invariant
            av == views(available@),
            rq == views(requested@),
            av == available_of(input@),
            rq == requested_of(input@),
            non_empty(av),
            ways_fit(av, rq),
            forall|t: int| 0 <= t <= rq.len() ==> #[trigger] total_ways(av, rq, t) <= usize::MAX,
            k <= rq.len(),
            n == total_ways(av, rq, k as int),
        decreases rq.len() - k,
    {
        let r = &requested[k];
        assert(r@ == rq[k as int]);
        assert forall|j: int| 0 <= j <= r@.len() implies #[trigger] prefix_ways(av, r@, j) <= usize::MAX by {
            assert(prefix_ways(av, rq[k as int], j) <= usize::MAX);
        }
        let w = ways_to_match(&available, r);
        assert(total_ways(av, rq, k + 1) <= usize::MAX);
        n = n + w;
        k += 1;
    }
    n
}

proof fn lemma_trimmed_non_empty(pieces: Seq<Seq<char>>)
    ensures
        non_empty(trimmed_non_empty(pieces)),
{
    broadcast use vstd::seq_lib::group_filter_ensures;

    let t = trimmed_non_empty(pieces);
    assert forall|k: int| 0 <= k < t.len() implies (#[trigger] t[k]).len() >= 1 by {
        let f = |p: Seq<char>| p.len() > 0;
        assert(f(t[k]));
    }
}

} // verus!
