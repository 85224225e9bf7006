use crate::lgl::parse;
use std::collections::HashMap;
use vstd::prelude::*;

verus! {

broadcast use vstd::std_specs::hash::group_hash_axioms;

/// Secret numbers live below this modulus.
pub open spec fn modulus() -> int {
    16777216
}

/// Mix `v` into `i` (xor), then prune (keep the remainder by the modulus).
pub open spec fn mix_prune(i: u64, v: u64) -> u64 {
    (i ^ v) % 16777216
}

/// The next secret: mix in the secret times 64, then the secret divided by 32, then the
/// secret times 2048, pruning after each step.
pub open spec fn next_spec(i: u64) -> u64 {
    let a = mix_prune(i, (i * 64) as u64);
    let b = mix_prune(a, a / 32);
    mix_prune(b, (b * 2048) as u64)
}

/// The `n`-th secret after `s` (the 0-th is `s`).
pub open spec fn nth_spec(s: u64, n: nat) -> u64
    decreases n,
{
    if n == 0 {
        s
    } else {
        next_spec(nth_spec(s, (n - 1) as nat))
    }
}

/// A secret that the rules can work on within an `i64`.
pub open spec fn valid_secret(i: i64) -> bool {
    0 <= i <= i64::MAX / 64
}

pub fn next_secret(i: i64) -> (r: i64)
    requires
        valid_secret(i),
    ensures
        r == next_spec(i as u64),
        0 <= r < modulus(),
{
    let mut x: u64 = i as u64;
    x = x ^ (x * 64);
    x = x % 16777216;
    x = x ^ (x / 32);
    x = x % 16777216;
    x = x ^ (x * 2048);
    x = x % 16777216;
    x as i64
}

/// The `n`-th secret after `secret` (the 0-th is `secret` itself).
pub fn nth_secret(secret: i64, n: usize) -> (r: i64)
    requires
        valid_secret(secret),
    ensures
        r == nth_spec(secret as u64, n as nat),
        n >= 1 ==> 0 <= r < modulus(),
{
    let mut acc = secret;
    let mut k: usize = 0;
    while k < n
        invariant
            valid_secret(secret),
            k <= n,
            acc == nth_spec(secret as u64, k as nat),
            valid_secret(acc),
            k >= 1 ==> 0 <= acc < modulus(),
        decreases n - k,
    {
        acc = next_secret(acc);
        k += 1;
    }
    acc
}

// ---------------------------------------------------------------------------
// Input

/// Every line is a secret number.
pub open spec fn valid_input(input: Seq<char>) -> bool {
    &&& forall|k: int|
        0 <= k < parse::lines_of(input).len() ==> parse::lit_i64(#[trigger] parse::lines_of(input)[k]) is Some
            && valid_secret(parse::lit_i64(parse::lines_of(input)[k])->0)
    &&& parse::lines_of(input).len() <= 1_000_000_000
}

/// The secrets of the buyers.
pub open spec fn secrets_of(input: Seq<char>) -> Seq<i64> {
    parse::lines_of(input).map_values(|l: Seq<char>| parse::lit_i64(l)->0)
}

/// Sum of the 2000th secrets of the first `k` buyers.
pub open spec fn sum_2000th(secrets: Seq<i64>, k: int) -> int
    decreases k,
{
    if k <= 0 {
        0
    } else {
        sum_2000th(secrets, k - 1) + nth_spec(secrets[k - 1] as u64, 2000)
    }
}

/// The secrets of the buyers, one per line.
pub fn parse_secrets(input: &str) -> (v: Vec<i64>)
    requires
        valid_input(input@),
    ensures
        v@ == secrets_of(input@),
{
    let s = parse::chars_of(input);
    let lines = parse::line_spans(s.as_slice(), 0, s.len());
    let ghost ls = parse::lines_of(input@);
    proof {
        assert(s@.subrange(0, s@.len() as int) =~= input@);
    }
    let mut v: Vec<i64> = Vec::new();
    let mut k: usize = 0;
    while k < lines.len()
        invariant
            valid_input(input@),
            ls == parse::lines_of(input@),
            s@ == input@,
            lines@.len() == ls.len(),
            forall|j: int|
                0 <= j < lines@.len() ==> {
                    let (b, e) = #[trigger] lines@[j];
                    &&& b <= e <= s@.len()
                    &&& s@.subrange(b as int, e as int) == ls[j]
                },
            k <= lines@.len(),
            v@ == ls.take(k as int).map_values(|l: Seq<char>| parse::lit_i64(l)->0),
        decreases lines@.len() - k,
    {
        let (b, e) = lines[k];
        assert(parse::lit_i64(ls[k as int]) is Some);
        let x = parse::parse_i64(s.as_slice(), b, e).unwrap();
        v.push(x);
        assert(v@ =~= ls.take(k + 1).map_values(|l: Seq<char>| parse::lit_i64(l)->0));
        k += 1;
    }
    assert(ls.take(ls.len() as int) =~= ls);
    v
}

/// Sum of the 2000th secret of every buyer.
pub fn part1(input: &str) -> (total: i64)
    requires
        valid_input(input@),
    ensures
        total == sum_2000th(secrets_of(input@), secrets_of(input@).len() as int),
{
    let secrets = parse_secrets(input);
    let mut total: i64 = 0;
    let mut k: usize = 0;
    while k < secrets.len()
        invariant
            secrets@ == secrets_of(input@),
            valid_input(input@),
            k <= secrets@.len(),
            total == sum_2000th(secrets@, k as int),
            0 <= total <= k * modulus(),
        decreases secrets@.len() - k,
    {
        assert(valid_secret(secrets@[k as int]));
        let x = nth_secret(secrets[k], 2000);
        total = total + x;
        k += 1;
    }
    total
}

// ---------------------------------------------------------------------------
// Prices and their changes

/// The first `n` prices of a buyer: the last digit of each secret from the initial one on.
pub open spec fn prices_spec(secret: u64, n: nat) -> Seq<int> {
    Seq::new(n, |j: int| (nth_spec(secret, j as nat) % 10) as int)
}

/// The changes between consecutive values.
pub open spec fn deltas_spec(v: Seq<int>) -> Seq<int> {
    Seq::new(if v.len() == 0 { 0 } else { (v.len() - 1) as nat }, |j: int| v[j + 1] - v[j])
}

pub open spec fn ints(v: Seq<i64>) -> Seq<int> {
    v.map_values(|x: i64| x as int)
}

/// The prices of a buyer whose first secret is `secret`.
pub fn get_prices(secret: i64, n: usize) -> (v: Vec<i64>)
    requires
        valid_secret(secret),
    ensures
        ints(v@) == prices_spec(secret as u64, n as nat),
        forall|j: int| 0 <= j < v@.len() ==> 0 <= #[trigger] v@[j] <= 9,
{
    let mut v: Vec<i64> = Vec::new();
    let mut secret = secret;
    let ghost s0 = secret as u64;
    while v.len() < n
        invariant
            v@.len() <= n,
            valid_secret(secret),
            secret == nth_spec(s0, v@.len() as nat),
            ints(v@) == prices_spec(s0, v@.len() as nat),
            forall|j: int| 0 <= j < v@.len() ==> 0 <= #[trigger] v@[j] <= 9,
        decreases n - v@.len(),
    {
        let d = ((secret as u64) % 10) as i64;
        let ghost old_v = v@;
        v.push(d);
        assert forall|j: int| 0 <= j < v@.len() implies #[trigger] ints(v@)[j] == prices_spec(
            s0,
            v@.len() as nat,
        )[j] by {
            if j < old_v.len() {
                assert(ints(old_v)[j] == prices_spec(s0, old_v.len() as nat)[j]);
            }
        }
        assert(ints(v@) =~= prices_spec(s0, v@.len() as nat));
        secret = next_secret(secret);
    }
    v
}

/// The changes between consecutive prices.
pub fn get_deltas(v: &[i64]) -> (d: Vec<i64>)
    requires
        forall|j: int| 0 <= j < v@.len() ==> 0 <= #[trigger] v@[j] <= 9,
    ensures
        ints(d@) == deltas_spec(ints(v@)),
        forall|j: int| 0 <= j < d@.len() ==> -9 <= #[trigger] d@[j] <= 9,
{
    let mut d: Vec<i64> = Vec::new();
    if v.len() == 0 {
        assert(ints(d@) =~= deltas_spec(ints(v@)));
        return d;
    }
    let mut j: usize = 0;
    while j < v.len() - 1
        invariant
            forall|i: int| 0 <= i < v@.len() ==> 0 <= #[trigger] v@[i] <= 9,
            v@.len() >= 1,
            j + 1 <= v@.len(),
            d@.len() == j,
            forall|i: int| 0 <= i < j ==> #[trigger] d@[i] == v@[i + 1] - v@[i],
        decreases v@.len() - j,
    {
        d.push(v[j + 1] - v[j]);
        j += 1;
    }
    assert(ints(d@) =~= deltas_spec(ints(v@)));
    d
}

/// The key of four changes, each from -9 to 9: their digits in base 19.
pub open spec fn key4(d: Seq<int>, j: int) -> u32 {
    ((d[j] + 9) + 19 * (d[j + 1] + 9) + 361 * (d[j + 2] + 9) + 6859 * (d[j + 3] + 9)) as u32
}

/// The price each sequence of four changes would get from a buyer, over the first `m`
/// windows of changes: the price right after the first window showing the sequence.
pub open spec fn seq_values_upto(prices: Seq<int>, m: int) -> Map<u32, i64>
    decreases m,
{
    if m <= 0 {
        Map::empty()
    } else {
        let before = seq_values_upto(prices, m - 1);
        let k = key4(deltas_spec(prices), m - 1);
        if before.contains_key(k) {
            before
        } else {
            before.insert(k, prices[m - 1 + 4] as i64)
        }
    }
}

/// The number of windows of four changes in the prices.
pub open spec fn nb_windows(prices: Seq<int>) -> int {
    if prices.len() < 5 {
        0
    } else {
        prices.len() - 4
    }
}

proof fn lemma_base19(a0: int, a1: int, a2: int, a3: int, b0: int, b1: int, b2: int, b3: int)
    requires
        0 <= a0 < 19 && 0 <= a1 < 19 && 0 <= a2 < 19 && 0 <= a3 < 19,
        0 <= b0 < 19 && 0 <= b1 < 19 && 0 <= b2 < 19 && 0 <= b3 < 19,
        a0 + 19 * a1 + 361 * a2 + 6859 * a3 == b0 + 19 * b1 + 361 * b2 + 6859 * b3,
    ensures
        a0 == b0 && a1 == b1 && a2 == b2 && a3 == b3,
{
    assert(a3 == b3) by (nonlinear_arith)
        requires
            0 <= a0 < 19 && 0 <= a1 < 19 && 0 <= a2 < 19 && 0 <= a3 < 19,
            0 <= b0 < 19 && 0 <= b1 < 19 && 0 <= b2 < 19 && 0 <= b3 < 19,
            a0 + 19 * a1 + 361 * a2 + 6859 * a3 == b0 + 19 * b1 + 361 * b2 + 6859 * b3,
    ;
    assert(a2 == b2) by (nonlinear_arith)
        requires
            0 <= a0 < 19 && 0 <= a1 < 19 && 0 <= a2 < 19,
            0 <= b0 < 19 && 0 <= b1 < 19 && 0 <= b2 < 19,
            a0 + 19 * a1 + 361 * a2 == b0 + 19 * b1 + 361 * b2,
    ;
    assert(a1 == b1) by (nonlinear_arith)
        requires
            0 <= a0 < 19 && 0 <= a1 < 19,
            0 <= b0 < 19 && 0 <= b1 < 19,
            a0 + 19 * a1 == b0 + 19 * b1,
    ;
}

/// Two windows of changes from -9 to 9 have the same key exactly when they show the same
/// four changes.
pub proof fn lemma_key4_same(d: Seq<int>, i: int, j: int)
    requires
        0 <= i && i + 4 <= d.len(),
        0 <= j && j + 4 <= d.len(),
        forall|x: int| 0 <= x < d.len() ==> -9 <= #[trigger] d[x] <= 9,
    ensures
        key4(d, i) == key4(d, j) <==> (d[i] == d[j] && d[i + 1] == d[j + 1] && d[i + 2] == d[j + 2]
            && d[i + 3] == d[j + 3]),
{
    lemma_key4_range(d, i);
    lemma_key4_range(d, j);
    assert(-9 <= d[i] <= 9 && -9 <= d[i + 1] <= 9 && -9 <= d[i + 2] <= 9 && -9 <= d[i + 3] <= 9);
    assert(-9 <= d[j] <= 9 && -9 <= d[j + 1] <= 9 && -9 <= d[j + 2] <= 9 && -9 <= d[j + 3] <= 9);
    if key4(d, i) == key4(d, j) {
        lemma_base19(
            d[i] + 9,
            d[i + 1] + 9,
            d[i + 2] + 9,
            d[i + 3] + 9,
            d[j] + 9,
            d[j + 1] + 9,
            d[j + 2] + 9,
            d[j + 3] + 9,
        );
    }
}

/// Over the first `m` windows, a sequence of four changes has a price exactly when some of
/// those windows shows it.
pub proof fn lemma_seq_values_keys(prices: Seq<int>, m: int, k: u32)
    requires
        0 <= m,
    ensures
        seq_values_upto(prices, m).contains_key(k) <==> exists|j: int|
            0 <= j < m && #[trigger] key4(deltas_spec(prices), j) == k,
    decreases m,
{
    if m > 0 {
        lemma_seq_values_keys(prices, m - 1, k);
        if seq_values_upto(prices, m).contains_key(k) && key4(deltas_spec(prices), m - 1) != k {
            let j = choose|j: int| 0 <= j < m - 1 && #[trigger] key4(deltas_spec(prices), j) == k;
            assert(0 <= j < m);
        }
        if exists|j: int| 0 <= j < m && #[trigger] key4(deltas_spec(prices), j) == k {
            let j = choose|j: int| 0 <= j < m && #[trigger] key4(deltas_spec(prices), j) == k;
            if j < m - 1 {
                assert(seq_values_upto(prices, m - 1).contains_key(k));
            }
        }
    }
}

/// A buyer sells at the first window showing the sequence: if window `j` is the first of
/// the first `m` windows whose four changes give key `k`, the price of `k` is the price
/// right after window `j`, `prices[j + 4]`, whatever later windows show the same changes.
pub proof fn lemma_seq_values_first(prices: Seq<int>, m: int, j: int)
    requires
        0 <= j < m,
        m <= nb_windows(prices),
        forall|i: int| 0 <= i < j ==> #[trigger] key4(deltas_spec(prices), i) != key4(deltas_spec(prices), j),
    ensures
        seq_values_upto(prices, m).contains_key(key4(deltas_spec(prices), j)),
        seq_values_upto(prices, m)[key4(deltas_spec(prices), j)] == prices[j + 4] as i64,
    decreases m,
{
    let k = key4(deltas_spec(prices), j);
    if j == m - 1 {
        lemma_seq_values_keys(prices, m - 1, k);
        if seq_values_upto(prices, m - 1).contains_key(k) {
            let i = choose|i: int| 0 <= i < m - 1 && #[trigger] key4(deltas_spec(prices), i) == k;
            assert(key4(deltas_spec(prices), i) != k);
        }
    } else {
        lemma_seq_values_first(prices, m - 1, j);
    }
}

/// The sequences that `get_seq_values` prices are those shown by some window, each at the
/// price right after the first window showing it.
pub proof fn lemma_get_seq_values_law(prices: Seq<int>, k: u32)
    ensures
        seq_values_upto(prices, nb_windows(prices)).contains_key(k) <==> exists|j: int|
            0 <= j < nb_windows(prices) && #[trigger] key4(deltas_spec(prices), j) == k,
        forall|j: int|
            0 <= j < nb_windows(prices) && key4(deltas_spec(prices), j) == k && (forall|i: int|
                0 <= i < j ==> #[trigger] key4(deltas_spec(prices), i) != k) ==> #[trigger] seq_values_upto(
                prices,
                nb_windows(prices),
            )[key4(deltas_spec(prices), j)] == prices[j + 4] as i64,
{
    lemma_seq_values_keys(prices, nb_windows(prices), k);
    assert forall|j: int|
        0 <= j < nb_windows(prices) && key4(deltas_spec(prices), j) == k && (forall|i: int|
            0 <= i < j ==> #[trigger] key4(deltas_spec(prices), i) != k) implies #[trigger] seq_values_upto(
        prices,
        nb_windows(prices),
    )[key4(deltas_spec(prices), j)] == prices[j + 4] as i64 by {
        lemma_seq_values_first(prices, nb_windows(prices), j);
    }
}

proof fn lemma_key4_range(d: Seq<int>, j: int)
    requires
        0 <= j,
        j + 4 <= d.len(),
        forall|i: int| 0 <= i < d.len() ==> -9 <= #[trigger] d[i] <= 9,
    ensures
        0 <= (d[j] + 9) + 19 * (d[j + 1] + 9) + 361 * (d[j + 2] + 9) + 6859 * (d[j + 3] + 9) < 130321,
{
    assert(-9 <= d[j] <= 9 && -9 <= d[j + 1] <= 9 && -9 <= d[j + 2] <= 9 && -9 <= d[j + 3] <= 9);
}

/// What price any sequence of four changes would yield from a buyer.
pub fn get_seq_values(prices: &[i64]) -> (m: HashMap<u32, i64>)
    requires
        forall|j: int| 0 <= j < prices@.len() ==> 0 <= #[trigger] prices@[j] <= 9,
    ensures
        m@ == seq_values_upto(ints(prices@), nb_windows(ints(prices@))),
        forall|k: u32| #[trigger] m@.contains_key(k) ==> 0 <= m@[k] <= 9,
{
    let seq_len: usize = 4;
    let deltas = get_deltas(prices);
    let ghost p = ints(prices@);
    let mut seq_vals: HashMap<u32, i64> = HashMap::new();
    assert(deltas@.len() == ints(deltas@).len());
    let nw: usize = if prices.len() < 5 {
        0
    } else {
        prices.len() - 4
    };
    let plen = prices.len();
    let mut j: usize = 0;
    while j < nw
        invariant
            plen == prices@.len(),
            nw == nb_windows(p),
            deltas@.len() == (if prices@.len() == 0 { 0 } else { prices@.len() - 1 }),
            seq_len == 4,
            p == ints(prices@),
            forall|i: int| 0 <= i < prices@.len() ==> 0 <= #[trigger] prices@[i] <= 9,
            ints(deltas@) == deltas_spec(p),
            forall|i: int| 0 <= i < deltas@.len() ==> -9 <= #[trigger] deltas@[i] <= 9,
            j <= nw,
            seq_vals@ == seq_values_upto(p, j as int),
            forall|k: u32| #[trigger] seq_vals@.contains_key(k) ==> 0 <= seq_vals@[k] <= 9,
        decreases nw - j,
    {
        let ghost d = deltas_spec(p);
        assert(j + 4 < prices@.len() && j + 3 < deltas@.len());
        proof {
            lemma_key4_range(d, j as int);
            assert(d[j as int] == deltas@[j as int] && d[j + 1] == deltas@[j + 1] && d[j + 2]
                == deltas@[j + 2] && d[j + 3] == deltas@[j + 3]);
        }
        let j1 = j + 1;
        let j2 = j + 2;
        let j3 = j + 3;
        let key = ((deltas[j] + 9) + 19 * (deltas[j1] + 9) + 361 * (deltas[j2] + 9) + 6859 * (
        deltas[j3] + 9)) as u32;
        assert(key == key4(d, j as int));
        if !seq_vals.contains_key(&key) {
            seq_vals.insert(key, prices[j3 + 1]);
        }
        j += 1;
    }
    proof {
        assert(j == nb_windows(p));
    }
    seq_vals
}

/// The sum of two maps of prices: a key of either, with the sum of its values in both.
pub open spec fn union_sum(a: Map<u32, i64>, b: Map<u32, i64>) -> Map<u32, i64> {
    Map::new(
        |k: u32| a.contains_key(k) || b.contains_key(k),
        |k: u32|
            ((if a.contains_key(k) {
                a[k] as int
            } else {
                0
            }) + (if b.contains_key(k) {
                b[k] as int
            } else {
                0
            })) as i64,
    )
}

/// Key `x` stands in `ks` at or after position `i0`.
pub open spec fn pending(ks: Seq<&u32>, i0: int, x: u32) -> bool {
    exists|i: int| i0 <= i < ks.len() && *(#[trigger] ks[i]) == x
}

/// Add the values of `src` into `dst`.
pub fn sum_union(dst: &mut HashMap<u32, i64>, src: HashMap<u32, i64>)
    requires
        forall|k: u32| #[trigger] old(dst)@.contains_key(k) ==> 0 <= old(dst)@[k] <= i64::MAX - 9,
        forall|k: u32| #[trigger] src@.contains_key(k) ==> 0 <= src@[k] <= 9,
    ensures
        final(dst)@ == union_sum(old(dst)@, src@),
{
    let ghost d0 = dst@;
    for k in it: src.keys()
        invariant
            it.seq().unref().to_set() == src@.dom(),
            it.seq().unref().no_duplicates(),
            forall|k: u32| #[trigger] d0.contains_key(k) ==> 0 <= d0[k] <= i64::MAX - 9,
            forall|k: u32| #[trigger] src@.contains_key(k) ==> 0 <= src@[k] <= 9,
            forall|k: u32| #[trigger]
                dst@.contains_key(k) <==> d0.contains_key(k) || (src@.contains_key(k) && !pending(
                    it.seq(),
                    it.index() as int,
                    k,
                )),
            forall|k: u32| #[trigger]
                dst@.contains_key(k) ==> dst@[k] == ((if d0.contains_key(k) {
                    d0[k] as int
                } else {
                    0
                }) + (if src@.contains_key(k) && !pending(it.seq(), it.index() as int, k) {
                    src@[k] as int
                } else {
                    0
                })),
    {
        let ghost i0 = it.index();
        let ghost ks = it.seq();
        proof {
            if i0 == 0 {
                assert forall|x: u32| #[trigger] src@.contains_key(x) implies pending(ks, i0 as int, x) by {
                    assert(ks.unref().to_set().contains(x));
                    assert(ks.unref().contains(x));
                    let i = choose|i: int| 0 <= i < ks.unref().len() && ks.unref()[i] == x;
                    assert(*ks[i] == x);
                }
            }
            assert(ks.unref().to_set().contains(*k));
            assert(*ks[i0 as int] == *k);
        }
        let v = *src.get(k).unwrap();
        let old_v: i64 = match dst.get(k) {
            Some(x) => *x,
            None => 0,
        };
        dst.insert(*k, old_v + v);
        proof {
            assert forall|x: u32|
                #[trigger] pending(ks, i0 + 1, x) <==> (x != *k && pending(ks, i0 as int, x)) by {
                if pending(ks, i0 + 1, x) {
                    let i = choose|i: int| i0 + 1 <= i < ks.len() && *(#[trigger] ks[i]) == x;
                    if x == *k {
                        assert(ks.unref()[i] == ks.unref()[i0 as int]);
                    }
                }
                if x != *k && pending(ks, i0 as int, x) {
                    let i = choose|i: int| i0 <= i < ks.len() && *(#[trigger] ks[i]) == x;
                    assert(i != i0);
                }
            }
        }
    }
    assert(dst@ =~= union_sum(d0, src@));
}

/// The prices that every sequence of four changes would get from the first `m` buyers.
pub open spec fn total_values(secrets: Seq<i64>, m: int) -> Map<u32, i64>
    decreases m,
{
    if m <= 0 {
        Map::empty()
    } else {
        union_sum(
            total_values(secrets, m - 1),
            seq_values_upto(
                prices_spec(secrets[m - 1] as u64, 2001),
                nb_windows(prices_spec(secrets[m - 1] as u64, 2001)),
            ),
        )
    }
}

/// The most bananas a sequence of four price changes can get from all the buyers: it is the
/// total of one sequence that some buyer shows, and no such sequence gets more.
pub fn part2(input: &str) -> (best: i64)
    requires
        valid_input(input@),
        secrets_of(input@).len() >= 1,
    ensures
        exists|k: u32|
            #[trigger] total_values(secrets_of(input@), secrets_of(input@).len() as int).contains_key(k)
                && total_values(secrets_of(input@), secrets_of(input@).len() as int)[k] == best,
        forall|k: u32|
            #[trigger] total_values(secrets_of(input@), secrets_of(input@).len() as int).contains_key(k)
                ==> total_values(secrets_of(input@), secrets_of(input@).len() as int)[k] <= best,
{
    let secrets = parse_secrets(input);
    let ghost ss = secrets@;
    let mut seq_vals: HashMap<u32, i64> = HashMap::new();
    let mut b: usize = 0;
    while b < secrets.len()
        invariant
            ss == secrets@,
            ss == secrets_of(input@),
            valid_input(input@),
            b <= ss.len(),
            seq_vals@ == total_values(ss, b as int),
            forall|k: u32| #[trigger] seq_vals@.contains_key(k) ==> 0 <= seq_vals@[k] <= 9 * b,
        decreases ss.len() - b,
    {
        assert(valid_secret(ss[b as int]));
        let prices = get_prices(secrets[b], 2001);
        let vals = get_seq_values(prices.as_slice());
        let ghost before = seq_vals@;
        sum_union(&mut seq_vals, vals);
        proof {
            assert(ints(prices@) == prices_spec(ss[b as int] as u64, 2001));
            assert forall|k: u32| #[trigger] seq_vals@.contains_key(k) implies 0 <= seq_vals@[k] <= 9 * (b + 1) by {
                if before.contains_key(k) {
                }
                if vals@.contains_key(k) {
                }
            }
        }
        b += 1;
    }
    let ghost total = seq_vals@;
    proof {
        // The last buyer shows at least one sequence.
        let p = prices_spec(ss[ss.len() - 1] as u64, 2001);
        lemma_seq_values_nonempty(p, nb_windows(p));
        let k0 = choose|k: u32| #[trigger] seq_values_upto(p, nb_windows(p)).contains_key(k);
        assert(total.contains_key(k0));
    }
    let mut best: Option<i64> = None;
    for k in it: seq_vals.keys()
        invariant
            total == seq_vals@,
            it.seq().unref().to_set() == total.dom(),
            best is None ==> forall|x: u32| #[trigger] total.contains_key(x) ==> pending(it.seq(), it.index() as int, x),
            best matches Some(m) ==> (exists|x: u32| #[trigger] total.contains_key(x) && total[x] == m) && forall|x: u32|
                #[trigger] total.contains_key(x) && !pending(it.seq(), it.index() as int, x) ==> total[x] <= m,
    {
        let ghost i0 = it.index();
        let ghost ks = it.seq();
        proof {
            assert(ks.unref().to_set().contains(*k));
            assert(*ks[i0 as int] == *k);
            assert forall|x: u32| #[trigger] pending(ks, i0 as int, x) && !pending(ks, i0 + 1, x) implies x == *k by {
                let i = choose|i: int| i0 <= i < ks.len() && *(#[trigger] ks[i]) == x;
                if i > i0 {
                    assert(pending(ks, i0 + 1, x));
                }
            }
        }
        let v = *seq_vals.get(k).unwrap();
        let better = match best {
            None => true,
            Some(m) => m < v,
        };
        if better {
            best = Some(v);
        }
    }
    proof {
        let k0 = choose|k: u32| #[trigger] total.contains_key(k);
        assert(total.contains_key(k0));
    }
    best.unwrap()
}

proof fn lemma_seq_values_nonempty(p: Seq<int>, m: int)
    requires
        m >= 1,
    ensures
        exists|k: u32| #[trigger] seq_values_upto(p, m).contains_key(k),
    decreases m,
{
    let k = key4(deltas_spec(p), m - 1);
    if m > 1 {
        lemma_seq_values_nonempty(p, m - 1);
        let k1 = choose|k1: u32| #[trigger] seq_values_upto(p, m - 1).contains_key(k1);
        assert(seq_values_upto(p, m).contains_key(k1));
    } else {
        assert(seq_values_upto(p, m).contains_key(k));
    }
}

} // verus!
