use crate::lgl::parse;
use std::collections::HashMap;
use vstd::prelude::*;

verus! {

broadcast use vstd::std_specs::hash::group_hash_axioms;

// ---------------------------------------------------------------------------
// The blink rules

/// `10^e`
pub open spec fn pow10(e: nat) -> nat
    decreases e,
{
    if e == 0 {
        1
    } else {
        10 * pow10((e - 1) as nat)
    }
}

/// Number of decimal digits of `i` (one for 0).
pub open spec fn digits(i: nat) -> nat
    decreases i,
{
    if i < 10 {
        1
    } else {
        1 + digits(i / 10)
    }
}

/// The stones one stone becomes after a blink: 0 becomes 1, a number with an even number
/// of digits splits into its left and right halves, any other number is multiplied by 2024.
pub open spec fn children_spec(i: nat) -> Seq<nat> {
    if i == 0 {
        seq![1nat]
    } else if digits(i) % 2 == 0 {
        let n = pow10(digits(i) / 2);
        seq![i / n, i % n]
    } else {
        seq![2024 * i]
    }
}

/// The blink rule can be applied to `i` within `u64`.
pub open spec fn child_fits(i: nat) -> bool {
    i != 0 && digits(i) % 2 != 0 ==> 2024 * i <= u64::MAX
}

/// Number of stones that stone `i` has become after `b` blinks.
pub open spec fn count(i: nat, b: nat) -> nat
    decreases b, 0int,
{
    if b == 0 {
        1
    } else {
        count_all(children_spec(i), (b - 1) as nat)
    }
}

/// Number of stones that the stones `s` have become after `b` blinks.
pub open spec fn count_all(s: Seq<nat>, b: nat) -> nat
    decreases b, s.len() + 1,
{
    if s.len() == 0 {
        0
    } else {
        count_all(s.drop_last(), b) + count(s.last(), b)
    }
}

/// Every stone that `i` becomes within `b` blinks can blink within `u64`.
pub open spec fn fits(i: nat, b: nat) -> bool
    decreases b,
{
    b == 0 || (child_fits(i) && forall|k: int|
        0 <= k < children_spec(i).len() ==> fits(#[trigger] children_spec(i)[k], (b - 1) as nat))
}

/// Every stone of `s` fits for `b` blinks.
pub open spec fn all_fit(s: Seq<nat>, b: nat) -> bool {
    forall|k: int| 0 <= k < s.len() ==> fits(#[trigger] s[k], b)
}

/// The stone numbers of `s` as naturals.
pub open spec fn nats(s: Seq<u64>) -> Seq<nat> {
    s.map_values(|x: u64| x as nat)
}

pub proof fn lemma_pow10_pos(e: nat)
    ensures
        pow10(e) >= 1,
    decreases e,
{
    if e > 0 {
        lemma_pow10_pos((e - 1) as nat);
    }
}

pub proof fn lemma_pow10_mono(a: nat, b: nat)
    requires
        a <= b,
    ensures
        pow10(a) <= pow10(b),
    decreases b,
{
    if a < b {
        lemma_pow10_mono(a, (b - 1) as nat);
        lemma_pow10_pos((b - 1) as nat);
    }
}

proof fn lemma_digits_bound(i: nat)
    ensures
        i < pow10(digits(i)),
        i >= 1 ==> pow10((digits(i) - 1) as nat) <= i,
        digits(i) >= 1,
    decreases i,
{
    if i >= 10 {
        lemma_digits_bound(i / 10);
        let d = digits(i / 10);
        assert(pow10(digits(i)) == 10 * pow10(d));
        assert(i < 10 * pow10(d)) by (nonlinear_arith)
            requires
                i / 10 < pow10(d),
                i >= 0,
        ;
        assert(pow10((digits(i) - 1) as nat) <= i) by (nonlinear_arith)
            requires
                pow10((d - 1) as nat) <= i / 10,
                pow10((digits(i) - 1) as nat) == 10 * pow10((d - 1) as nat),
                i >= 0,
        {
        }
    } else {
        assert(pow10(1) == 10) by {
            reveal_with_fuel(pow10, 2);
        }
    }
}

proof fn lemma_digits_le_20(i: nat)
    requires
        i <= u64::MAX,
    ensures
        digits(i) <= 20,
{
    lemma_digits_bound(i);
    if digits(i) > 20 {
        lemma_pow10_mono(20, (digits(i) - 1) as nat);
        assert(pow10(20) == 100_000_000_000_000_000_000) by {
            reveal_with_fuel(pow10, 21);
        }
    }
}

/// The children of a stone are no larger than `u64::MAX` when the rule fits.
pub proof fn lemma_children_fit(i: nat)
    requires
        i <= u64::MAX,
        child_fits(i),
    ensures
        forall|k: int| 0 <= k < children_spec(i).len() ==> #[trigger] children_spec(i)[k] <= u64::MAX,
        1 <= children_spec(i).len() <= 2,
{
    if i != 0 && digits(i) % 2 == 0 {
        let n = pow10(digits(i) / 2);
        lemma_pow10_pos(digits(i) / 2);
        assert(i / n <= i && i % n <= i) by (nonlinear_arith)
            requires
                n >= 1,
        ;
    }
}

/// Splitting a sequence splits its count.
pub proof fn lemma_count_all_concat(a: Seq<nat>, c: Seq<nat>, b: nat)
    ensures
        count_all(a + c, b) == count_all(a, b) + count_all(c, b),
    decreases c.len(),
{
    if c.len() == 0 {
        assert(a + c =~= a);
    } else {
        assert((a + c).drop_last() =~= a + c.drop_last());
        lemma_count_all_concat(a, c.drop_last(), b);
    }
}

/// The count of a prefix is no more than the count of the whole.
pub proof fn lemma_count_all_prefix(s: Seq<nat>, k: int, b: nat)
    requires
        0 <= k <= s.len(),
    ensures
        count_all(s.take(k), b) <= count_all(s, b),
    decreases s.len(),
{
    if k < s.len() {
        assert(s.drop_last().take(k) =~= s.take(k));
        lemma_count_all_prefix(s.drop_last(), k, b);
    } else {
        assert(s.take(k) =~= s);
    }
}

/// The count of one more element of a sequence.
pub proof fn lemma_count_all_step(s: Seq<nat>, k: int, b: nat)
    requires
        0 <= k < s.len(),
    ensures
        count_all(s.take(k + 1), b) == count_all(s.take(k), b) + count(s[k], b),
{
    assert(s.take(k + 1).drop_last() =~= s.take(k));
}

// ---------------------------------------------------------------------------
// Executable rules

/// Number of decimal digits of `i` (one for 0).
pub fn nb_digits(i: u64) -> (d: u32)
    ensures
        d == digits(i as nat),
        1 <= d <= 20,
{
    let mut d: u32 = 1;
    let mut rest = i;
    proof {
        lemma_digits_le_20(i as nat);
    }
    while rest >= 10
        invariant
            1 <= d,
            d + digits(rest as nat) == 1 + digits(i as nat),
            digits(i as nat) <= 20,
        decreases rest,
    {
        rest = rest / 10;
        d = d + 1;
    }
    d
}

/// `i` cut after `rdigits` digits from the right: the left part, then the right part.
pub fn split(i: u64, rdigits: u32) -> (v: Vec<u64>)
    requires
        pow10(rdigits as nat) <= u64::MAX,
    ensures
        v@.len() == 2,
        v@[0] == i as nat / pow10(rdigits as nat),
        v@[1] == i as nat % pow10(rdigits as nat),
{
    let mut n: u64 = 1;
    let mut k: u32 = 0;
    proof {
        lemma_pow10_pos(rdigits as nat);
    }
    while k < rdigits
        invariant
            k <= rdigits,
            n == pow10(k as nat),
            pow10(rdigits as nat) <= u64::MAX,
        decreases rdigits - k,
    {
        proof {
            lemma_pow10_mono((k + 1) as nat, rdigits as nat);
        }
        n = n * 10;
        k += 1;
    }
    vec![i / n, i % n]
}

/// The stones that stone `number` becomes after a blink.
pub fn get_children(number: u64) -> (v: Vec<u64>)
    requires
        child_fits(number as nat),
    ensures
        nats(v@) == children_spec(number as nat),
{
    if number == 0 {
        let v = vec![1];
        assert(nats(v@) =~= children_spec(number as nat));
        v
    } else {
        let nb_digits = nb_digits(number);
        if nb_digits % 2 == 0 {
            proof {
                lemma_pow10_mono((nb_digits / 2) as nat, 19);
                assert(pow10(19) == 10_000_000_000_000_000_000) by {
                    reveal_with_fuel(pow10, 20);
                }
            }
            let v = split(number, nb_digits / 2);
            assert(nats(v@) =~= children_spec(number as nat));
            v
        } else {
            let v = vec![2024 * number];
            assert(nats(v@) =~= children_spec(number as nat));
            v
        }
    }
}

// ---------------------------------------------------------------------------
// Counting with a cache

/// A stone number with the number of blinks it has left.
#[derive(PartialEq, Eq, Hash, Clone, Copy, Debug)]
pub struct Stone {
    pub number: u64,
    pub blinks_left: usize,
}

impl Stone {
    /// The stones this one becomes after a blink, none when it has no blinks left.
    pub fn children(&self) -> (v: Vec<Stone>)
        requires
            self.blinks_left > 0 ==> child_fits(self.number as nat),
        ensures
            self.blinks_left == 0 ==> v@.len() == 0,
            self.blinks_left > 0 ==> v@.len() == children_spec(self.number as nat).len(),
            forall|k: int|
                0 <= k < v@.len() ==> (#[trigger] v@[k]).number == children_spec(
                    self.number as nat,
                )[k] && v@[k].blinks_left == self.blinks_left - 1,
    {
        let mut v: Vec<Stone> = Vec::new();
        if 0 < self.blinks_left {
            let nums = get_children(self.number);
            let mut k: usize = 0;
            while k < nums.len()
                invariant
                    0 < self.blinks_left,
                    nats(nums@) == children_spec(self.number as nat),
                    k <= nums@.len(),
                    v@.len() == k,
                    forall|j: int|
                        0 <= j < k ==> (#[trigger] v@[j]).number == nums@[j] && v@[j].blinks_left
                            == self.blinks_left - 1,
                decreases nums@.len() - k,
            {
                v.push(Stone { number: nums[k], blinks_left: self.blinks_left - 1 });
                k += 1;
            }
            assert forall|k: int| 0 <= k < v@.len() implies (#[trigger] v@[k]).number
                == children_spec(self.number as nat)[k] by {
                assert(nats(nums@)[k] == nums@[k] as nat);
            }
        }
        v
    }
}

/// The cache key of a stone: its number in the high 64 bits, its blinks in the low ones.
pub open spec fn key_of(s: Stone) -> u128 {
    ((s.number as int) * 0x1_0000_0000_0000_0000 + s.blinks_left as int) as u128
}

pub proof fn lemma_key_range(s: Stone)
    ensures
        key_of(s) as int == (s.number as int) * 0x1_0000_0000_0000_0000 + s.blinks_left as int,
{
    assert(0 <= (s.number as int) * 0x1_0000_0000_0000_0000 + s.blinks_left as int <= u128::MAX)
        by (nonlinear_arith)
        requires
            0 <= s.number <= u64::MAX,
            0 <= s.blinks_left <= u64::MAX,
    ;
}

pub proof fn lemma_key_injective(a: Stone, b: Stone)
    requires
        key_of(a) == key_of(b),
    ensures
        a == b,
{
    lemma_key_range(a);
    lemma_key_range(b);
    assert(a.number == b.number && a.blinks_left == b.blinks_left) by (nonlinear_arith)
        requires
            (a.number as int) * 0x1_0000_0000_0000_0000 + a.blinks_left as int == (b.number as int)
                * 0x1_0000_0000_0000_0000 + b.blinks_left as int,
            0 <= a.blinks_left < 0x1_0000_0000_0000_0000,
            0 <= b.blinks_left < 0x1_0000_0000_0000_0000,
            0 <= a.number,
            0 <= b.number,
    ;
}

/// The cache key of a stone.
pub fn key(s: &Stone) -> (k: u128)
    ensures
        k == key_of(*s),
{
    proof {
        lemma_key_range(*s);
    }
    (s.number as u128) * 0x1_0000_0000_0000_0000 + s.blinks_left as u128
}

/// Memoized counts of stones.
pub struct Cache {
    pub cached: HashMap<u128, usize>,
}

impl Cache {
    /// Every entry holds the count of the stone it is keyed by.
    pub open spec fn valid(&self) -> bool {
        forall|s: Stone| #[trigger]
            self.cached@.contains_key(key_of(s)) ==> self.cached@[key_of(s)] == count(
                s.number as nat,
                s.blinks_left as nat,
            )
    }

    pub fn insert(&mut self, key_stone: Stone, val: usize)
        requires
            old(self).valid(),
            val == count(key_stone.number as nat, key_stone.blinks_left as nat),
        ensures
            final(self).valid(),
            final(self).cached@ == old(self).cached@.insert(key_of(key_stone), val),
    {
        let k = key(&key_stone);
        self.cached.insert(k, val);
        proof {
            assert forall|s: Stone| #[trigger] self.cached@.contains_key(key_of(s)) implies self.cached@[key_of(s)]
                == count(s.number as nat, s.blinks_left as nat) by {
                if key_of(s) == k {
                    lemma_key_injective(s, key_stone);
                } else {
                    assert(old(self).cached@.contains_key(key_of(s)));
                }
            }
        }
    }

    /// The count for the stone when it is known: directly for up to one blink, else from
    /// the cache.
    pub fn get(&self, key_stone: &Stone) -> (r: Option<usize>)
        requires
            self.valid(),
            key_stone.blinks_left == 1 ==> child_fits(key_stone.number as nat),
        ensures
            r matches Some(v) ==> v == count(key_stone.number as nat, key_stone.blinks_left as nat),
            r is Some <==> (key_stone.blinks_left <= 1 || self.cached@.contains_key(key_of(*key_stone))),
    {
        if key_stone.blinks_left == 0 {
            Some(1)
        } else if key_stone.blinks_left == 1 {
            let n = key_stone.children().len();
            proof {
                let i = key_stone.number as nat;
                let c = children_spec(i);
                lemma_children_fit(i);
                assert(count(i, 1) == count_all(c, 0));
                reveal_with_fuel(count_all, 3);
                assert(count(c[0], 0) == 1);
                if c.len() == 2 {
                    assert(count(c[1], 0) == 1);
                    assert(c.drop_last().drop_last().len() == 0);
                } else {
                    assert(c.drop_last().len() == 0);
                }
            }
            Some(n)
        } else {
            let k = key(key_stone);
            match self.cached.get(&k) {
                Some(v) => Some(*v),
                None => None,
            }
        }
    }
}

impl Default for Cache {
    fn default() -> (c: Cache)
        ensures
            c.cached@ == Map::<u128, usize>::empty(),
    {
        Cache { cached: HashMap::new() }
    }
}

/// Number of stones that `stone` becomes after its blinks, memoized in `cache`.
pub fn count_descendants(stone: &Stone, cache: &mut Cache) -> (n: usize)
    requires
        old(cache).valid(),
        fits(stone.number as nat, stone.blinks_left as nat),
        count(stone.number as nat, stone.blinks_left as nat) <= usize::MAX,
    ensures
        n == count(stone.number as nat, stone.blinks_left as nat),
        final(cache).valid(),
    decreases stone.blinks_left,
{
    if let Some(n) = cache.get(stone) {
        n
    } else {
        let ghost i = stone.number as nat;
        let ghost b = (stone.blinks_left - 1) as nat;
        let ghost cs = children_spec(i);
        let children = stone.children();
        proof {
            lemma_children_fit(i);
        }
        let mut n: usize = 0;
        let mut k: usize = 0;
        while k < children.len()
            invariant
                cache.valid(),
                stone.blinks_left >= 1,
                i == stone.number,
                b == stone.blinks_left - 1,
                cs == children_spec(i),
                fits(i, b + 1),
                count(i, b + 1) <= usize::MAX,
                children@.len() == cs.len(),
                forall|j: int|
                    0 <= j < children@.len() ==> (#[trigger] children@[j]).number == cs[j]
                        && children@[j].blinks_left == b,
                k <= children@.len(),
                n == count_all(cs.take(k as int), b),
            decreases children@.len() - k,
        {
            proof {
                lemma_count_all_step(cs, k as int, b);
                lemma_count_all_prefix(cs, k + 1, b);
                assert(fits(cs[k as int], b));
            }
            let c = count_descendants(&children[k], cache);
            n = n + c;
            k += 1;
        }
        proof {
            assert(cs.take(cs.len() as int) =~= cs);
        }
        cache.insert(*stone, n);
        n
    }
}

/// Number of stones that the stones `stone_nbs` become after `blinks_left` blinks.
pub fn count_stones(stone_nbs: &[u64], blinks_left: usize) -> (n: usize)
    requires
        all_fit(nats(stone_nbs@), blinks_left as nat),
        count_all(nats(stone_nbs@), blinks_left as nat) <= usize::MAX,
    ensures
        n == count_all(nats(stone_nbs@), blinks_left as nat),
{
    let ghost s = nats(stone_nbs@);
    let mut cache = Cache::default();
    let mut n: usize = 0;
    let mut k: usize = 0;
    while k < stone_nbs.len()
        invariant
            s == nats(stone_nbs@),
            all_fit(s, blinks_left as nat),
            count_all(s, blinks_left as nat) <= usize::MAX,
            cache.valid(),
            k <= stone_nbs@.len(),
            n == count_all(s.take(k as int), blinks_left as nat),
        decreases stone_nbs@.len() - k,
    {
        proof {
            lemma_count_all_step(s, k as int, blinks_left as nat);
            lemma_count_all_prefix(s, k + 1, blinks_left as nat);
            assert(fits(s[k as int], blinks_left as nat));
        }
        let stone = Stone { number: stone_nbs[k], blinks_left };
        let c = count_descendants(&stone, &mut cache);
        n = n + c;
        k += 1;
    }
    proof {
        assert(s.take(s.len() as int) =~= s);
    }
    n
}

// ---------------------------------------------------------------------------
// Input

/// The input is a whitespace-separated list of `u64` numbers.
pub open spec fn valid_stones(input: Seq<char>) -> bool {
    forall|k: int|
        0 <= k < parse::words_of(input).len() ==> parse::lit_unsigned(
            #[trigger] parse::words_of(input)[k],
            u64::MAX as int,
        ) is Some
}

/// The numbers of the input.
pub open spec fn stones_of(input: Seq<char>) -> Seq<u64> {
    parse::words_of(input).map_values(
        |w: Seq<char>| parse::lit_unsigned(w, u64::MAX as int)->0 as u64,
    )
}

/// The whitespace-separated numbers of the input.
pub fn parse_stones(input: &str) -> (v: Vec<u64>)
    requires
        valid_stones(input@),
    ensures
        v@ == stones_of(input@),
{
    let s = parse::chars_of(input);
    let words = parse::word_spans(s.as_slice(), 0, s.len());
    let ghost ws = parse::words_of(input@);
    proof {
        assert(s@.subrange(0, s@.len() as int) =~= input@);
    }
    let mut vals: Vec<u64> = Vec::new();
    let mut j: usize = 0;
    while j < words.len()
        invariant
            valid_stones(input@),
            ws == parse::words_of(input@),
            s@ == input@,
            words@.len() == ws.len(),
            forall|k: int|
                0 <= k < words@.len() ==> {
                    let (b, e) = #[trigger] words@[k];
                    &&& b <= e <= s@.len()
                    &&& s@.subrange(b as int, e as int) == ws[k]
                },
            j <= words@.len(),
            vals@ == ws.take(j as int).map_values(
                |w: Seq<char>| parse::lit_unsigned(w, u64::MAX as int)->0 as u64,
            ),
        decreases words@.len() - j,
    {
        let (b, e) = words[j];
        assert(parse::lit_unsigned(ws[j as int], u64::MAX as int) is Some);
        let v = parse::parse_unsigned(s.as_slice(), b, e, u64::MAX).unwrap();
        vals.push(v);
        assert(vals@ =~= ws.take(j + 1).map_values(
            |w: Seq<char>| parse::lit_unsigned(w, u64::MAX as int)->0 as u64,
        ));
        j += 1;
    }
    assert(ws.take(ws.len() as int) =~= ws);
    vals
}

/// The input can be counted for `b` blinks within `u64` stone numbers and `usize` counts.
pub open spec fn countable(input: Seq<char>, b: nat) -> bool {
    &&& valid_stones(input)
    &&& all_fit(nats(stones_of(input)), b)
    &&& count_all(nats(stones_of(input)), b) <= usize::MAX
}

/// Number of stones after 25 blinks.
pub fn part1(input: &str) -> (n: usize)
    requires
        countable(input@, 25),
    ensures
        n == count_all(nats(stones_of(input@)), 25),
{
    let stone_nbs = parse_stones(input);
    count_stones(stone_nbs.as_slice(), 25)
}

/// Number of stones after 75 blinks.
pub fn part2(input: &str) -> (n: usize)
    requires
        countable(input@, 75),
    ensures
        n == count_all(nats(stones_of(input@)), 75),
{
    let stone_nbs = parse_stones(input);
    count_stones(stone_nbs.as_slice(), 75)
}

} // verus!
