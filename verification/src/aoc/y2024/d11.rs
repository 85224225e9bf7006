use crate::aoc::y2024::d11_stone_dyn_count as stones;
use crate::aoc::y2024::d11_stone_dyn_count::Stone;
use std::collections::HashMap;
use vstd::prelude::*;

verus! {

broadcast use vstd::std_specs::hash::group_hash_axioms;

// ---------------------------------------------------------------------------
// Blinking a whole row of stones

/// The row after one blink: each stone replaced, in place, by the stones it becomes.
pub open spec fn blink(s: Seq<nat>) -> Seq<nat>
    decreases s.len(),
{
    if s.len() == 0 {
        Seq::empty()
    } else {
        blink(s.drop_last()) + stones::children_spec(s.last())
    }
}

/// The row after `n` blinks.
pub open spec fn blinks(s: Seq<nat>, n: nat) -> Seq<nat>
    decreases n,
{
    if n == 0 {
        s
    } else {
        blinks(blink(s), (n - 1) as nat)
    }
}

proof fn lemma_count_all_zero(s: Seq<nat>)
    ensures
        stones::count_all(s, 0) == s.len(),
    decreases s.len(),
{
    if s.len() > 0 {
        lemma_count_all_zero(s.drop_last());
        assert(stones::count(s.last(), 0) == 1);
    }
}

proof fn lemma_count_all_blink(s: Seq<nat>, b: nat)
    ensures
        stones::count_all(blink(s), b) == stones::count_all(s, b + 1),
    decreases s.len(),
{
    if s.len() > 0 {
        lemma_count_all_blink(s.drop_last(), b);
        stones::lemma_count_all_concat(
            blink(s.drop_last()),
            stones::children_spec(s.last()),
            b,
        );
        assert(stones::count(s.last(), b + 1) == stones::count_all(
            stones::children_spec(s.last()),
            b,
        ));
    }
}

/// Counting stones without building the rows gives the length of the row: after `n`
/// blinks the row `s` has as many stones as its stones become one by one.
pub proof fn lemma_blinks_len(s: Seq<nat>, n: nat)
    ensures
        blinks(s, n).len() == stones::count_all(s, n),
    decreases n,
{
    if n == 0 {
        lemma_count_all_zero(s);
    } else {
        lemma_blinks_len(blink(s), (n - 1) as nat);
        lemma_count_all_blink(s, (n - 1) as nat);
    }
}

proof fn lemma_blink_fits(s: Seq<nat>, b: nat)
    requires
        stones::all_fit(s, b + 1),
    ensures
        stones::all_fit(blink(s), b),
        forall|k: int| 0 <= k < s.len() ==> stones::child_fits(#[trigger] s[k]),
    decreases s.len(),
{
    if s.len() > 0 {
        let s0 = s.drop_last();
        assert forall|k: int| 0 <= k < s0.len() implies stones::fits(#[trigger] s0[k], b + 1) by {
            assert(s0[k] == s[k]);
        }
        lemma_blink_fits(s0, b);
        let c = stones::children_spec(s.last());
        assert(stones::fits(s[s.len() - 1], b + 1));
        let r = blink(s0) + c;
        assert forall|k: int| 0 <= k < r.len() implies stones::fits(#[trigger] r[k], b) by {
            if k >= blink(s0).len() {
                assert(r[k] == c[k - blink(s0).len()]);
            }
        }
    }
}

/// The stones of `stones` after one blink.
pub fn apply_rules(stones: &[u64]) -> (r: Vec<u64>)
    requires
        forall|k: int| 0 <= k < stones@.len() ==> stones::child_fits(#[trigger] stones@[k] as nat),
    ensures
        stones::nats(r@) == blink(stones::nats(stones@)),
{
    let ghost s = stones::nats(stones@);
    let mut r: Vec<u64> = Vec::new();
    let mut k: usize = 0;
    while k < stones.len()
        invariant
            s == stones::nats(stones@),
            forall|j: int| 0 <= j < stones@.len() ==> stones::child_fits(#[trigger] stones@[j] as nat),
            k <= stones@.len(),
            stones::nats(r@) == blink(s.take(k as int)),
        decreases stones@.len() - k,
    {
        let c = stones::get_children(stones[k]);
        let ghost r0 = r@;
        let mut t: usize = 0;
        while t < c.len()
            invariant
                t <= c@.len(),
                r@ == r0 + c@.take(t as int),
            decreases c@.len() - t,
        {
            r.push(c[t]);
            assert(r@ =~= r0 + c@.take(t + 1));
            t += 1;
        }
        proof {
            assert(c@.take(c@.len() as int) =~= c@);
            assert(s.take(k + 1).drop_last() =~= s.take(k as int));
            assert(stones::nats(r0 + c@) =~= stones::nats(r0) + stones::nats(c@));
        }
        k += 1;
    }
    assert(s.take(s.len() as int) =~= s);
    r
}

/// Number of stones after 25 blinks, by building every row.
pub fn part1(input: &str) -> (n: usize)
    requires
        stones::valid_stones(input@),
        stones::all_fit(stones::nats(stones::stones_of(input@)), 25),
    ensures
        n == stones::count_all(stones::nats(stones::stones_of(input@)), 25),
{
    let mut row = stones::parse_stones(input);
    let ghost s0 = stones::nats(row@);
    let mut i: usize = 0;
    while i < 25
        invariant
            i <= 25,
            stones::all_fit(stones::nats(row@), (25 - i) as nat),
            stones::nats(row@) == blinks(s0, i as nat),
            s0 == stones::nats(stones::stones_of(input@)),
        decreases 25 - i,
    {
        proof {
            lemma_blink_fits(stones::nats(row@), (25 - i - 1) as nat);
            assert forall|k: int| 0 <= k < row@.len() implies stones::child_fits(
                #[trigger] row@[k] as nat,
            ) by {
                assert(stones::nats(row@)[k] == row@[k] as nat);
            }
            lemma_blinks_step(s0, i as nat);
        }
        row = apply_rules(row.as_slice());
        i += 1;
    }
    proof {
        lemma_blinks_len(s0, 25);
    }
    row.len()
}

proof fn lemma_blinks_step(s: Seq<nat>, n: nat)
    ensures
        blinks(s, n + 1) == blink(blinks(s, n)),
    decreases n,
{
    if n > 0 {
        lemma_blinks_step(blink(s), (n - 1) as nat);
        assert(blinks(s, n + 1) == blinks(blink(s), n));
    } else {
        assert(blinks(s, 1) == blinks(blink(s), 0));
    }
}

// ---------------------------------------------------------------------------
// Counting with an explicit call stack

impl Stone {
    /// Number of stones this one becomes after one blink; none when it has no blinks left.
    pub fn nb_children(&self) -> (n: usize)
        ensures
            n == (if self.blinks_left == 0 {
                0
            } else {
                stones::children_spec(self.number as nat).len()
            }),
    {
        if self.blinks_left == 0 {
            0
        } else {
            let d = stones::nb_digits(self.number);
            proof {
                if self.number != 0 && d % 2 == 0 {
                    stones::lemma_pow10_pos(d as nat / 2);
                }
            }
            2 - (d % 2) as usize
        }
    }
}

/// The count of a stone.
pub open spec fn count_of(s: Stone) -> nat {
    stones::count(s.number as nat, s.blinks_left as nat)
}

/// Memoized counts of stones.
pub struct Cache {
    pub cached: HashMap<u128, usize>,
}

impl Cache {
    /// Every entry holds the count of the stone it is keyed by.
    pub open spec fn valid(&self) -> bool {
        forall|s: Stone| #[trigger]
            self.cached@.contains_key(stones::key_of(s)) ==> self.cached@[stones::key_of(s)]
                == count_of(s)
    }

    pub fn insert(&mut self, key: Stone, val: usize)
        requires
            old(self).valid(),
            val == count_of(key),
        ensures
            final(self).valid(),
            final(self).cached@ == old(self).cached@.insert(stones::key_of(key), val),
    {
        let k = stones::key(&key);
        self.cached.insert(k, val);
        proof {
            assert forall|s: Stone| #[trigger]
                self.cached@.contains_key(stones::key_of(s)) implies self.cached@[stones::key_of(s)]
                == count_of(s) by {
                if stones::key_of(s) == k {
                    stones::lemma_key_injective(s, key);
                } else {
                    assert(old(self).cached@.contains_key(stones::key_of(s)));
                }
            }
        }
    }

    /// The count for the stone when it is known: directly for up to one blink, else from
    /// the cache.
    pub fn get(&self, key: &Stone) -> (r: Option<usize>)
        requires
            self.valid(),
        ensures
            r matches Some(v) ==> v == count_of(*key),
            r is Some <==> (key.blinks_left <= 1 || self.cached@.contains_key(stones::key_of(*key))),
    {
        if key.blinks_left == 0 {
            Some(1)
        } else if key.blinks_left == 1 {
            let n = key.nb_children();
            proof {
                let i = key.number as nat;
                let c = stones::children_spec(i);
                if i != 0 && stones::digits(i) % 2 == 0 {
                    stones::lemma_pow10_pos(stones::digits(i) / 2);
                }
                assert(count_of(*key) == stones::count_all(c, 0));
                lemma_count_all_zero(c);
            }
            Some(n)
        } else {
            let k = stones::key(key);
            match self.cached.get(&k) {
                Some(v) => Some(*v),
                None => None,
            }
        }
    }
}

/// Number of stones that `stone` becomes after its blinks, memoized in `cache`.
pub fn nb_descendants_recursive(stone: &Stone, cache: &mut Cache) -> (n: usize)
    requires
        old(cache).valid(),
        stones::fits(stone.number as nat, stone.blinks_left as nat),
        count_of(*stone) <= usize::MAX,
    ensures
        n == count_of(*stone),
        final(cache).valid(),
    decreases stone.blinks_left,
{
    if let Some(n) = cache.get(stone) {
        n
    } else {
        let ghost i = stone.number as nat;
        let ghost b = (stone.blinks_left - 1) as nat;
        let ghost cs = stones::children_spec(i);
        let children = stone.children();
        proof {
            stones::lemma_children_fit(i);
        }
        let mut n: usize = 0;
        let mut k: usize = 0;
        while k < children.len()
            invariant
                cache.valid(),
                stone.blinks_left >= 1,
                i == stone.number,
                b == stone.blinks_left - 1,
                cs == stones::children_spec(i),
                stones::fits(i, b + 1),
                stones::count(i, b + 1) <= usize::MAX,
                children@.len() == cs.len(),
                forall|j: int|
                    0 <= j < children@.len() ==> (#[trigger] children@[j]).number == cs[j]
                        && children@[j].blinks_left == b,
                k <= children@.len(),
                n == stones::count_all(cs.take(k as int), b),
            decreases children@.len() - k,
        {
            proof {
                stones::lemma_count_all_step(cs, k as int, b);
                stones::lemma_count_all_prefix(cs, k + 1, b);
                assert(stones::fits(cs[k as int], b));
            }
            let c = nb_descendants_recursive(&children[k], cache);
            n = n + c;
            k += 1;
        }
        proof {
            assert(cs.take(cs.len() as int) =~= cs);
        }
        cache.insert(*stone, n);
        n
    }
}

/// A call on the stack: the stone to count, where the calls for its children begin once
/// it has pushed them, and its count once known.
#[derive(Clone, Copy, Debug)]
pub struct Entry {
    pub cmd: Stone,
    pub arg: Option<usize>,
    pub val: Option<usize>,
}

/// The numbers of the children of a call's stone.
pub open spec fn kids(e: Entry) -> Seq<nat> {
    stones::children_spec(e.cmd.number as nat)
}

pub open spec fn nkids(e: Entry) -> int {
    kids(e).len() as int
}

/// Where the calls for the children of `e` begin.
pub open spec fn argv(e: Entry) -> int {
    (e.arg->0) as int
}

/// `c` is the `t`-th child stone of the call `p`.
pub open spec fn is_kid(p: Entry, t: int, c: Stone) -> bool {
    c.number == kids(p)[t] && c.blinks_left == p.cmd.blinks_left - 1
}

/// Start and end of the block of children of the `i`-th open call.
pub open spec fn bstart(st: Seq<Entry>, opens: Seq<int>, i: int) -> int {
    argv(st[opens[i]])
}

pub open spec fn bend(st: Seq<Entry>, opens: Seq<int>, i: int) -> int {
    argv(st[opens[i]]) + nkids(st[opens[i]])
}

/// Entry `j` of the stack is the right child of the `i`-th open call.
pub open spec fn kid_at(st: Seq<Entry>, opens: Seq<int>, i: int, j: int) -> bool {
    is_kid(st[opens[i]], j - bstart(st, opens, i), st[j].cmd)
}

/// A call whose count, when known, is right, and whose stone can be counted.
pub open spec fn entry_ok(e: Entry) -> bool {
    &&& e.val matches Some(v) ==> v == count_of(e.cmd)
    &&& stones::fits(e.cmd.number as nat, e.cmd.blinks_left as nat)
    &&& count_of(e.cmd) <= usize::MAX
}

/// Every call's count, when known, is right, and every call's stone can be counted.
#[verifier::opaque]
pub open spec fn inv_entries(st: Seq<Entry>) -> bool {
    forall|j: int| 0 <= j < st.len() ==> entry_ok(#[trigger] st[j])
}

/// The open calls wait for their children, which stand above them.
#[verifier::opaque]
pub open spec fn inv_opens(st: Seq<Entry>, opens: Seq<int>) -> bool {
    forall|i: int|
        0 <= i < opens.len() ==> {
            &&& 0 <= #[trigger] opens[i] < st.len()
            &&& st[opens[i]].val is None
            &&& st[opens[i]].arg is Some
            &&& st[opens[i]].cmd.blinks_left >= 1
            &&& opens[i] < bstart(st, opens, i)
            &&& bend(st, opens, i) <= st.len()
        }
}

/// Each block follows the previous one, and each open call but the root stands in the
/// block of the previous open call.
#[verifier::opaque]
pub open spec fn inv_chain(st: Seq<Entry>, opens: Seq<int>) -> bool {
    forall|i: int|
        1 <= i < opens.len() ==> #[trigger] bstart(st, opens, i) == bend(st, opens, i - 1)
            && bstart(st, opens, i - 1) <= opens[i] < bend(st, opens, i - 1)
}

/// The open calls from the root up, and their blocks after one another.
#[verifier::opaque]
pub open spec fn inv_order(st: Seq<Entry>, opens: Seq<int>) -> bool {
    forall|i: int, i2: int|
        0 <= i < i2 < opens.len() ==> #[trigger] opens[i] < #[trigger] opens[i2] && bend(
            st,
            opens,
            i,
        ) <= bstart(st, opens, i2)
}

/// Each block holds the children of its open call, in order.
#[verifier::opaque]
pub open spec fn inv_blocks(st: Seq<Entry>, opens: Seq<int>) -> bool {
    forall|i: int, j: int|
        0 <= i < opens.len() && bstart(st, opens, i) <= j < bend(st, opens, i) ==> #[trigger] kid_at(
            st,
            opens,
            i,
            j,
        )
}

/// A call that waits for children is an open call.
#[verifier::opaque]
pub open spec fn inv_closed(st: Seq<Entry>, opens: Seq<int>) -> bool {
    forall|j: int|
        0 <= j < st.len() && (#[trigger] st[j]).val is None && st[j].arg is Some ==> opens.contains(
            j,
        )
}

/// The calls above the current one are counted.
#[verifier::opaque]
pub open spec fn inv_done(st: Seq<Entry>, ptr: int) -> bool {
    forall|j: int| ptr < j < st.len() ==> (#[trigger] st[j]).val is Some
}

/// The calls above an open call in its block are counted.
#[verifier::opaque]
pub open spec fn inv_done_blocks(st: Seq<Entry>, opens: Seq<int>) -> bool {
    forall|i: int, j: int|
        #![trigger opens[i], st[j]]
        1 <= i < opens.len() && opens[i] < j < bend(st, opens, i - 1) ==> st[j].val is Some
}

/// The shape of the stack during the evaluation. The open calls (`opens`, from the root
/// up) have pushed their children and wait for them; the children of each open call form
/// one block, the blocks follow one another above the root, and each open call but the
/// root stands in the block of the previous one. Below the current call `ptr` of the last
/// block wait the calls still to make; above it, and above each open call in its block,
/// stand the calls already counted.
pub open spec fn stack_inv(st: Seq<Entry>, ptr: int, opens: Seq<int>) -> bool {
    let k = opens.len() as int;
    &&& 1 <= st.len() && 0 <= ptr < st.len()
    &&& k == 0 ==> st.len() == 1 && ptr == 0
    &&& k > 0 ==> opens[0] == 0 && bstart(st, opens, 0) == 1 && st.len() == bend(st, opens, k - 1)
        && opens[k - 1] <= ptr
    &&& inv_entries(st)
    &&& inv_opens(st, opens)
    &&& inv_chain(st, opens)
    &&& inv_order(st, opens)
    &&& inv_blocks(st, opens)
    &&& inv_closed(st, opens)
    &&& inv_done(st, ptr)
    &&& inv_done_blocks(st, opens)
}

// Termination: the work left on the stack.

/// Steps to count a stone with nothing cached: push the children, count each, sum.
pub open spec fn full(i: nat, b: nat) -> nat
    decreases b, 0int,
{
    if b == 0 {
        1
    } else {
        2 + full_all(stones::children_spec(i), (b - 1) as nat)
    }
}

pub open spec fn full_all(s: Seq<nat>, b: nat) -> nat
    decreases b, s.len() + 1,
{
    if s.len() == 0 {
        0
    } else {
        full_all(s.drop_last(), b) + full(s.last(), b)
    }
}

pub open spec fn work(e: Entry) -> nat {
    if e.val is Some {
        0
    } else if e.arg is Some {
        1
    } else {
        full(e.cmd.number as nat, e.cmd.blinks_left as nat)
    }
}

pub open spec fn total(st: Seq<Entry>) -> nat
    decreases st.len(),
{
    if st.len() == 0 {
        0
    } else {
        total(st.drop_last()) + work(st.last())
    }
}

proof fn lemma_full_pos(i: nat, b: nat)
    ensures
        full(i, b) >= 1,
{
}

proof fn lemma_total_concat(a: Seq<Entry>, c: Seq<Entry>)
    ensures
        total(a + c) == total(a) + total(c),
    decreases c.len(),
{
    if c.len() == 0 {
        assert(a + c =~= a);
    } else {
        assert((a + c).drop_last() =~= a + c.drop_last());
        lemma_total_concat(a, c.drop_last());
    }
}

proof fn lemma_total_update(st: Seq<Entry>, j: int, e: Entry)
    requires
        0 <= j < st.len(),
    ensures
        total(st.update(j, e)) + work(st[j]) == total(st) + work(e),
    decreases st.len(),
{
    if j < st.len() - 1 {
        assert(st.update(j, e).drop_last() =~= st.drop_last().update(j, e));
        lemma_total_update(st.drop_last(), j, e);
    } else {
        assert(st.update(j, e).drop_last() =~= st.drop_last());
    }
}

proof fn lemma_total_take(st: Seq<Entry>, n: int)
    requires
        0 <= n <= st.len(),
    ensures
        total(st.take(n)) <= total(st),
{
    assert(st =~= st.take(n) + st.skip(n));
    lemma_total_concat(st.take(n), st.skip(n));
}

proof fn lemma_move(st: Seq<Entry>, ptr: int, opens: Seq<int>)
    requires
        stack_inv(st, ptr, opens),
        st[ptr].val is Some,
        st[0].val is None,
    ensures
        ptr > 0,
        stack_inv(st, ptr - 1, opens),
{
    let k = opens.len() as int;
    if k > 0 {
        reveal(inv_opens);
        assert(0 <= opens[k - 1] < st.len());
    }
    assert(inv_done(st, ptr - 1)) by {
        reveal(inv_done);
        assert forall|j: int| ptr - 1 < j < st.len() implies (#[trigger] st[j]).val is Some by {
            if j > ptr {
            }
        }
    }
}

/// `st2` is `st` with more calls counted, and their counts right.
pub open spec fn more_counted(st: Seq<Entry>, st2: Seq<Entry>) -> bool {
    &&& st2.len() == st.len()
    &&& forall|j: int|
        0 <= j < st.len() ==> (#[trigger] st2[j]).cmd == st[j].cmd && st2[j].arg == st[j].arg
            && (st[j].val is Some ==> st2[j].val == st[j].val) && (st2[j].val matches Some(v) ==> v
            == count_of(st2[j].cmd))
}

/// Counting more calls, but no open call, keeps the shape.
proof fn lemma_more_counted(st: Seq<Entry>, ptr: int, opens: Seq<int>, st2: Seq<Entry>)
    requires
        stack_inv(st, ptr, opens),
        more_counted(st, st2),
        forall|i: int| 0 <= i < opens.len() ==> (#[trigger] st2[opens[i]]).val is None,
    ensures
        stack_inv(st2, ptr, opens),
{
    let k = opens.len() as int;
    assert forall|i: int| 0 <= i < k implies st2[#[trigger] opens[i]] == st[opens[i]] by {
        reveal(inv_opens);
        assert(0 <= opens[i] < st.len());
        assert(st2[opens[i]].cmd == st[opens[i]].cmd);
    }
    assert forall|i: int| 0 <= i < k implies bstart(st2, opens, i) == bstart(st, opens, i)
        && bend(st2, opens, i) == bend(st, opens, i) by {
        assert(st2[opens[i]] == st[opens[i]]);
    }
    if k > 0 {
        assert(bstart(st2, opens, 0) == bstart(st, opens, 0));
        assert(bend(st2, opens, k - 1) == bend(st, opens, k - 1));
    }
    assert(inv_entries(st2)) by {
        reveal(inv_entries);
        assert forall|j: int| 0 <= j < st2.len() implies entry_ok(#[trigger] st2[j]) by {
            assert(entry_ok(st[j]));
        }
    }
    assert(inv_opens(st2, opens)) by {
        reveal(inv_opens);
        assert forall|i: int| 0 <= i < k implies {
            &&& 0 <= #[trigger] opens[i] < st2.len()
            &&& st2[opens[i]].val is None
            &&& st2[opens[i]].arg is Some
            &&& st2[opens[i]].cmd.blinks_left >= 1
            &&& opens[i] < bstart(st2, opens, i)
            &&& bend(st2, opens, i) <= st2.len()
        } by {
            assert(st2[opens[i]] == st[opens[i]]);
            assert(bstart(st2, opens, i) == bstart(st, opens, i));
            assert(bend(st2, opens, i) == bend(st, opens, i));
        }
    }
    assert(inv_order(st2, opens)) by {
        reveal(inv_order);
        assert forall|i: int, i2: int| 0 <= i < i2 < k implies #[trigger] opens[i] < #[trigger] opens[i2]
            && bend(st2, opens, i) <= bstart(st2, opens, i2) by {
            assert(bend(st2, opens, i) == bend(st, opens, i));
            assert(bstart(st2, opens, i2) == bstart(st, opens, i2));
        }
    }
    assert(inv_chain(st2, opens)) by {
        reveal(inv_chain);
        assert forall|i: int| 1 <= i < k implies #[trigger] bstart(st2, opens, i) == bend(
            st2,
            opens,
            i - 1,
        ) && bstart(st2, opens, i - 1) <= opens[i] < bend(st2, opens, i - 1) by {
            assert(bstart(st, opens, i) == bend(st, opens, i - 1));
            assert(bstart(st2, opens, i) == bstart(st, opens, i));
            assert(bstart(st2, opens, i - 1) == bstart(st, opens, i - 1));
            assert(bend(st2, opens, i - 1) == bend(st, opens, i - 1));
        }
    }
    assert(inv_blocks(st2, opens)) by {
        reveal(inv_blocks);
        assert forall|i: int, j: int|
            0 <= i < k && bstart(st2, opens, i) <= j < bend(st2, opens, i) implies #[trigger] kid_at(
            st2,
            opens,
            i,
            j,
        ) by {
            assert(bstart(st2, opens, i) == bstart(st, opens, i));
            assert(bend(st2, opens, i) == bend(st, opens, i));
            assert(kid_at(st, opens, i, j));
            assert(st2[opens[i]] == st[opens[i]]);
            reveal(inv_opens);
            assert(bend(st, opens, i) <= st.len());
            assert(0 <= j < st.len());
            assert(st2[j].cmd == st[j].cmd);
        }
    }
    assert(inv_closed(st2, opens)) by {
        reveal(inv_closed);
        assert forall|j: int|
            0 <= j < st2.len() && (#[trigger] st2[j]).val is None && st2[j].arg is Some implies opens.contains(j) by {
            assert(st[j].val is None && st[j].arg is Some);
        }
    }
    assert(inv_done(st2, ptr)) by {
        reveal(inv_done);
        assert forall|j: int| ptr < j < st2.len() implies (#[trigger] st2[j]).val is Some by {
            assert(st[j].val is Some);
        }
    }
    assert(inv_done_blocks(st2, opens)) by {
        reveal(inv_done_blocks);
        assert forall|i: int, j: int|
            #![trigger opens[i], st2[j]]
            1 <= i < k && opens[i] < j < bend(st2, opens, i - 1) implies st2[j].val is Some by {
            assert(bend(st2, opens, i - 1) == bend(st, opens, i - 1));
            reveal(inv_opens);
            assert(0 <= opens[i] < st.len());
            assert(bend(st, opens, i - 1) <= st.len());
            assert(st[j].val is Some);
        }
    }
}

#[verifier::spinoff_prover]
proof fn lemma_cached(st: Seq<Entry>, ptr: int, opens: Seq<int>, v: usize)
    requires
        stack_inv(st, ptr, opens),
        st[ptr].val is None,
        st[ptr].arg is None,
        v == count_of(st[ptr].cmd),
    ensures
        ({
            let st2 = st.update(ptr, Entry { val: Some(v), ..st[ptr] });
            &&& stack_inv(st2, ptr, opens)
            &&& total(st2) < total(st)
        }),
{
    let st2 = st.update(ptr, Entry { val: Some(v), ..st[ptr] });
    assert forall|i: int| 0 <= i < opens.len() implies (#[trigger] st2[opens[i]]).val is None by {
        reveal(inv_opens);
        assert(0 <= opens[i] < st.len());
    }
    assert(more_counted(st, st2)) by {
        reveal(inv_entries);
        assert forall|j: int| 0 <= j < st.len() implies (#[trigger] st2[j]).cmd == st[j].cmd
            && st2[j].arg == st[j].arg && (st[j].val is Some ==> st2[j].val == st[j].val) && (
        st2[j].val matches Some(w) ==> w == count_of(st2[j].cmd)) by {
            assert(entry_ok(st[j]));
        }
    }
    lemma_more_counted(st, ptr, opens, st2);
    lemma_total_update(st, ptr, Entry { val: Some(v), ..st[ptr] });
    lemma_full_pos(st[ptr].cmd.number as nat, st[ptr].cmd.blinks_left as nat);
}

/// The call that waits for its children is the last open call, and its children, all
/// counted, fill the stack above its block's start.
proof fn lemma_eval_kids(st: Seq<Entry>, ptr: int, opens: Seq<int>)
    requires
        stack_inv(st, ptr, opens),
        st[ptr].val is None,
        st[ptr].arg is Some,
    ensures
        opens.len() > 0,
        ptr == opens[opens.len() - 1],
        bstart(st, opens, opens.len() - 1) == argv(st[ptr]),
        ptr < argv(st[ptr]),
        st.len() == argv(st[ptr]) + nkids(st[ptr]),
        st[ptr].cmd.blinks_left >= 1,
        entry_ok(st[ptr]),
        forall|j: int|
            argv(st[ptr]) <= j < st.len() ==> is_kid(st[ptr], j - argv(st[ptr]), (#[trigger] st[j]).cmd)
                && st[j].val == Some(count_of(st[j].cmd) as usize),
{
    let k = opens.len() as int;
    reveal(inv_closed);
    reveal(inv_entries);
    assert(opens.contains(ptr));
    let i = choose|i: int| 0 <= i < opens.len() && opens[i] == ptr;
    if i < k - 1 {
        reveal(inv_order);
        assert(opens[i] < opens[k - 1]);
    }
    reveal(inv_opens);
    assert(0 <= opens[k - 1] < st.len());
    assert forall|j: int| argv(st[ptr]) <= j < st.len() implies is_kid(
        st[ptr],
        j - argv(st[ptr]),
        (#[trigger] st[j]).cmd,
    ) && st[j].val == Some(count_of(st[j].cmd) as usize) by {
        reveal(inv_blocks);
        reveal(inv_done);
        assert(kid_at(st, opens, k - 1, j));
        assert(entry_ok(st[j]));
        assert(st[j].val is Some);
    }
    assert(entry_ok(st[ptr]));
}

#[verifier::spinoff_prover]
#[verifier::rlimit(30)]
proof fn lemma_eval(st: Seq<Entry>, ptr: int, opens: Seq<int>, v: usize)
    requires
        stack_inv(st, ptr, opens),
        st[ptr].val is None,
        st[ptr].arg is Some,
        v == count_of(st[ptr].cmd),
    ensures
        ({
            let st2 = st.take(argv(st[ptr])).update(ptr, Entry { val: Some(v), ..st[ptr] });
            &&& stack_inv(st2, ptr, opens.drop_last())
            &&& total(st2) < total(st)
        }),
{
    lemma_eval_kids(st, ptr, opens);
    let k = opens.len() as int;
    let a = argv(st[ptr]);
    let e = Entry { val: Some(v), ..st[ptr] };
    let st1 = st.take(a);
    let st2 = st1.update(ptr, e);
    let o1 = opens.drop_last();
    reveal(inv_opens);
    reveal(inv_order);
    assert forall|i: int| 0 <= i < k - 1 implies st2[#[trigger] opens[i]] == st[opens[i]] && opens[i]
        < ptr && bend(st, opens, i) <= a by {
        assert(opens[i] < opens[k - 1]);
        assert(bend(st, opens, i) <= bstart(st, opens, k - 1));
    }
    assert forall|i: int| 0 <= i < k - 1 implies bstart(st2, o1, i) == bstart(st, opens, i) && bend(
        st2,
        o1,
        i,
    ) == bend(st, opens, i) by {
        assert(o1[i] == opens[i]);
        assert(st2[opens[i]] == st[opens[i]]);
    }
    if k > 1 {
        assert(bstart(st2, o1, 0) == bstart(st, opens, 0));
        assert(bend(st2, o1, k - 2) == bend(st, opens, k - 2));
        reveal(inv_chain);
        assert(bstart(st, opens, k - 1) == bend(st, opens, k - 2));
        assert(opens[k - 2] < opens[k - 1]);
    } else {
        assert(opens[0] == 0);
    }
    assert(inv_entries(st2)) by {
        reveal(inv_entries);
        assert forall|j: int| 0 <= j < st2.len() implies entry_ok(#[trigger] st2[j]) by {
            assert(entry_ok(st[j]));
        }
    }
    assert(inv_opens(st2, o1)) by {
        assert forall|i: int| 0 <= i < o1.len() implies {
            &&& 0 <= #[trigger] o1[i] < st2.len()
            &&& st2[o1[i]].val is None
            &&& st2[o1[i]].arg is Some
            &&& st2[o1[i]].cmd.blinks_left >= 1
            &&& o1[i] < bstart(st2, o1, i)
            &&& bend(st2, o1, i) <= st2.len()
        } by {
            assert(o1[i] == opens[i]);
            assert(st2[opens[i]] == st[opens[i]]);
        }
    }
    assert(inv_chain(st2, o1)) by {
        reveal(inv_chain);
        assert forall|i: int| 1 <= i < o1.len() implies #[trigger] bstart(st2, o1, i) == bend(
            st2,
            o1,
            i - 1,
        ) && bstart(st2, o1, i - 1) <= o1[i] < bend(st2, o1, i - 1) by {
            assert(bstart(st, opens, i) == bend(st, opens, i - 1));
            assert(o1[i] == opens[i]);
        }
    }
    assert(inv_order(st2, o1)) by {
        assert forall|i: int, i2: int| 0 <= i < i2 < o1.len() implies #[trigger] o1[i] < #[trigger] o1[i2]
            && bend(st2, o1, i) <= bstart(st2, o1, i2) by {
            assert(o1[i] == opens[i] && o1[i2] == opens[i2]);
            assert(opens[i] < opens[i2] && bend(st, opens, i) <= bstart(st, opens, i2));
        }
    }
    assert(inv_blocks(st2, o1)) by {
        reveal(inv_blocks);
        assert forall|i: int, j: int|
            0 <= i < o1.len() && bstart(st2, o1, i) <= j < bend(st2, o1, i) implies #[trigger] kid_at(
            st2,
            o1,
            i,
            j,
        ) by {
            assert(o1[i] == opens[i]);
            assert(kid_at(st, opens, i, j));
            assert(st2[j].cmd == st[j].cmd);
        }
    }
    assert(inv_closed(st2, o1)) by {
        reveal(inv_closed);
        assert forall|j: int|
            0 <= j < st2.len() && (#[trigger] st2[j]).val is None && st2[j].arg is Some implies o1.contains(j) by {
            assert(st2[j] == st[j]);
            assert(opens.contains(j));
            let i = choose|i: int| 0 <= i < opens.len() && opens[i] == j;
            assert(o1[i] == j);
        }
    }
    assert(inv_done(st2, ptr)) by {
        reveal(inv_done);
        reveal(inv_done_blocks);
        assert forall|j: int| ptr < j < st2.len() implies (#[trigger] st2[j]).val is Some by {
            assert(opens[k - 1] < j);
            assert(st[j].val is Some);
        }
    }
    assert(inv_done_blocks(st2, o1)) by {
        reveal(inv_done_blocks);
        assert forall|i: int, j: int|
            #![trigger o1[i], st2[j]]
            1 <= i < o1.len() && o1[i] < j < bend(st2, o1, i - 1) implies st2[j].val is Some by {
            assert(o1[i] == opens[i]);
            assert(opens[i] < j < bend(st, opens, i - 1));
            if j != ptr {
                assert(st[j].val is Some);
            }
        }
    }
    lemma_total_take(st, a);
    lemma_total_update(st1, ptr, e);
}

/// The entries `blk` are the uncounted calls of the stones `s`, each with `b` blinks.
pub open spec fn fresh_calls(blk: Seq<Entry>, s: Seq<nat>, b: nat) -> bool {
    &&& blk.len() == s.len()
    &&& forall|t: int|
        0 <= t < s.len() ==> (#[trigger] blk[t]).cmd.number == s[t] && blk[t].cmd.blinks_left == b
            && blk[t].arg is None && blk[t].val is None
}

proof fn lemma_total_fresh(blk: Seq<Entry>, s: Seq<nat>, b: nat)
    requires
        fresh_calls(blk, s, b),
    ensures
        total(blk) == full_all(s, b),
    decreases s.len(),
{
    if s.len() > 0 {
        assert(fresh_calls(blk.drop_last(), s.drop_last(), b)) by {
            assert forall|t: int| 0 <= t < s.drop_last().len() implies (#[trigger] blk.drop_last()[t]).cmd.number
                == s.drop_last()[t] && blk.drop_last()[t].cmd.blinks_left == b
                && blk.drop_last()[t].arg is None && blk.drop_last()[t].val is None by {
                assert(blk[t].cmd.number == s[t]);
            }
        }
        lemma_total_fresh(blk.drop_last(), s.drop_last(), b);
        assert(blk[blk.len() - 1].cmd.number == s[s.len() - 1]);
    }
}

/// A stone's count is at least the count of any of its children.
proof fn lemma_count_kid(s: Seq<nat>, t: int, b: nat)
    requires
        0 <= t < s.len(),
    ensures
        stones::count(s[t], b) <= stones::count_all(s, b),
{
    stones::lemma_count_all_step(s, t, b);
    stones::lemma_count_all_prefix(s, t + 1, b);
}

#[verifier::spinoff_prover]
#[verifier::rlimit(40)]
proof fn lemma_expand(st: Seq<Entry>, ptr: int, opens: Seq<int>, st2: Seq<Entry>)
    requires
        stack_inv(st, ptr, opens),
        st[ptr].val is None,
        st[ptr].arg is None,
        st[ptr].cmd.blinks_left >= 1,
        st.len() <= usize::MAX,
        st2.take(st.len() as int) == st.update(
            ptr,
            Entry { arg: Some(st.len() as usize), ..st[ptr] },
        ),
        st2.len() == st.len() + nkids(st[ptr]),
        fresh_calls(st2.skip(st.len() as int), kids(st[ptr]), (st[ptr].cmd.blinks_left - 1) as nat),
    ensures
        stack_inv(st2, st2.len() - 1, opens.push(ptr)),
        total(st2) < total(st),
{
    let k = opens.len() as int;
    let l = st.len() as int;
    let e1 = Entry { arg: Some(st.len() as usize), ..st[ptr] };
    let st1 = st.update(ptr, e1);
    let o2 = opens.push(ptr);
    let b = (st[ptr].cmd.blinks_left - 1) as nat;
    let ks = kids(st[ptr]);
    let blk = st2.skip(l);
    assert(st2 =~= st1 + blk);
    reveal(inv_entries);
    reveal(inv_opens);
    reveal(inv_order);
    assert(entry_ok(st[ptr]));
    stones::lemma_children_fit(st[ptr].cmd.number as nat);
    assert(st2[ptr] == e1);
    assert(bstart(st2, o2, k) == l && bend(st2, o2, k) == st2.len());
    assert forall|j: int| 0 <= j < l && j != ptr implies #[trigger] st2[j] == st[j] by {
        assert(st2[j] == st1[j]);
    }
    assert forall|i: int| 0 <= i < k implies #[trigger] opens[i] != ptr && opens[i] < ptr by {
        reveal(inv_closed);
        if opens[i] == ptr {
            assert(st[opens[i]].arg is Some);
        }
        assert(opens[i] <= opens[k - 1]);
    }
    assert forall|i: int| 0 <= i < k implies bstart(st2, o2, i) == bstart(st, opens, i) && bend(
        st2,
        o2,
        i,
    ) == bend(st, opens, i) && #[trigger] o2[i] == opens[i] by {
        assert(o2[i] == opens[i]);
        assert(st2[opens[i]] == st[opens[i]]);
    }
    // Where the expanded call stands: in the last block.
    if k > 0 {
        if ptr < bstart(st, opens, k - 1) {
            if k > 1 {
                reveal(inv_done_blocks);
                assert(opens[k - 1] < ptr < bend(st, opens, k - 2)) by {
                    reveal(inv_chain);
                }
                assert(st[ptr].val is Some);
            } else {
                assert(opens[0] == 0);
            }
        }
        assert(bstart(st, opens, k - 1) <= ptr < bend(st, opens, k - 1));
        assert(bstart(st2, o2, 0) == 1);
    } else {
        assert(ptr == 0 && l == 1);
    }
    assert(inv_entries(st2)) by {
        assert forall|j: int| 0 <= j < st2.len() implies entry_ok(#[trigger] st2[j]) by {
            if j < l {
                if j != ptr {
                    assert(entry_ok(st[j]));
                }
            } else {
                let t = j - l;
                assert(blk[t] == st2[j]);
                assert(st2[j].cmd.number == ks[t]);
                assert(stones::fits(ks[t], b));
                lemma_count_kid(ks, t, b);
            }
        }
    }
    assert(inv_opens(st2, o2)) by {
        assert forall|i: int| 0 <= i < o2.len() implies {
            &&& 0 <= #[trigger] o2[i] < st2.len()
            &&& st2[o2[i]].val is None
            &&& st2[o2[i]].arg is Some
            &&& st2[o2[i]].cmd.blinks_left >= 1
            &&& o2[i] < bstart(st2, o2, i)
            &&& bend(st2, o2, i) <= st2.len()
        } by {
            if i < k {
                assert(st2[opens[i]] == st[opens[i]]);
            }
        }
    }
    assert(inv_chain(st2, o2)) by {
        reveal(inv_chain);
        assert forall|i: int| 1 <= i < o2.len() implies #[trigger] bstart(st2, o2, i) == bend(
            st2,
            o2,
            i - 1,
        ) && bstart(st2, o2, i - 1) <= o2[i] < bend(st2, o2, i - 1) by {
            if i < k {
                assert(bstart(st, opens, i) == bend(st, opens, i - 1));
            }
        }
    }
    assert(inv_order(st2, o2)) by {
        assert forall|i: int, i2: int| 0 <= i < i2 < o2.len() implies #[trigger] o2[i] < #[trigger] o2[i2]
            && bend(st2, o2, i) <= bstart(st2, o2, i2) by {
            if i2 < k {
                assert(opens[i] < opens[i2] && bend(st, opens, i) <= bstart(st, opens, i2));
            }
        }
    }
    assert(inv_blocks(st2, o2)) by {
        reveal(inv_blocks);
        assert forall|i: int, j: int|
            0 <= i < o2.len() && bstart(st2, o2, i) <= j < bend(st2, o2, i) implies #[trigger] kid_at(
            st2,
            o2,
            i,
            j,
        ) by {
            if i < k {
                assert(kid_at(st, opens, i, j));
                assert(st2[j].cmd == st[j].cmd);
            } else {
                assert(blk[j - l] == st2[j]);
            }
        }
    }
    assert(inv_closed(st2, o2)) by {
        reveal(inv_closed);
        assert forall|j: int|
            0 <= j < st2.len() && (#[trigger] st2[j]).val is None && st2[j].arg is Some implies o2.contains(j) by {
            if j == ptr {
                assert(o2[k] == ptr);
            } else if j < l {
                assert(opens.contains(j));
                let i = choose|i: int| 0 <= i < opens.len() && opens[i] == j;
                assert(o2[i] == j);
            } else {
                assert(blk[j - l] == st2[j]);
            }
        }
    }
    assert(inv_done(st2, st2.len() - 1)) by {
        reveal(inv_done);
    }
    assert(inv_done_blocks(st2, o2)) by {
        reveal(inv_done_blocks);
        reveal(inv_done);
        assert forall|i: int, j: int|
            #![trigger o2[i], st2[j]]
            1 <= i < o2.len() && o2[i] < j < bend(st2, o2, i - 1) implies st2[j].val is Some by {
            if i < k {
                if j == ptr {
                    assert(st[ptr].val is Some);
                }
                assert(st[j].val is Some);
            } else {
                assert(st[j].val is Some);
            }
        }
    }
    lemma_total_concat(st1, blk);
    lemma_total_update(st, ptr, e1);
    lemma_total_fresh(blk, ks, b);
}

/// A stone counted by hand: a stack of calls, the current call, and the counts known.
pub struct CallStack {
    pub stack: Vec<Entry>,
    pub ptr: usize,
    pub cache: Cache,
    /// The calls that wait for their children, from the root up.
    pub opens: Ghost<Seq<int>>,
}

impl CallStack {
    pub open spec fn inv(&self) -> bool {
        &&& stack_inv(self.stack@, self.ptr as int, self.opens@)
        &&& self.cache.valid()
    }

    /// The stone being counted.
    pub open spec fn root(&self) -> Stone {
        self.stack@[0].cmd
    }

    /// A stack to count `cmd`, with one call for it and nothing cached.
    pub fn new(cmd: Stone) -> (c: CallStack)
        requires
            stones::fits(cmd.number as nat, cmd.blinks_left as nat),
            count_of(cmd) <= usize::MAX,
        ensures
            c.inv(),
            c.root() == cmd,
            c.stack@.len() == 1,
            c.stack@[0].val is None,
    {
        let c = CallStack {
            stack: vec![Entry { cmd, arg: None, val: None }],
            ptr: 0,
            cache: Cache { cached: HashMap::new() },
            opens: Ghost(Seq::empty()),
        };
        proof {
            let st = c.stack@;
            reveal(inv_entries);
            reveal(inv_opens);
            reveal(inv_chain);
            reveal(inv_order);
            reveal(inv_blocks);
            reveal(inv_closed);
            reveal(inv_done);
            reveal(inv_done_blocks);
            assert(entry_ok(st[0]));
        }
        c
    }

    /// The count of the stone, once known.
    pub fn value(&self) -> (r: Option<usize>)
        requires
            self.inv(),
        ensures
            r == self.stack@[0].val,
            r matches Some(v) ==> v == count_of(self.root()),
    {
        proof {
            reveal(inv_entries);
            assert(entry_ok(self.stack@[0]));
        }
        match self.stack.first() {
            Some(entry) => entry.val,
            None => None,
        }
    }

    /// One step of the evaluation: go down to the previous call once the current one is
    /// counted; count a call whose children are counted; take a count from the cache; or
    /// push the children of the call and go to the last of them.
    pub fn step(&mut self)
        requires
            old(self).inv(),
            old(self).stack@[0].val is None,
        ensures
            final(self).inv(),
            final(self).root() == old(self).root(),
            total(final(self).stack@) < total(old(self).stack@) || (total(final(self).stack@)
                == total(old(self).stack@) && final(self).ptr < old(self).ptr),
    {
        let ghost st = self.stack@;
        let ptr = self.ptr;
        let entry = self.stack[ptr];
        if entry.val.is_some() {
            proof {
                lemma_move(st, ptr as int, self.opens@);
            }
            self.ptr = self.ptr.saturating_sub(1);
        } else if let Some(arg) = entry.arg {
            proof {
                lemma_eval_kids(st, ptr as int, self.opens@);
            }
            let ghost ks = kids(entry);
            let ghost b = (entry.cmd.blinks_left - 1) as nat;
            proof {
                assert(count_of(entry.cmd) == stones::count_all(ks, b));
            }
            let mut nb_children: usize = 0;
            let mut j: usize = arg;
            while j < self.stack.len()
                invariant
                    self.stack@ == st,
                    arg <= j <= st.len(),
                    st.len() == arg + ks.len(),
                    count_of(entry.cmd) <= usize::MAX,
                    count_of(entry.cmd) == stones::count_all(ks, b),
                    b == entry.cmd.blinks_left - 1,
                    ks == kids(entry),
                    forall|i: int|
                        arg <= i < st.len() ==> is_kid(entry, i - arg, (#[trigger] st[i]).cmd)
                            && st[i].val == Some(count_of(st[i].cmd) as usize),
                    nb_children == stones::count_all(ks.take(j - arg), b),
                decreases st.len() - j,
            {
                proof {
                    stones::lemma_count_all_step(ks, j - arg, b);
                    stones::lemma_count_all_prefix(ks, j - arg + 1, b);
                    assert(st[j as int].cmd.number == ks[j - arg]);
                }
                nb_children = nb_children + self.stack[j].val.unwrap();
                j += 1;
            }
            proof {
                assert(ks.take(ks.len() as int) =~= ks);
                lemma_count_pos(entry.cmd.number as nat, entry.cmd.blinks_left as nat);
            }
            let val = if nb_children > 1 {
                nb_children
            } else {
                1
            };
            let mut e = entry;
            e.val = Some(val);
            self.stack.set(ptr, e);
            self.cache.insert(e.cmd, val);
            self.stack.truncate(arg);
            proof {
                lemma_eval(st, ptr as int, self.opens@, val);
                assert(self.stack@ =~= st.take(arg as int).update(ptr as int, e));
                assert(self.stack@[0].cmd == st[0].cmd);
            }
            self.opens = Ghost(self.opens@.drop_last());
        } else if let Some(cached) = self.cache.get(&entry.cmd) {
            let mut e = entry;
            e.val = Some(cached);
            self.stack.set(ptr, e);
            proof {
                lemma_cached(st, ptr as int, self.opens@, cached);
                assert(self.stack@[0].cmd == st[0].cmd);
            }
        } else {
            proof {
                reveal(inv_entries);
                assert(entry_ok(st[ptr as int]));
            }
            let children = entry.cmd.children();
            let len = self.stack.len();
            let mut e = entry;
            e.arg = Some(len);
            self.stack.set(ptr, e);
            let ghost st1 = self.stack@;
            let ghost b = (entry.cmd.blinks_left - 1) as nat;
            let ghost opens0 = self.opens@;
            let ghost cache0 = self.cache;
            let mut t: usize = 0;
            while t < children.len()
                invariant
                    stack_inv(st, ptr as int, opens0),
                    self.opens@ == opens0,
                    self.cache == cache0,
                    cache0.valid(),
                    self.ptr == ptr,
                    st[ptr as int] == entry,
                    entry.val is None,
                    entry.arg is None,
                    entry.cmd.blinks_left >= 1,
                    st.len() == len,
                    st1 == st.update(ptr as int, Entry { arg: Some(len), ..entry }),
                    st1.len() == len,
                    self.stack@.len() == len + t,
                    self.stack@.take(len as int) == st1,
                    t <= children@.len(),
                    children@.len() == kids(entry).len(),
                    b == entry.cmd.blinks_left - 1,
                    forall|u: int|
                        0 <= u < children@.len() ==> (#[trigger] children@[u]).number == kids(
                            entry,
                        )[u] && children@[u].blinks_left == b,
                    fresh_calls(self.stack@.skip(len as int), kids(entry).take(t as int), b),
                decreases children@.len() - t,
            {
                let ghost prev = self.stack@;
                self.stack.push(Entry { cmd: children[t], arg: None, val: None });
                proof {
                    let blk = self.stack@.skip(len as int);
                    assert(self.stack@.take(len as int) =~= st1);
                    assert forall|u: int| 0 <= u < t + 1 implies (#[trigger] blk[u]).cmd.number == kids(
                        entry,
                    ).take(t + 1)[u] && blk[u].cmd.blinks_left == b && blk[u].arg is None
                        && blk[u].val is None by {
                        if u < t {
                            assert(blk[u] == prev.skip(len as int)[u]);
                            assert(prev.skip(len as int)[u].cmd.number == kids(entry).take(t as int)[u]);
                        } else {
                            assert(children@[u].number == kids(entry)[u]);
                        }
                    }
                }
                t += 1;
            }
            proof {
                assert(kids(entry).take(t as int) =~= kids(entry));
                lemma_expand(st, ptr as int, self.opens@, self.stack@);
                assert(self.stack@[0] == self.stack@.take(len as int)[0]);
                assert(self.stack@[0].cmd == st[0].cmd);
            }
            self.ptr = self.stack.len() - 1;
            self.opens = Ghost(self.opens@.push(ptr as int));
        }
    }

    /// Step until the stone is counted.
    pub fn eval(&mut self) -> (n: usize)
        requires
            old(self).inv(),
        ensures
            n == count_of(old(self).root()),
    {
        let ghost root = self.root();
        loop
            invariant
                self.inv(),
                self.root() == root,
                root == old(self).root(),
            decreases total(self.stack@), self.ptr,
        {
            if let Some(val) = self.value() {
                return val;
            } else {
                self.step();
            }
        }
    }
}

proof fn lemma_count_pos(i: nat, b: nat)
    ensures
        stones::count(i, b) >= 1,
    decreases b,
{
    if b > 0 {
        let c = stones::children_spec(i);
        if i != 0 && stones::digits(i) % 2 == 0 {
            stones::lemma_pow10_pos(stones::digits(i) / 2);
        }
        lemma_count_pos(c[0], (b - 1) as nat);
        lemma_count_kid(c, 0, (b - 1) as nat);
    }
}

/// Number of stones after 75 blinks, each stone counted on its own call stack.
pub fn part2(input: &str) -> (n: usize)
    requires
        stones::countable(input@, 75),
    ensures
        n == stones::count_all(stones::nats(stones::stones_of(input@)), 75),
{
    let stone_nbs = stones::parse_stones(input);
    let ghost s = stones::nats(stone_nbs@);
    let mut n: usize = 0;
    let mut k: usize = 0;
    while k < stone_nbs.len()
        invariant
            s == stones::nats(stone_nbs@),
            stones::all_fit(s, 75),
            stones::count_all(s, 75) <= usize::MAX,
            k <= stone_nbs@.len(),
            n == stones::count_all(s.take(k as int), 75),
        decreases stone_nbs@.len() - k,
    {
        proof {
            stones::lemma_count_all_step(s, k as int, 75);
            stones::lemma_count_all_prefix(s, k + 1, 75);
            assert(stones::fits(s[k as int], 75));
        }
        let stone = Stone { number: stone_nbs[k], blinks_left: 75 };
        let mut calls = CallStack::new(stone);
        let c = calls.eval();
        n = n + c;
        k += 1;
    }
    proof {
        assert(s.take(s.len() as int) =~= s);
    }
    n
}

} // verus!
