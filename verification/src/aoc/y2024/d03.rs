use crate::lgl::parse::{self, digits_value, is_digit};
use vstd::prelude::*;

verus! {

// ---------------------------------------------------------------------------
// The instructions hidden in the corrupted memory
//
// `mul(X,Y)`, with X and Y of one to three digits, multiplies; `do()` and `don't()` turn
// the multiplications that follow on and off. Nothing else counts.

/// Number of decimal digits in a row from position `j`.
pub open spec fn digit_run(s: Seq<char>, j: int) -> nat
    decreases s.len() - j,
{
    if 0 <= j < s.len() && is_digit(s[j]) {
        1 + digit_run(s, j + 1)
    } else {
        0
    }
}

/// `s[i..]` starts with the text `t`.
pub open spec fn starts_with(s: Seq<char>, i: int, t: Seq<char>) -> bool {
    0 <= i && i + t.len() <= s.len() && s.subrange(i, i + t.len()) == t
}

/// A `mul(X,Y)` starts at position `i`.
pub open spec fn mul_at(s: Seq<char>, i: int) -> bool {
    let n1 = digit_run(s, i + 4);
    let n2 = digit_run(s, i + 5 + n1);
    &&& starts_with(s, i, "mul("@)
    &&& 1 <= n1 <= 3 && i + 4 + n1 < s.len() && s[i + 4 + n1] == ','
    &&& 1 <= n2 <= 3 && i + 5 + n1 + n2 < s.len() && s[i + 5 + n1 + n2] == ')'
}

/// The product of the `mul` at position `i`.
pub open spec fn mul_value(s: Seq<char>, i: int) -> int {
    let n1 = digit_run(s, i + 4);
    let n2 = digit_run(s, i + 5 + n1);
    digits_value(s.subrange(i + 4, i + 4 + n1)) * digits_value(s.subrange(i + 5 + n1, i + 5 + n1 + n2))
}

/// Sum of the products of the `mul`s starting before position `k`.
pub open spec fn mul_sum(s: Seq<char>, k: int) -> int
    decreases k,
{
    if k <= 0 {
        0
    } else {
        mul_sum(s, k - 1) + if mul_at(s, k - 1) { mul_value(s, k - 1) } else { 0 }
    }
}

/// Whether multiplications are on at position `k`: on at the start, then as the last
/// `do()` or `don't()` before `k` says.
pub open spec fn enabled(s: Seq<char>, k: int) -> bool
    decreases k,
{
    if k <= 0 {
        true
    } else if starts_with(s, k - 1, "do()"@) {
        true
    } else if starts_with(s, k - 1, "don't()"@) {
        false
    } else {
        enabled(s, k - 1)
    }
}

/// Sum of the products of the `mul`s starting before position `k` while on.
pub open spec fn enabled_sum(s: Seq<char>, k: int) -> int
    decreases k,
{
    if k <= 0 {
        0
    } else {
        enabled_sum(s, k - 1) + if mul_at(s, k - 1) && enabled(s, k - 1) { mul_value(s, k - 1) } else { 0 }
    }
}

/// The memory is ASCII text, short enough for the sums.
pub open spec fn memory_ok(s: Seq<char>) -> bool {
    &&& forall|i: int| 0 <= i < s.len() ==> (#[trigger] s[i]) as int <= 127
    &&& s.len() <= 0x1_0000_0000
}

proof fn lemma_digit_run(s: Seq<char>, j: int, k: int)
    requires
        0 <= j,
        0 <= k < digit_run(s, j),
    ensures
        j + k < s.len(),
        is_digit(s[j + k]),
    decreases k,
{
    if k > 0 {
        lemma_digit_run(s, j + 1, k - 1);
    }
}

proof fn lemma_digit_run_end(s: Seq<char>, j: int)
    requires
        0 <= j <= s.len(),
    ensures
        j + digit_run(s, j) <= s.len(),
        j + digit_run(s, j) < s.len() ==> !is_digit(s[j + digit_run(s, j)]),
    decreases s.len() - j,
{
    if 0 <= j < s.len() && is_digit(s[j]) {
        lemma_digit_run_end(s, j + 1);
    }
}

proof fn lemma_digits_small(t: Seq<char>)
    requires
        parse::all_digits(t),
    ensures
        0 <= digits_value(t),
        t.len() <= 1 ==> digits_value(t) < 10,
        t.len() <= 2 ==> digits_value(t) < 100,
        t.len() <= 3 ==> digits_value(t) < 1000,
    decreases t.len(),
{
    if t.len() > 0 {
        let u = t.drop_last();
        assert(parse::all_digits(u)) by {
            assert forall|i: int| 0 <= i < u.len() implies is_digit(#[trigger] u[i]) by {
                assert(u[i] == t[i]);
            }
        }
        lemma_digits_small(u);
        assert(is_digit(t[t.len() - 1]));
    }
}

/// Number of digits in a row from `j`, up to four.
fn count_digits(cs: &Vec<char>, j: usize) -> (n: usize)
    ensures
        n == (if digit_run(cs@, j as int) <= 4 { digit_run(cs@, j as int) } else { 4 }),
{
    let mut n: usize = 0;
    while n < 4 && j < cs.len() && n < cs.len() - j && '0' <= cs[j + n] && cs[j + n] <= '9'
        invariant
            n <= 4,
            digit_run(cs@, j as int) == n + digit_run(cs@, j + n),
        decreases 4 - n,
    {
        n += 1;
    }
    n
}

/// The value of the digits `cs[b..e]`, at most three.
fn read_digits(cs: &Vec<char>, b: usize, e: usize) -> (v: i64)
    requires
        b <= e <= cs@.len(),
        e - b <= 3,
        parse::all_digits(cs@.subrange(b as int, e as int)),
    ensures
        v == digits_value(cs@.subrange(b as int, e as int)),
        0 <= v <= 999,
{
    proof {
        lemma_digits_small(cs@.subrange(b as int, e as int));
    }
    let mut v: i64 = 0;
    let mut i = b;
    proof {
        assert(cs@.subrange(b as int, b as int) =~= Seq::<char>::empty());
    }
    while i < e
        invariant
            b <= i <= e <= cs@.len(),
            e - b <= 3,
            parse::all_digits(cs@.subrange(b as int, e as int)),
            v == digits_value(cs@.subrange(b as int, i as int)),
            0 <= v <= 999,
        decreases e - i,
    {
        proof {
            assert(cs@.subrange(b as int, i + 1).drop_last() =~= cs@.subrange(b as int, i as int));
            assert(cs@.subrange(b as int, e as int)[i - b] == cs@[i as int]);
            let t = cs@.subrange(b as int, i + 1);
            assert(parse::all_digits(t)) by {
                assert forall|q: int| 0 <= q < t.len() implies is_digit(#[trigger] t[q]) by {
                    assert(t[q] == cs@.subrange(b as int, e as int)[q]);
                }
            }
            lemma_digits_small(t);
            assert(t.len() <= 3);
        }
        v = 10 * v + (cs[i] as i64 - '0' as i64);
        i += 1;
    }
    v
}

/// Whether `cs[i..]` starts with the text `t`.
pub(crate) fn starts_at(cs: &Vec<char>, i: usize, t: &str) -> (b: bool)
    ensures
        b == starts_with(cs@, i as int, t@),
{
    let tc = parse::chars_of(t);
    if i > cs.len() || tc.len() > cs.len() - i {
        return false;
    }
    let mut k: usize = 0;
    while k < tc.len()
        invariant
            tc@ == t@,
            i + tc@.len() <= cs.len(),
            k <= tc@.len(),
            forall|q: int| 0 <= q < k ==> cs@[i + q] == tc@[q],
        decreases tc@.len() - k,
    {
        if cs[i + k] != tc[k] {
            proof {
                assert(cs@.subrange(i as int, i + t@.len())[k as int] != t@[k as int]);
            }
            return false;
        }
        k += 1;
    }
    proof {
        assert(cs@.subrange(i as int, i + t@.len()) =~= t@);
    }
    true
}

/// The factors of the `mul` at position `i`, if one starts there.
fn mul_factors(cs: &Vec<char>, i: usize) -> (r: Option<(i64, i64)>)
    requires
        i < cs@.len(),
    ensures
        r is Some <==> mul_at(cs@, i as int),
        r matches Some((a, b)) ==> a * b == mul_value(cs@, i as int) && 0 <= a <= 999 && 0 <= b <= 999,
{
    let ghost s = cs@;
    proof {
        reveal_strlit("mul(");
    }
    if cs.len() - i < 8 || !starts_at(cs, i, "mul(") {
        return None;
    }
    let n1 = count_digits(cs, i + 4);
    if n1 < 1 || n1 > 3 || i + 4 + n1 >= cs.len() || cs[i + 4 + n1] != ',' {
        return None;
    }
    let n2 = count_digits(cs, i + 5 + n1);
    if n2 < 1 || n2 > 3 || cs.len() - (i + 5 + n1) <= n2 || cs[i + 5 + n1 + n2] != ')' {
        return None;
    }
    proof {
        assert forall|q: int| 0 <= q < n1 implies is_digit(#[trigger] s.subrange(i + 4, i + 4 + n1)[q]) by {
            lemma_digit_run(s, i + 4, q);
        }
        assert forall|q: int| 0 <= q < n2 implies is_digit(#[trigger] s.subrange(i + 5 + n1, i + 5 + n1 + n2)[q]) by {
            lemma_digit_run(s, i + 5 + n1, q);
        }
    }
    let a = read_digits(cs, i + 4, i + 4 + n1);
    let b = read_digits(cs, i + 5 + n1, i + 5 + n1 + n2);
    Some((a, b))
}

/// Sum of the products of all the `mul`s of the memory.
pub fn part1(input: &str) -> (r: i64)
    requires
        memory_ok(input@),
    ensures
        r == mul_sum(input@, input@.len() as int),
{
    let cs = parse::chars_of(input);
    let mut sum: i64 = 0;
    let mut i: usize = 0;
    while i < cs.len()
        invariant
            cs@ == input@,
            memory_ok(input@),
            i <= cs@.len(),
            sum == mul_sum(input@, i as int),
            0 <= sum <= 998001 * i,
        decreases cs@.len() - i,
    {
        if let Some((a, b)) = mul_factors(&cs, i) {
            proof {
                assert(a * b <= 998001) by (nonlinear_arith)
                    requires
                        0 <= a <= 999,
                        0 <= b <= 999,
                ;
                assert(a * b >= 0) by (nonlinear_arith)
                    requires
                        0 <= a,
                        0 <= b,
                ;
            }
            sum = sum + a * b;
        }
        i += 1;
    }
    sum
}

/// Sum of the products of the `mul`s that come while multiplications are on.
pub fn part2(input: &str) -> (r: i64)
    requires
        memory_ok(input@),
    ensures
        r == enabled_sum(input@, input@.len() as int),
{
    let cs = parse::chars_of(input);
    let mut sum: i64 = 0;
    let mut on = true;
    let mut i: usize = 0;
    while i < cs.len()
        invariant
            cs@ == input@,
            memory_ok(input@),
            i <= cs@.len(),
            on == enabled(input@, i as int),
            sum == enabled_sum(input@, i as int),
            0 <= sum <= 998001 * i,
        decreases cs@.len() - i,
    {
        if let Some((a, b)) = mul_factors(&cs, i) {
            proof {
                assert(a * b <= 998001) by (nonlinear_arith)
                    requires
                        0 <= a <= 999,
                        0 <= b <= 999,
                ;
                assert(a * b >= 0) by (nonlinear_arith)
                    requires
                        0 <= a,
                        0 <= b,
                ;
            }
            if on {
                sum = sum + a * b;
            }
        }
        if starts_at(&cs, i, "do()") {
            on = true;
        } else if starts_at(&cs, i, "don't()") {
            on = false;
        }
        i += 1;
    }
    sum
}

} // verus!
