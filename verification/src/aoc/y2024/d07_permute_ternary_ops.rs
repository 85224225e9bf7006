use crate::lgl::parse;
use vstd::prelude::*;

verus! {

/// `b` raised to the power `e`.
pub open spec fn pow_nat(b: int, e: nat) -> int
    decreases e,
{
    if e == 0 {
        1
    } else {
        b * pow_nat(b, (e - 1) as nat)
    }
}

proof fn lemma_pow_pos(b: int, e: nat)
    requires
        b >= 1,
    ensures
        pow_nat(b, e) >= 1,
    decreases e,
{
    if e > 0 {
        lemma_pow_pos(b, (e - 1) as nat);
        assert(b * pow_nat(b, (e - 1) as nat) >= 1) by (nonlinear_arith)
            requires
                b >= 1,
                pow_nat(b, (e - 1) as nat) >= 1,
        ;
    }
}

/// Number of decimal digits of `r`; 0 is written with one digit.
pub open spec fn nb_digits(r: nat) -> nat
    decreases r,
{
    if r < 10 {
        1
    } else {
        1 + nb_digits(r / 10)
    }
}

/// The digits of `r` written after those of `l`.
pub open spec fn concat_spec(l: int, r: int) -> int {
    l * pow_nat(10, nb_digits(r as nat)) + r
}

/// The operator with the given code: 0 adds, 1 multiplies, 2 concatenates.
pub open spec fn apply(code: int, acc: int, x: int) -> int {
    if code == 0 {
        acc + x
    } else if code == 1 {
        acc * x
    } else {
        concat_spec(acc, x)
    }
}

/// Value after the first `k` operators, read left to right; the operators are the digits of
/// `ops` in base `base`, least significant first.
pub open spec fn eval_upto(vals: Seq<u64>, ops: int, base: int, k: int) -> int
    decreases k,
{
    if k <= 0 {
        vals[0] as int
    } else {
        apply(code_at(ops, base, k), eval_upto(vals, ops, base, k - 1), vals[k] as int)
    }
}

/// Value of the whole equation.
pub open spec fn eval_spec(vals: Seq<u64>, ops: int, base: int) -> int {
    eval_upto(vals, ops, base, vals.len() - 1)
}

/// Operator code of gap `k` (between `vals[k - 1]` and `vals[k]`).
pub open spec fn code_at(ops: int, base: int, k: int) -> int {
    (ops / pow_nat(base, (k - 1) as nat)) % base
}

/// No intermediate value of the evaluation exceeds `u64::MAX`, nor does the power of ten that
/// a concatenation computes.
pub open spec fn eval_fits(vals: Seq<u64>, ops: int, base: int) -> bool {
    forall|k: int|
        0 <= k < vals.len() ==> #[trigger] eval_upto(vals, ops, base, k) <= u64::MAX && (k >= 1
            && code_at(ops, base, k) == 2 ==> pow_nat(10, nb_digits(vals[k] as nat)) <= u64::MAX)
}

/// Number of operator sequences for the values: `base` to the number of gaps.
pub open spec fn nb_ops(vals: Seq<u64>, base: int) -> int {
    if vals.len() == 0 {
        0
    } else {
        pow_nat(base, (vals.len() - 1) as nat)
    }
}

/// Some choice of operators makes the values evaluate to `result`.
pub open spec fn solvable(result: u64, vals: Seq<u64>, base: int) -> bool {
    exists|ops: int| 0 <= ops < nb_ops(vals, base) && eval_spec(vals, ops, base) == result
}

/// Every choice of operators evaluates without overflow.
pub open spec fn all_fit(vals: Seq<u64>, base: int) -> bool {
    forall|ops: int| 0 <= ops < nb_ops(vals, base) ==> #[trigger] eval_fits(vals, ops, base)
}

proof fn lemma_eval_upto_nonneg(vals: Seq<u64>, ops: int, base: int, k: int)
    requires
        base >= 1,
        0 <= ops,
        k < vals.len(),
    ensures
        eval_upto(vals, ops, base, k) >= 0,
    decreases k,
{
    if k > 0 {
        lemma_eval_upto_nonneg(vals, ops, base, k - 1);
        let acc = eval_upto(vals, ops, base, k - 1);
        let x = vals[k] as int;
        lemma_pow_pos(10, nb_digits(x as nat));
        assert(acc * x >= 0) by (nonlinear_arith)
            requires
                acc >= 0,
                x >= 0,
        ;
        assert(acc * pow_nat(10, nb_digits(x as nat)) >= 0) by (nonlinear_arith)
            requires
                acc >= 0,
                pow_nat(10, nb_digits(x as nat)) >= 1,
        ;
    }
}

/// `l` and `r` concatenated as decimal numbers.
pub fn concatenate(l: u64, r: u64) -> (c: u64)
    requires
        concat_spec(l as int, r as int) <= u64::MAX,
        pow_nat(10, nb_digits(r as nat)) <= u64::MAX,
    ensures
        c == concat_spec(l as int, r as int),
{
    let mut p: u64 = 10;
    let mut rest = r / 10;
    let ghost mut d: nat = 1;
    proof {
        lemma_pow_pos(10, nb_digits(r as nat));
        lemma_pow_mono(1, nb_digits(r as nat));
        assert(pow_nat(10, 0) == 1);
        assert(pow_nat(10, 1) == 10);
    }
    while rest > 0
        invariant
            p == pow_nat(10, d),
            rest > 0 ==> nb_digits(r as nat) == d + nb_digits(rest as nat),
            rest == 0 ==> nb_digits(r as nat) == d,
            pow_nat(10, nb_digits(r as nat)) <= u64::MAX,
            l * pow_nat(10, nb_digits(r as nat)) + r <= u64::MAX,
        decreases rest,
    {
        proof {
            lemma_pow_mono(d + 1, nb_digits(r as nat));
        }
        p = p * 10;
        rest = rest / 10;
        proof {
            d = d + 1;
        }
    }
    assert(l * p <= u64::MAX) by (nonlinear_arith)
        requires
            l * p + r <= u64::MAX,
            r >= 0,
    ;
    l * p + r
}

proof fn lemma_pow_mono(a: nat, b: nat)
    requires
        a <= b,
    ensures
        pow_nat(10, a) <= pow_nat(10, b),
    decreases b,
{
    if a < b {
        lemma_pow_mono(a, (b - 1) as nat);
        lemma_pow_pos(10, (b - 1) as nat);
    }
}

/// Evaluate left to right; the operators are the digits of `ops` in base `base`
/// (0 adds, 1 multiplies, 2 concatenates).
fn eval_base(vals: &[u64], ops: u64, base: u64) -> (v: u64)
    requires
        vals@.len() >= 1,
        base == 2 || base == 3,
        eval_fits(vals@, ops as int, base as int),
    ensures
        v == eval_spec(vals@, ops as int, base as int),
{
    let mut result = vals[0];
    let mut rest = ops;
    let ghost mut p: int = 1;
    let mut k: usize = 1;
    while k < vals.len()
        invariant
            1 <= k <= vals@.len(),
            base == 2 || base == 3,
            eval_fits(vals@, ops as int, base as int),
            result == eval_upto(vals@, ops as int, base as int, k - 1),
            p == pow_nat(base as int, (k - 1) as nat),
            p >= 1,
            rest == ops as int / p,
        decreases vals@.len() - k,
    {
        let x = vals[k];
        let code = rest % base;
        assert(eval_upto(vals@, ops as int, base as int, k as int) <= u64::MAX);
        assert(code == code_at(ops as int, base as int, k as int));
        if code == 0 {
            result = result + x;
        } else if code == 1 {
            result = result * x;
        } else {
            result = concatenate(result, x);
        }
        proof {
            assert(ops as int / p / base as int == ops as int / (p * base)) by (nonlinear_arith)
                requires
                    p >= 1,
                    base >= 2,
                    ops >= 0,
            ;
            assert(pow_nat(base as int, k as nat) == base * pow_nat(base as int, (k - 1) as nat));
            assert(p * base >= 1) by (nonlinear_arith)
                requires
                    p >= 1,
                    base >= 2,
            ;
            assert(p * base == base * p) by (nonlinear_arith);
            p = p * base;
        }
        rest = rest / base;
        k += 1;
    }
    result
}

/// Every evaluation the search makes, up to the first solution, stays within `u64`.
pub open spec fn fits_until(result: u64, vals: Seq<u64>, base: int) -> bool {
    forall|ops: int|
        0 <= ops < nb_ops(vals, base) && (forall|o: int|
            0 <= o < ops ==> eval_spec(vals, o, base) != result) ==> #[trigger] eval_fits(
            vals,
            ops,
            base,
        )
}

/// 0 bit is add, 1 is multiply.
pub fn eval(vals: &[u64], ops: u64) -> (v: u64)
    requires
        vals@.len() >= 1,
        eval_fits(vals@, ops as int, 2),
    ensures
        v == eval_spec(vals@, ops as int, 2),
{
    eval_base(vals, ops, 2)
}

/// Ternary digits enumerate the operators: 0 is add, 1 is multiply, 2 is concatenate.
pub fn eval_ternary(vals: &[u64], ops: u64) -> (v: u64)
    requires
        vals@.len() >= 1,
        eval_fits(vals@, ops as int, 3),
    ensures
        v == eval_spec(vals@, ops as int, 3),
{
    eval_base(vals, ops, 3)
}

/// One after the last sequence of +* operators.
pub fn ops_ceil(vals: &[u64]) -> (c: u64)
    requires
        vals@.len() < 64,
    ensures
        c == nb_ops(vals@, 2),
{
    let mut c: u64 = 1;
    let mut k: usize = 1;
    if vals.len() == 0 {
        return 0;
    }
    while k < vals.len()
        invariant
            1 <= k <= vals@.len() < 64,
            c == pow_nat(2, (k - 1) as nat),
        decreases vals@.len() - k,
    {
        proof {
            lemma_pow2_split((k + 1) as nat);
            lemma_pow_pos(2, (63 - k) as nat);
            assert(pow_nat(2, k as nat) == 2 * c);
            assert(2 * c <= 0x8000_0000_0000_0000) by (nonlinear_arith)
                requires
                    (2 * c) * pow_nat(2, (63 - k) as nat) == 0x8000_0000_0000_0000,
                    pow_nat(2, (63 - k) as nat) >= 1,
            ;
        }
        c = c * 2;
        k += 1;
    }
    c
}

proof fn lemma_pow2_split(k: nat)
    requires
        1 <= k <= 64,
    ensures
        pow_nat(2, (k - 1) as nat) * pow_nat(2, (64 - k) as nat) == 0x8000_0000_0000_0000,
{
    lemma_pow_add(2, (k - 1) as nat, (64 - k) as nat);
    lemma_pow_nat_is_pow(2, 63);
    vstd::arithmetic::power2::lemma2_to64_rest();
    vstd::arithmetic::power::lemma_pow_positive(2, 63);
    assert(vstd::arithmetic::power2::pow2(63) == 0x8000_0000_0000_0000);
    assert(((k - 1) as nat + (64 - k) as nat) as nat == 63);
    assert(pow_nat(2, 63) == 0x8000_0000_0000_0000);
}

proof fn lemma_pow_nat_is_pow(b: int, e: nat)
    ensures
        pow_nat(b, e) == vstd::arithmetic::power::pow(b, e),
    decreases e,
{
    reveal(vstd::arithmetic::power::pow);
    if e > 0 {
        lemma_pow_nat_is_pow(b, (e - 1) as nat);
    }
}

proof fn lemma_pow_add(b: int, x: nat, y: nat)
    ensures
        pow_nat(b, x) * pow_nat(b, y) == pow_nat(b, x + y),
    decreases x,
{
    if x > 0 {
        lemma_pow_add(b, (x - 1) as nat, y);
        assert(b * pow_nat(b, (x - 1) as nat) * pow_nat(b, y) == b * (pow_nat(b, (x - 1) as nat)
            * pow_nat(b, y))) by (nonlinear_arith);
    }
}

/// One after the last sequence of +*|| operators.
pub fn ceil_ternary(vals: &[u64]) -> (c: u64)
    requires
        pow_nat(3, vals@.len()) <= u64::MAX,
    ensures
        c == nb_ops(vals@, 3),
{
    if vals.len() == 0 {
        return 0;
    }
    let mut c: u64 = 1;
    let mut k: usize = 1;
    while k < vals.len()
        invariant
            1 <= k <= vals@.len(),
            c == pow_nat(3, (k - 1) as nat),
            pow_nat(3, vals@.len()) <= u64::MAX,
        decreases vals@.len() - k,
    {
        proof {
            lemma_pow_mono3(k as nat, vals@.len());
        }
        c = c * 3;
        k += 1;
    }
    c
}

proof fn lemma_pow_mono3(a: nat, b: nat)
    requires
        a <= b,
    ensures
        pow_nat(3, a) <= pow_nat(3, b),
    decreases b,
{
    if a < b {
        lemma_pow_mono3(a, (b - 1) as nat);
        lemma_pow_pos(3, (b - 1) as nat);
    }
}

fn has_valid_ops_base(result: u64, vals: &[u64], base: u64, ceil: u64) -> (b: bool)
    requires
        base == 2 || base == 3,
        ceil == nb_ops(vals@, base as int),
        fits_until(result, vals@, base as int),
        vals@.len() >= 1 ==> pow_nat(base as int, (vals@.len() - 1) as nat) <= u64::MAX,
    ensures
        b == solvable(result, vals@, base as int),
{
    let mut ops: u64 = 0;
    while ops < ceil
        invariant
            base == 2 || base == 3,
            ceil == nb_ops(vals@, base as int),
            fits_until(result, vals@, base as int),
            vals@.len() >= 1 ==> pow_nat(base as int, (vals@.len() - 1) as nat) <= u64::MAX,
            ops <= ceil,
            forall|o: int| 0 <= o < ops ==> eval_spec(vals@, o, base as int) != result,
        decreases ceil - ops,
    {
        assert(eval_fits(vals@, ops as int, base as int));
        if eval_base(vals, ops, base) == result {
            return true;
        }
        ops += 1;
    }
    false
}

/// Some sequence of +* operators makes the values evaluate to `result`.
pub fn has_valid_ops(result: u64, vals: &[u64]) -> (b: bool)
    requires
        vals@.len() < 64,
        fits_until(result, vals@, 2),
    ensures
        b == solvable(result, vals@, 2),
{
    let ceil = ops_ceil(vals);
    proof {
        if vals@.len() >= 1 {
            lemma_pow2_split(vals@.len());
            lemma_pow_pos(2, (64 - vals@.len()) as nat);
        }
    }
    has_valid_ops_base(result, vals, 2, ceil)
}

/// Some sequence of +*|| operators makes the values evaluate to `result`.
pub fn has_valid_ops_ternary(result: u64, vals: &[u64]) -> (b: bool)
    requires
        pow_nat(3, vals@.len()) <= u64::MAX,
        fits_until(result, vals@, 3),
    ensures
        b == solvable(result, vals@, 3),
{
    let ceil = ceil_ternary(vals);
    proof {
        if vals@.len() >= 1 {
            lemma_pow_mono3((vals@.len() - 1) as nat, vals@.len());
        }
    }
    has_valid_ops_base(result, vals, 3, ceil)
}

// ---------------------------------------------------------------------------
// Input

/// The parts of a line before and after its first ':'.
pub open spec fn halves(line: Seq<char>) -> Seq<Seq<char>> {
    parse::split_on(line, ':')
}

/// A line "result: v1 v2 ...", every number fitting in a `u64`.
pub open spec fn valid_line(line: Seq<char>) -> bool {
    &&& halves(line).len() >= 2
    &&& parse::lit_unsigned(halves(line)[0], u64::MAX as int) is Some
    &&& forall|j: int|
        0 <= j < parse::words_of(halves(line)[1]).len() ==> parse::lit_unsigned(
            #[trigger] parse::words_of(halves(line)[1])[j],
            u64::MAX as int,
        ) is Some
}

pub open spec fn line_result(line: Seq<char>) -> u64 {
    parse::lit_unsigned(halves(line)[0], u64::MAX as int)->0 as u64
}

pub open spec fn line_vals(line: Seq<char>) -> Seq<u64> {
    parse::words_of(halves(line)[1]).map_values(
        |w: Seq<char>| parse::lit_unsigned(w, u64::MAX as int)->0 as u64,
    )
}

/// Read "result: v1 v2 ..." from `s[lo..hi]`.
pub fn parse_line(s: &[char], lo: usize, hi: usize) -> (r: (u64, Vec<u64>))
    requires
        lo <= hi <= s@.len(),
        valid_line(s@.subrange(lo as int, hi as int)),
    ensures
        r.0 == line_result(s@.subrange(lo as int, hi as int)),
        r.1@ == line_vals(s@.subrange(lo as int, hi as int)),
{
    let ghost line = s@.subrange(lo as int, hi as int);
    let parts = parse::split_spans(s, lo, hi, ':');
    let (b0, e0) = parts[0];
    let result = parse::parse_unsigned(s, b0, e0, u64::MAX).unwrap();
    let (b1, e1) = parts[1];
    let words = parse::word_spans(s, b1, e1);
    let ghost ws = parse::words_of(halves(line)[1]);
    let mut vals: Vec<u64> = Vec::new();
    let mut j: usize = 0;
    while j < words.len()
        invariant
            valid_line(line),
            ws == parse::words_of(s@.subrange(b1 as int, e1 as int)),
            s@.subrange(b1 as int, e1 as int) == halves(line)[1],
            words@.len() == ws.len(),
            forall|k: int|
                0 <= k < words@.len() ==> {
                    let (b, e) = #[trigger] words@[k];
                    &&& b <= e <= s@.len()
                    &&& s@.subrange(b as int, e as int) == ws[k]
                },
            j <= words@.len(),
            vals@ == ws.take(j as int).map_values(
                |w: Seq<char>| parse::lit_unsigned(w, u64::MAX as int)->0 as u64,
            ),
        decreases words@.len() - j,
    {
        let (b, e) = words[j];
        let v = parse::parse_unsigned(s, b, e, u64::MAX).unwrap();
        vals.push(v);
        assert(vals@ =~= ws.take(j + 1).map_values(
            |w: Seq<char>| parse::lit_unsigned(w, u64::MAX as int)->0 as u64,
        ));
        j += 1;
    }
    assert(ws.take(ws.len() as int) =~= ws);
    (result, vals)
}

/// Sum of the results of the first `k` lines that some operators make true.
pub open spec fn calibration(lines: Seq<Seq<char>>, base: int, k: int) -> int
    decreases k,
{
    if k <= 0 {
        0
    } else {
        calibration(lines, base, k - 1) + (if solvable(
            line_result(lines[k - 1]),
            line_vals(lines[k - 1]),
            base,
        ) {
            line_result(lines[k - 1]) as int
        } else {
            0
        })
    }
}

/// The input can be processed without any overflow.
pub open spec fn valid_input(input: Seq<char>, base: int) -> bool {
    let lines = parse::lines_of(input);
    &&& forall|k: int| 0 <= k < lines.len() ==> valid_line(#[trigger] lines[k])
    &&& forall|k: int|
        0 <= k < lines.len() ==> (if base == 2 {
            line_vals(#[trigger] lines[k]).len() < 64
        } else {
            pow_nat(3, line_vals(lines[k]).len()) <= u64::MAX
        })
    &&& forall|k: int|
        0 <= k < lines.len() ==> fits_until(
            line_result(#[trigger] lines[k]),
            line_vals(lines[k]),
            base,
        )
    &&& forall|k: int| 0 <= k <= lines.len() ==> #[trigger] calibration(lines, base, k) <= u64::MAX
}

fn total_calibration(input: &str, base: u64) -> (t: u64)
    requires
        base == 2 || base == 3,
        valid_input(input@, base as int),
    ensures
        t == calibration(parse::lines_of(input@), base as int, parse::lines_of(input@).len() as int),
{
    let cs = parse::chars_of(input);
    let lines = parse::line_spans(&cs, 0, cs.len());
    let ghost ls = parse::lines_of(input@);
    assert(cs@.subrange(0, cs@.len() as int) =~= input@);
    let mut total: u64 = 0;
    let mut k: usize = 0;
    while k < lines.len()
        invariant
            base == 2 || base == 3,
            cs@ == input@,
            ls == parse::lines_of(input@),
            valid_input(input@, base as int),
            lines@.len() == ls.len(),
            forall|j: int|
                0 <= j < lines@.len() ==> {
                    let (b, e) = #[trigger] lines@[j];
                    &&& b <= e <= cs@.len()
                    &&& cs@.subrange(b as int, e as int) == ls[j]
                },
            k <= lines@.len(),
            total == calibration(ls, base as int, k as int),
        decreases lines@.len() - k,
    {
        let (b, e) = lines[k];
        let (result, vals) = parse_line(&cs, b, e);
        assert(calibration(ls, base as int, k + 1) <= u64::MAX);
        let ok = if base == 2 {
            has_valid_ops(result, &vals)
        } else {
            has_valid_ops_ternary(result, &vals)
        };
        if ok {
            total = total + result;
        }
        k += 1;
    }
    total
}

/// Sum of the results of the equations that some sequence of +* operators makes true.
pub fn part1(input: &str) -> (t: u64)
    requires
        valid_input(input@, 2),
    ensures
        t == calibration(parse::lines_of(input@), 2, parse::lines_of(input@).len() as int),
{
    total_calibration(input, 2)
}

/// Sum of the results of the equations that some sequence of +*|| operators makes true.
pub fn part2(input: &str) -> (t: u64)
    requires
        valid_input(input@, 3),
    ensures
        t == calibration(parse::lines_of(input@), 3, parse::lines_of(input@).len() as int),
{
    total_calibration(input, 3)
}

} // verus!
