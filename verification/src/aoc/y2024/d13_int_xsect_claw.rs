use crate::aoc::y2024::d03::{digit_run, starts_at, starts_with};
use crate::lgl::parse;
use vstd::prelude::*;

verus! {

// ---------------------------------------------------------------------------
// Claw machines
//
// Button A moves the claw by (ax, ay) and costs 3 tokens, button B by (bx, by) and costs 1.
// The claw starts at (0, 0) and must end exactly on the prize at (px, py).

/// A claw machine: the moves of its two buttons and the place of its prize.
#[derive(Clone, Copy, Debug)]
pub struct Machine {
    pub ax: i128,
    pub ay: i128,
    pub bx: i128,
    pub by: i128,
    pub px: i128,
    pub py: i128,
}

/// Largest coordinate read from the input.
pub const COORD_MAX: u64 = 0x100_0000_0000;

/// What is added to both coordinates of every prize in the second part.
pub const PRIZE_OFFSET: i128 = 10000000000000;

/// Coordinates small enough that the arithmetic of `cheapest` fits in an `i128`.
pub open spec fn machine_fits(m: Machine) -> bool {
    let lim = 0x2000_0000_0000int;
    &&& 0 <= m.ax <= lim && 0 <= m.ay <= lim
    &&& 0 <= m.bx <= lim && 0 <= m.by <= lim
    &&& 0 <= m.px <= lim && 0 <= m.py <= lim
}

/// The determinant of the two moves.
pub open spec fn det(m: Machine) -> int {
    m.ax * m.by - m.ay * m.bx
}

/// Cramer's numerator for the presses of A.
pub open spec fn num_a(m: Machine) -> int {
    m.px * m.by - m.py * m.bx
}

/// Cramer's numerator for the presses of B.
pub open spec fn num_b(m: Machine) -> int {
    m.ax * m.py - m.ay * m.px
}

/// The sign that makes the determinant positive.
pub open spec fn sgn(m: Machine) -> int {
    if det(m) < 0 {
        -1
    } else {
        1
    }
}

/// The presses of A and B that put the claw on the prize, when the moves are not parallel,
/// the one real solution is whole, and neither count is zero.
pub open spec fn presses(m: Machine) -> Option<(int, int)> {
    let d = sgn(m) * det(m);
    let na = sgn(m) * num_a(m);
    let nb = sgn(m) * num_b(m);
    if d != 0 && na % d == 0 && nb % d == 0 && na / d != 0 && nb / d != 0 {
        Some((na / d, nb / d))
    } else {
        None
    }
}

/// The presses of A found, 0 when there are none.
pub open spec fn presses_a(m: Machine) -> int {
    match presses(m) {
        Some((a, _)) => a,
        None => 0,
    }
}

/// The presses of B found, 0 when there are none.
pub open spec fn presses_b(m: Machine) -> int {
    match presses(m) {
        Some((_, b)) => b,
        None => 0,
    }
}

/// The tokens the presses cost: 3 for A, 1 for B.
pub open spec fn cost_of(m: Machine) -> Option<int> {
    match presses(m) {
        Some((a, b)) => Some(3 * a + b),
        None => None,
    }
}

/// `a` presses of A and `b` of B put the claw on the prize.
pub open spec fn reaches(m: Machine, a: int, b: int) -> bool {
    a * m.ax + b * m.bx == m.px && a * m.ay + b * m.by == m.py
}

/// The presses found put the claw on the prize, and no other counts do: the cost found is
/// the only cost of reaching the prize, so the least.
pub proof fn lemma_presses_unique(m: Machine, a: int, b: int)
    requires
        presses(m) is Some,
    ensures
        reaches(m, presses_a(m), presses_b(m)),
        reaches(m, a, b) ==> a == presses_a(m) && b == presses_b(m),
{
    let s = sgn(m);
    let d = s * det(m);
    let na = s * num_a(m);
    let nb = s * num_b(m);
    let a0 = presses_a(m);
    let b0 = presses_b(m);
    assert(d > 0) by (nonlinear_arith)
        requires
            s == (if det(m) < 0 { -1int } else { 1 }),
            d == s * det(m),
            d != 0,
    ;
    vstd::arithmetic::div_mod::lemma_fundamental_div_mod(na, d);
    vstd::arithmetic::div_mod::lemma_fundamental_div_mod(nb, d);
    assert(na == d * a0 && nb == d * b0);
    assert(d * a0 == s * num_a(m) && d * b0 == s * num_b(m));
    let (ax, ay, bx, by, px, py) = (m.ax as int, m.ay as int, m.bx as int, m.by as int, m.px as int, m.py as int);
    let dd = det(m);
    let n_a = num_a(m);
    let n_b = num_b(m);
    lemma_cramer(ax, ay, bx, by, px, py);
    lemma_scale(d, a0, b0, ax, bx, s, n_a, n_b);
    lemma_scale(d, a0, b0, ay, by, s, n_a, n_b);
    lemma_cancel(d, a0 * ax + b0 * bx, px, s, dd);
    lemma_cancel(d, a0 * ay + b0 * by, py, s, dd);
    if reaches(m, a, b) {
        lemma_solve(ax, ay, bx, by, px, py, a, b);
        assert(d * a == s * n_a && d * b == s * n_b) by (nonlinear_arith)
            requires
                a * dd == n_a,
                b * dd == n_b,
                d == s * dd,
        ;
        lemma_cancel_eq(d, a, a0);
        lemma_cancel_eq(d, b, b0);
    }
}

/// Cramer's rule, forwards: the numerators recombine into the prize times the determinant.
proof fn lemma_cramer(ax: int, ay: int, bx: int, by: int, px: int, py: int)
    ensures
        (px * by - py * bx) * ax + (ax * py - ay * px) * bx == px * (ax * by - ay * bx),
        (px * by - py * bx) * ay + (ax * py - ay * px) * by == py * (ax * by - ay * bx),
{
    broadcast use vstd::arithmetic::mul::group_mul_is_commutative_and_distributive;
    broadcast use vstd::arithmetic::mul::lemma_mul_is_associative;

    assert((px * by - py * bx) * ax == px * by * ax - py * bx * ax);
    assert((ax * py - ay * px) * bx == ax * py * bx - ay * px * bx);
    assert(px * (ax * by - ay * bx) == px * (ax * by) - px * (ay * bx));
    assert(px * by * ax == px * (ax * by));
    assert(py * bx * ax == ax * py * bx);
    assert(ay * px * bx == px * (ay * bx));
    assert((px * by - py * bx) * ay == px * by * ay - py * bx * ay);
    assert((ax * py - ay * px) * by == ax * py * by - ay * px * by);
    assert(py * (ax * by - ay * bx) == py * (ax * by) - py * (ay * bx));
    assert(px * by * ay == ay * px * by);
    assert(py * bx * ay == py * (ay * bx));
    assert(ax * py * by == py * (ax * by));
}

/// Scaling a combination of the press counts by the determinant.
proof fn lemma_scale(d: int, a0: int, b0: int, x: int, y: int, s: int, na: int, nb: int)
    requires
        d * a0 == s * na,
        d * b0 == s * nb,
    ensures
        d * (a0 * x + b0 * y) == s * (na * x + nb * y),
{
    broadcast use vstd::arithmetic::mul::group_mul_is_commutative_and_distributive;
    broadcast use vstd::arithmetic::mul::lemma_mul_is_associative;

    assert(d * (a0 * x + b0 * y) == d * (a0 * x) + d * (b0 * y));
    assert(d * (a0 * x) == (d * a0) * x);
    assert(d * (b0 * y) == (d * b0) * y);
    assert((s * na) * x == s * (na * x));
    assert((s * nb) * y == s * (nb * y));
    assert(s * (na * x + nb * y) == s * (na * x) + s * (nb * y));
}

/// Cramer's rule, backwards: a solution times the determinant is the numerator.
proof fn lemma_solve(ax: int, ay: int, bx: int, by: int, px: int, py: int, a: int, b: int)
    by (nonlinear_arith)
    requires
        a * ax + b * bx == px,
        a * ay + b * by == py,
    ensures
        a * (ax * by - ay * bx) == px * by - py * bx,
        b * (ax * by - ay * bx) == ax * py - ay * px,
{
}

proof fn lemma_cancel(d: int, x: int, p: int, s: int, dd: int)
    by (nonlinear_arith)
    requires
        d > 0,
        d == s * dd,
        d * x == s * (p * dd),
    ensures
        x == p,
{
}

proof fn lemma_cancel_eq(d: int, x: int, y: int)
    by (nonlinear_arith)
    requires
        d > 0,
        d * x == d * y,
    ensures
        x == y,
{
}

/// A quotient by a positive number is no larger than the dividend in size.
proof fn lemma_quot_bound(x: int, d: int, q: int, r: int)
    by (nonlinear_arith)
    requires
        d >= 1,
        x == d * q + r,
        r == 0,
    ensures
        -x <= q <= x || x <= q <= -x,
{
}

/// `x / d` when `d` divides `x`, for a positive `d`.
fn exact_div(x: i128, d: i128) -> (r: Option<i128>)
    requires
        d > 0,
        -0x1000_0000_0000_0000_0000_0000_0000_0000 < x < 0x1000_0000_0000_0000_0000_0000_0000_0000,
    ensures
        r is Some <==> x % d == 0,
        r matches Some(q) ==> q == x / d,
{
    let neg = x < 0;
    let mag: u128 = if neg {
        (-x) as u128
    } else {
        x as u128
    };
    let du = d as u128;
    let rem = mag % du;
    let q = mag / du;
    proof {
        vstd::arithmetic::div_mod::lemma_fundamental_div_mod(mag as int, du as int);
        vstd::arithmetic::div_mod::lemma_fundamental_div_mod(x as int, d as int);
    }
    if rem == 0 {
        proof {
            assert(q <= mag) by (nonlinear_arith)
                requires
                    mag == du * q + rem,
                    rem == 0,
                    du >= 1,
                    q >= 0,
            ;
            let qi: int = if neg { -(q as int) } else { q as int };
            assert(x == qi * d + 0) by (nonlinear_arith)
                requires
                    mag == du * q,
                    du == d,
                    neg ==> mag == -x,
                    !neg ==> mag == x,
                    qi == (if neg { -(q as int) } else { q as int }),
            ;
            vstd::arithmetic::div_mod::lemma_fundamental_div_mod_converse(x as int, d as int, qi, 0);
        }
        if neg {
            Some(-(q as i128))
        } else {
            Some(q as i128)
        }
    } else {
        proof {
            if x % d == 0 {
                let k = x as int / d as int;
                let ki: int = if neg { -k } else { k };
                assert(mag == ki * du + 0) by (nonlinear_arith)
                    requires
                        x == d * k + 0,
                        du == d,
                        neg ==> mag == -x,
                        !neg ==> mag == x,
                        ki == (if neg { -k } else { k }),
                ;
                vstd::arithmetic::div_mod::lemma_fundamental_div_mod_converse(mag as int, du as int, ki, 0);
            }
        }
        None
    }
}

/// The fewest tokens that win the prize of the machine, if any: with moves that are not
/// parallel there is one way to reach the prize, which counts when both press counts are
/// whole and not zero.
pub fn cheapest(m: Machine) -> (r: Option<i128>)
    requires
        machine_fits(m),
    ensures
        r matches Some(c) ==> cost_of(m) == Some(c as int),
        r is None ==> cost_of(m) is None,
{
    let lim: i128 = 0x2000_0000_0000;
    proof {
        assert(m.ax * m.by <= lim * lim && m.ay * m.bx <= lim * lim && m.px * m.by <= lim * lim
            && m.py * m.bx <= lim * lim && m.ax * m.py <= lim * lim && m.ay * m.px <= lim * lim)
            by (nonlinear_arith)
            requires
                machine_fits(m),
                lim == 0x2000_0000_0000,
        ;
        assert(m.ax * m.by >= 0 && m.ay * m.bx >= 0 && m.px * m.by >= 0 && m.py * m.bx >= 0 && m.ax
            * m.py >= 0 && m.ay * m.px >= 0) by (nonlinear_arith)
            requires
                machine_fits(m),
        ;
    }
    let d0 = m.ax * m.by - m.ay * m.bx;
    let na0 = m.px * m.by - m.py * m.bx;
    let nb0 = m.ax * m.py - m.ay * m.px;
    let (d, na, nb) = if d0 < 0 {
        (-d0, -na0, -nb0)
    } else {
        (d0, na0, nb0)
    };
    if d == 0 {
        return None;
    }
    let a = exact_div(na, d);
    let b = exact_div(nb, d);
    match (a, b) {
        (Some(a), Some(b)) => {
            if a == 0 || b == 0 {
                None
            } else {
                proof {
                    vstd::arithmetic::div_mod::lemma_fundamental_div_mod(na as int, d as int);
                    vstd::arithmetic::div_mod::lemma_fundamental_div_mod(nb as int, d as int);
                    lemma_quot_bound(na as int, d as int, a as int, 0);
                    lemma_quot_bound(nb as int, d as int, b as int, 0);
                }
                Some(3 * a + b)
            }
        },
        _ => None,
    }
}

// ---------------------------------------------------------------------------
// Input
//
// Blocks of three lines, separated by blank lines:
//   Button A: X+94, Y+34
//   Button B: X+22, Y+67
//   Prize: X=8400, Y=5400

/// The two numbers of a line `p1` X `p2` Y, with X and Y decimal numbers of at most
/// `COORD_MAX`; `None` when the line has another form.
pub open spec fn field_line(l: Seq<char>, p1: Seq<char>, p2: Seq<char>) -> Option<(int, int)> {
    let k1 = p1.len() as int;
    let n1 = digit_run(l, k1) as int;
    let j = k1 + n1 + p2.len() as int;
    let x = parse::lit_unsigned(l.subrange(k1, k1 + n1), COORD_MAX as int);
    let y = parse::lit_unsigned(l.subrange(j, l.len() as int), COORD_MAX as int);
    if starts_with(l, 0, p1) && n1 >= 1 && starts_with(l, k1 + n1, p2) && j < l.len()
        && parse::all_digits(l.subrange(j, l.len() as int)) && x is Some && y is Some {
        Some((x->0, y->0))
    } else {
        None
    }
}

pub open spec fn line_a(l: Seq<char>) -> Option<(int, int)> {
    field_line(l, "Button A: X+"@, ", Y+"@)
}

pub open spec fn line_b(l: Seq<char>) -> Option<(int, int)> {
    field_line(l, "Button B: X+"@, ", Y+"@)
}

pub open spec fn line_prize(l: Seq<char>) -> Option<(int, int)> {
    field_line(l, "Prize: X="@, ", Y="@)
}

/// The input is blocks of a line for A, a line for B and a line for the prize, each block
/// followed by a blank line but for the last, where it may be left out.
pub open spec fn valid_input(input: Seq<char>) -> bool {
    let ls = parse::lines_of(input);
    &&& ls.len() % 4 == 3 || ls.len() % 4 == 0
    &&& forall|j: int|
        0 <= j < ls.len() ==> (j % 4 == 0 ==> line_a(#[trigger] ls[j]) is Some) && (j % 4 == 1
            ==> line_b(ls[j]) is Some) && (j % 4 == 2 ==> line_prize(ls[j]) is Some) && (j % 4 == 3
            ==> ls[j].len() == 0)
}

/// The machine of the block that starts at line `4 * i`.
pub open spec fn machine_at(ls: Seq<Seq<char>>, i: int) -> Machine {
    let a = line_a(ls[4 * i])->0;
    let b = line_b(ls[4 * i + 1])->0;
    let p = line_prize(ls[4 * i + 2])->0;
    Machine { ax: a.0 as i128, ay: a.1 as i128, bx: b.0 as i128, by: b.1 as i128, px: p.0 as i128, py: p.1 as i128 }
}

/// The machines of a valid input, in order.
pub open spec fn machines_of(input: Seq<char>) -> Seq<Machine> {
    let ls = parse::lines_of(input);
    Seq::new(((ls.len() + 1) / 4) as nat, |i: int| machine_at(ls, i))
}

/// The characters of `s[b..e]`.
fn copy_span(s: &[char], b: usize, e: usize) -> (v: Vec<char>)
    requires
        b <= e <= s@.len(),
    ensures
        v@ == s@.subrange(b as int, e as int),
{
    let mut v: Vec<char> = Vec::new();
    let mut i = b;
    while i < e
        invariant
            b <= i <= e <= s@.len(),
            v@ == s@.subrange(b as int, i as int),
        decreases e - i,
    {
        v.push(s[i]);
        i += 1;
        assert(v@ =~= s@.subrange(b as int, i as int));
    }
    v
}

/// Number of digits in a row in `l` from `j`.
fn run_of_digits(l: &Vec<char>, j: usize) -> (n: usize)
    requires
        j <= l@.len(),
    ensures
        n == digit_run(l@, j as int),
        j + n <= l@.len(),
{
    let mut n: usize = 0;
    while n < l.len() - j && '0' <= l[j + n] && l[j + n] <= '9'
        invariant
            j + n <= l@.len(),
            digit_run(l@, j as int) == n + digit_run(l@, j + n),
        decreases l@.len() - j - n,
    {
        n += 1;
    }
    n
}

/// Whether `l[j..]` is all decimal digits.
fn digits_from(l: &Vec<char>, j: usize) -> (b: bool)
    requires
        j <= l@.len(),
    ensures
        b == parse::all_digits(l@.subrange(j as int, l@.len() as int)),
{
    let mut t = j;
    while t < l.len()
        invariant
            j <= t <= l@.len(),
            forall|q: int| j <= q < t ==> parse::is_digit(#[trigger] l@[q]),
        decreases l@.len() - t,
    {
        if !('0' <= l[t] && l[t] <= '9') {
            proof {
                assert(!parse::is_digit(l@.subrange(j as int, l@.len() as int)[t - j]));
            }
            return false;
        }
        t += 1;
    }
    proof {
        let tail = l@.subrange(j as int, l@.len() as int);
        assert forall|q: int| 0 <= q < tail.len() implies parse::is_digit(#[trigger] tail[q]) by {
            assert(tail[q] == l@[j + q]);
        }
    }
    true
}

/// The two numbers of a line of the form `p1` X `p2` Y.
fn read_field_line(l: &Vec<char>, p1: &str, p2: &str) -> (r: Option<(u64, u64)>)
    ensures
        match field_line(l@, p1@, p2@) {
            Some((x, y)) => r == Some((x as u64, y as u64)),
            None => r is None,
        },
{
    let p1c = parse::chars_of(p1);
    let p2c = parse::chars_of(p2);
    if p1c.len() > l.len() || !starts_at(l, 0, p1) {
        return None;
    }
    let k1 = p1c.len();
    let n1 = run_of_digits(l, k1);
    if n1 < 1 || !starts_at(l, k1 + n1, p2) {
        return None;
    }
    let j = k1 + n1 + p2c.len();
    if j >= l.len() {
        return None;
    }
    if !digits_from(l, j) {
        return None;
    }
    let x = parse::parse_unsigned(l.as_slice(), k1, k1 + n1, COORD_MAX);
    let y = parse::parse_unsigned(l.as_slice(), j, l.len(), COORD_MAX);
    match (x, y) {
        (Some(x), Some(y)) => Some((x, y)),
        _ => None,
    }
}

/// The machines of the input.
pub fn parse_input(input: &str) -> (v: Vec<Machine>)
    requires
        valid_input(input@),
    ensures
        v@ == machines_of(input@),
        forall|i: int| 0 <= i < v@.len() ==> coords_read(#[trigger] v@[i]),
{
    let s = parse::chars_of(input);
    let lines = parse::line_spans(s.as_slice(), 0, s.len());
    let ghost ls = parse::lines_of(input@);
    proof {
        assert(s@.subrange(0, s@.len() as int) =~= input@);
    }
    let n = lines.len() / 4 + (lines.len() % 4 + 1) / 4;
    let mut v: Vec<Machine> = Vec::new();
    let mut i: usize = 0;
    while i < n
        invariant
            valid_input(input@),
            ls == parse::lines_of(input@),
            s@ == input@,
            lines@.len() == ls.len(),
            n == (ls.len() + 1) / 4,
            forall|j: int|
                0 <= j < lines@.len() ==> {
                    let (b, e) = #[trigger] lines@[j];
                    &&& b <= e <= s@.len()
                    &&& s@.subrange(b as int, e as int) == ls[j]
                },
            i <= n,
            v@ == Seq::new(i as nat, |k: int| machine_at(ls, k)),
            forall|k: int| 0 <= k < v@.len() ==> coords_read(#[trigger] v@[k]),
        decreases n - i,
    {
        assert(4 * i + 2 < ls.len());
        assert(lines@.len() == lines.len());
        let (b0, e0) = lines[4 * i];
        let (b1, e1) = lines[4 * i + 1];
        let (b2, e2) = lines[4 * i + 2];
        let l0 = copy_span(s.as_slice(), b0, e0);
        let l1 = copy_span(s.as_slice(), b1, e1);
        let l2 = copy_span(s.as_slice(), b2, e2);
        proof {
            reveal_strlit("Button A: X+");
            reveal_strlit("Button B: X+");
            reveal_strlit("Prize: X=");
            reveal_strlit(", Y+");
            reveal_strlit(", Y=");
            assert((4 * i) % 4 == 0 && (4 * i + 1) % 4 == 1 && (4 * i + 2) % 4 == 2);
            assert(line_a(ls[4 * i]) is Some);
            assert(line_b(ls[4 * i + 1]) is Some);
            assert(line_prize(ls[4 * i + 2]) is Some);
        }
        let (ax, ay) = read_field_line(&l0, "Button A: X+", ", Y+").unwrap();
        let (bx, by) = read_field_line(&l1, "Button B: X+", ", Y+").unwrap();
        let (px, py) = read_field_line(&l2, "Prize: X=", ", Y=").unwrap();
        let m = Machine {
            ax: ax as i128,
            ay: ay as i128,
            bx: bx as i128,
            by: by as i128,
            px: px as i128,
            py: py as i128,
        };
        proof {
            assert(m == machine_at(ls, i as int));
        }
        v.push(m);
        proof {
            assert(v@ =~= Seq::new((i + 1) as nat, |k: int| machine_at(ls, k)));
        }
        i += 1;
    }
    v
}

/// Coordinates as read from the input: between 0 and `COORD_MAX`.
pub open spec fn coords_read(m: Machine) -> bool {
    &&& 0 <= m.ax <= COORD_MAX && 0 <= m.ay <= COORD_MAX
    &&& 0 <= m.bx <= COORD_MAX && 0 <= m.by <= COORD_MAX
    &&& 0 <= m.px <= COORD_MAX && 0 <= m.py <= COORD_MAX
}

// ---------------------------------------------------------------------------
// Totals

/// The machine with its prize moved by `off` in both directions.
pub open spec fn moved(m: Machine, off: int) -> Machine {
    Machine { px: (m.px + off) as i128, py: (m.py + off) as i128, ..m }
}

/// Tokens won on the first `k` machines, prizes moved by `off`, counting the machines
/// whose prize can be won.
pub open spec fn total(ms: Seq<Machine>, off: int, k: int) -> int
    decreases k,
{
    if k <= 0 {
        0
    } else {
        total(ms, off, k - 1) + match cost_of(moved(ms[k - 1], off)) {
            Some(c) => c,
            None => 0,
        }
    }
}

/// Every partial total fits in an `i128`.
pub open spec fn totals_fit(ms: Seq<Machine>, off: int) -> bool {
    forall|k: int| 0 <= k <= ms.len() ==> i128::MIN <= #[trigger] total(ms, off, k) <= i128::MAX
}

fn sum_cheapest(ms: &Vec<Machine>, off: i128) -> (t: i128)
    requires
        off == 0 || off == PRIZE_OFFSET,
        forall|i: int| 0 <= i < ms@.len() ==> coords_read(#[trigger] ms@[i]),
        totals_fit(ms@, off as int),
    ensures
        t == total(ms@, off as int, ms@.len() as int),
{
    let mut t: i128 = 0;
    let mut i: usize = 0;
    while i < ms.len()
        invariant
            off == 0 || off == PRIZE_OFFSET,
            forall|i: int| 0 <= i < ms@.len() ==> coords_read(#[trigger] ms@[i]),
            totals_fit(ms@, off as int),
            i <= ms@.len(),
            t == total(ms@, off as int, i as int),
        decreases ms@.len() - i,
    {
        let m0 = ms[i];
        let m = Machine { px: m0.px + off, py: m0.py + off, ..m0 };
        assert(m == moved(ms@[i as int], off as int));
        assert(coords_read(ms@[i as int]));
        if let Some(c) = cheapest(m) {
            assert(i128::MIN <= total(ms@, off as int, i + 1) <= i128::MAX);
            t = t + c;
        }
        i += 1;
    }
    t
}

/// Tokens to win every prize that can be won.
pub fn part1(input: &str) -> (t: i128)
    requires
        valid_input(input@),
        totals_fit(machines_of(input@), 0),
    ensures
        t == total(machines_of(input@), 0, machines_of(input@).len() as int),
{
    let ms = parse_input(input);
    sum_cheapest(&ms, 0)
}

/// Tokens to win every prize that can be won, each prize 10^13 further in both directions.
pub fn part2(input: &str) -> (t: i128)
    requires
        valid_input(input@),
        totals_fit(machines_of(input@), PRIZE_OFFSET as int),
    ensures
        t == total(
            machines_of(input@),
            PRIZE_OFFSET as int,
            machines_of(input@).len() as int,
        ),
{
    let ms = parse_input(input);
    sum_cheapest(&ms, PRIZE_OFFSET)
}

} // verus!
