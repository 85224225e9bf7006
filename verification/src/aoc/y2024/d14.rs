use crate::lgl::data::index::Ix2s;
use crate::lgl::parse;
use std::collections::HashMap;
use vstd::prelude::*;

verus! {

broadcast use vstd::std_specs::hash::group_hash_axioms;

/// `a` modulo `m`, the remainder that is never negative (`rem_euclid`).
pub fn rem_euclid(a: isize, m: isize) -> (r: isize)
    requires
        m > 0,
    ensures
        r == a as int % m as int,
        0 <= r < m,
{
    if a >= 0 {
        let r = ((a as usize) % (m as usize)) as isize;
        r
    } else {
        let q = (-(a + 1)) as usize;
        let s = q % (m as usize);
        proof {
            let qi = q as int;
            let mi = m as int;
            let t = qi / mi;
            assert(qi == mi * t + s && 0 <= s < mi) by (nonlinear_arith)
                requires
                    qi >= 0,
                    mi > 0,
                    t == qi / mi,
                    s == qi % mi,
            ;
            assert(a == mi * (-t - 1) + (mi - 1 - s)) by (nonlinear_arith)
                requires
                    qi == mi * t + s,
                    qi == -(a as int) - 1,
            ;
            vstd::arithmetic::div_mod::lemma_fundamental_div_mod_converse(
                a as int,
                mi,
                -t - 1,
                mi - 1 - s,
            );
        }
        m - 1 - s as isize
    }
}

/// Both coordinates modulo those of `modulo`, never negative.
pub fn vmod(p: Ix2s, modulo: Ix2s) -> (r: Ix2s)
    requires
        modulo.0 > 0,
        modulo.1 > 0,
    ensures
        r.0 == p.0 as int % modulo.0 as int,
        r.1 == p.1 as int % modulo.1 as int,
{
    Ix2s(rem_euclid(p.0, modulo.0), rem_euclid(p.1, modulo.1))
}

#[derive(Clone, Copy, Debug)]
pub struct Robot {
    pub pos: Ix2s,
    pub vel: Ix2s,
}

/// The robot can move for `dt` seconds within `isize`.
pub open spec fn tick_fits(r: Robot, dt: isize) -> bool {
    &&& isize::MIN <= r.vel.0 * dt <= isize::MAX
    &&& isize::MIN <= r.vel.1 * dt <= isize::MAX
    &&& isize::MIN <= r.pos.0 + r.vel.0 * dt <= isize::MAX
    &&& isize::MIN <= r.pos.1 + r.vel.1 * dt <= isize::MAX
}

/// Where a robot is after `dt` seconds, the area wrapping around.
pub open spec fn pos_after(r: Robot, dt: int, area: Ix2s) -> Ix2s {
    Ix2s(
        ((r.pos.0 + r.vel.0 * dt) % (area.0 as int)) as isize,
        ((r.pos.1 + r.vel.1 * dt) % (area.1 as int)) as isize,
    )
}

impl Robot {
    /// The robot after `dt` seconds.
    pub fn tick(&self, dt: isize, area: Ix2s) -> (r: Robot)
        requires
            area.0 > 0,
            area.1 > 0,
            tick_fits(*self, dt),
        ensures
            r.pos == pos_after(*self, dt as int, area),
            r.vel == self.vel,
    {
        Robot { pos: vmod(self.pos.add(self.vel.mul(dt)), area), vel: self.vel }
    }
}

// ---------------------------------------------------------------------------
// Input

/// Two numbers "X,Y" without signs.
pub open spec fn unsigned_pair(s: Seq<char>) -> bool {
    let f = parse::split_on(s, ',');
    f.len() == 2 && f[0].len() > 0 && f[1].len() > 0 && parse::all_digits(f[0]) && parse::all_digits(
        f[1],
    )
}

/// Two numbers "X,Y", each with an optional '-' in front.
pub open spec fn signed_pair(s: Seq<char>) -> bool {
    let f = parse::split_on(s, ',');
    f.len() == 2 && f[0].len() > 0 && f[1].len() > 0 && f[0][0] != '+' && f[1][0] != '+'
}

/// A line "p=X,Y v=DX,DY".
pub open spec fn valid_line(l: Seq<char>) -> bool {
    let w = parse::split_on(l, ' ');
    &&& w.len() == 2
    &&& w[0].len() >= 2 && w[0][0] == 'p' && w[0][1] == '='
    &&& w[1].len() >= 2 && w[1][0] == 'v' && w[1][1] == '='
    &&& unsigned_pair(w[0].skip(2))
    &&& signed_pair(w[1].skip(2))
    &&& parse::isize_pair(w[0].skip(2)) is Some
    &&& parse::isize_pair(w[1].skip(2)) is Some
}

/// The robot of a valid line.
pub open spec fn line_robot(l: Seq<char>) -> Robot {
    let w = parse::split_on(l, ' ');
    let p = parse::isize_pair(w[0].skip(2))->0;
    let v = parse::isize_pair(w[1].skip(2))->0;
    Robot { pos: Ix2s(p.0, p.1), vel: Ix2s(v.0, v.1) }
}

pub open spec fn valid_input(input: Seq<char>) -> bool {
    forall|k: int| 0 <= k < parse::lines_of(input).len() ==> valid_line(#[trigger] parse::lines_of(input)[k])
}

pub open spec fn robots_of(input: Seq<char>) -> Seq<Robot> {
    parse::lines_of(input).map_values(|l: Seq<char>| line_robot(l))
}

/// The robot of the line `s[lo..hi]`.
fn parse_line(s: &[char], lo: usize, hi: usize) -> (r: Robot)
    requires
        lo <= hi <= s@.len(),
        valid_line(s@.subrange(lo as int, hi as int)),
    ensures
        r == line_robot(s@.subrange(lo as int, hi as int)),
{
    let ghost l = s@.subrange(lo as int, hi as int);
    let ghost w = parse::split_on(l, ' ');
    let words = parse::split_spans(s, lo, hi, ' ');
    let (b0, e0) = words[0];
    let (b1, e1) = words[1];
    proof {
        assert(s@.subrange(b0 + 2, e0 as int) =~= w[0].skip(2));
        assert(s@.subrange(b1 + 2, e1 as int) =~= w[1].skip(2));
    }
    let p = parse::parse_isize_pair(s, b0 + 2, e0).unwrap();
    let v = parse::parse_isize_pair(s, b1 + 2, e1).unwrap();
    Robot { pos: Ix2s(p.0, p.1), vel: Ix2s(v.0, v.1) }
}

/// The robots of the input, one per line "p=X,Y v=DX,DY".
pub fn parse_input(input: &str) -> (v: Vec<Robot>)
    requires
        valid_input(input@),
    ensures
        v@ == robots_of(input@),
{
    let s = parse::chars_of(input);
    let lines = parse::line_spans(s.as_slice(), 0, s.len());
    let ghost ls = parse::lines_of(input@);
    proof {
        assert(s@.subrange(0, s@.len() as int) =~= input@);
    }
    let mut v: Vec<Robot> = Vec::new();
    let mut k: usize = 0;
    while k < lines.len()
        invariant
            valid_input(input@),
            ls == parse::lines_of(input@),
            s@ == input@,
            lines@.len() == ls.len(),
            forall|j: int|
                0 <= j < lines@.len() ==> {
                    let (b, e) = #[trigger] lines@[j];
                    &&& b <= e <= s@.len()
                    &&& s@.subrange(b as int, e as int) == ls[j]
                },
            k <= lines@.len(),
            v@ == ls.take(k as int).map_values(|l: Seq<char>| line_robot(l)),
        decreases lines@.len() - k,
    {
        let (b, e) = lines[k];
        assert(valid_line(ls[k as int]));
        let r = parse_line(s.as_slice(), b, e);
        v.push(r);
        assert(v@ =~= ls.take(k + 1).map_values(|l: Seq<char>| line_robot(l)));
        k += 1;
    }
    assert(ls.take(ls.len() as int) =~= ls);
    v
}

// ---------------------------------------------------------------------------
// Counting robots

/// The map key of a position inside the area.
pub open spec fn pos_key(p: Ix2s) -> u64 {
    (p.0 * 0x1_0000_0000 + p.1) as u64
}

/// The position lies in `[0, 2^31)` on both axes.
pub open spec fn small_pos(p: Ix2s) -> bool {
    0 <= p.0 < 0x8000_0000 && 0 <= p.1 < 0x8000_0000
}

/// Number of the first `k` robots standing at `p`.
pub open spec fn count_at(robots: Seq<Robot>, k: int, p: Ix2s) -> nat
    decreases k,
{
    if k <= 0 {
        0
    } else {
        count_at(robots, k - 1, p) + (if robots[k - 1].pos == p {
            1nat
        } else {
            0
        })
    }
}

proof fn lemma_pos_key_injective(a: Ix2s, b: Ix2s)
    requires
        small_pos(a),
        small_pos(b),
        pos_key(a) == pos_key(b),
    ensures
        a == b,
{
    assert(0 <= a.0 * 0x1_0000_0000 + a.1 < 0x8000_0000_0000_0000) by (nonlinear_arith)
        requires
            small_pos(a),
    ;
    assert(0 <= b.0 * 0x1_0000_0000 + b.1 < 0x8000_0000_0000_0000) by (nonlinear_arith)
        requires
            small_pos(b),
    ;
    assert(a.0 == b.0 && a.1 == b.1) by (nonlinear_arith)
        requires
            a.0 * 0x1_0000_0000 + a.1 == b.0 * 0x1_0000_0000 + b.1,
            0 <= a.1 < 0x1_0000_0000,
            0 <= b.1 < 0x1_0000_0000,
    ;
}

/// The map key of a position of the area.
pub fn pos_key_of(p: Ix2s) -> (k: u64)
    requires
        small_pos(p),
    ensures
        k == pos_key(p),
{
    proof {
        assert(0 <= p.0 * 0x1_0000_0000 + p.1 < 0x8000_0000_0000_0000) by (nonlinear_arith)
            requires
                small_pos(p),
        ;
    }
    (p.0 as u64) * 0x1_0000_0000 + (p.1 as u64)
}

/// How many robots stand on each position, keyed by `pos_key`.
pub fn make_map(robots: &[Robot]) -> (map: HashMap<u64, usize>)
    requires
        forall|i: int| 0 <= i < robots@.len() ==> small_pos(#[trigger] robots@[i].pos),
    ensures
        forall|p: Ix2s|
            small_pos(p) ==> (#[trigger] map@.contains_key(pos_key(p)) <==> count_at(
                robots@,
                robots@.len() as int,
                p,
            ) > 0) && (map@.contains_key(pos_key(p)) ==> map@[pos_key(p)] == count_at(
                robots@,
                robots@.len() as int,
                p,
            )),
        forall|k: u64| #[trigger] map@.contains_key(k) ==> exists|i: int|
            0 <= i < robots@.len() && pos_key(#[trigger] robots@[i].pos) == k,
{
    let mut map: HashMap<u64, usize> = HashMap::new();
    let mut i: usize = 0;
    while i < robots.len()
        invariant
            forall|j: int| 0 <= j < robots@.len() ==> small_pos(#[trigger] robots@[j].pos),
            i <= robots@.len(),
            forall|p: Ix2s|
                small_pos(p) ==> (#[trigger] map@.contains_key(pos_key(p)) <==> count_at(robots@, i as int, p)
                    > 0) && (map@.contains_key(pos_key(p)) ==> map@[pos_key(p)] == count_at(
                    robots@,
                    i as int,
                    p,
                )),
            forall|p: Ix2s| small_pos(p) ==> #[trigger] count_at(robots@, i as int, p) <= i,
            forall|k: u64| #[trigger] map@.contains_key(k) ==> exists|j: int|
                0 <= j < i && pos_key(#[trigger] robots@[j].pos) == k,
        decreases robots@.len() - i,
    {
        let pos = robots[i].pos;
        assert(small_pos(pos));
        let key = pos_key_of(pos);
        let n: usize = match map.get(&key) {
            Some(c) => *c,
            None => 0,
        };
        proof {
            assert(count_at(robots@, i as int, pos) <= i);
        }
        map.insert(key, n + 1);
        proof {
            assert forall|p: Ix2s| small_pos(p) implies #[trigger] count_at(robots@, i + 1, p) <= i + 1 by {
                assert(count_at(robots@, i as int, p) <= i);
            }
            assert forall|p: Ix2s| small_pos(p) implies (#[trigger] map@.contains_key(pos_key(p))
                <==> count_at(robots@, i + 1, p) > 0) && (map@.contains_key(pos_key(p)) ==> map@[pos_key(p)]
                == count_at(robots@, i + 1, p)) by {
                if pos_key(p) == key {
                    lemma_pos_key_injective(p, pos);
                } else {
                    assert(p != pos);
                }
            }
            assert forall|k: u64| #[trigger] map@.contains_key(k) implies exists|j: int|
                0 <= j < i + 1 && pos_key(#[trigger] robots@[j].pos) == k by {
                if k == key {
                    assert(pos_key(robots@[i as int].pos) == k);
                }
            }
        }
        i += 1;
    }
    map
}

/// The half of `0..n` that `i` falls in, `None` on the middle line.
pub fn get_quadrant_1d(i: isize, n: isize) -> (q: Option<usize>)
    requires
        n >= 0,
    ensures
        q == (if i < n as int / 2 {
            Some(0usize)
        } else if i == n as int / 2 {
            None
        } else {
            Some(1usize)
        }),
{
    let mid = ((n as usize) / 2) as isize;
    if i < mid {
        Some(0)
    } else if i == mid {
        None
    } else {
        Some(1)
    }
}

/// The quadrant of a position: `q0 + 2 * q1` for the halves on each axis; `None` on a middle
/// line.
pub open spec fn quadrant(pos: Ix2s, area: Ix2s) -> Option<usize> {
    let h0 = area.0 as int / 2;
    let h1 = area.1 as int / 2;
    if pos.0 == h0 || pos.1 == h1 {
        None
    } else {
        Some(((if pos.0 < h0 { 0usize } else { 1usize }) + 2 * (if pos.1 < h1 {
            0usize
        } else {
            1usize
        })) as usize)
    }
}

pub fn get_quadrant_2d(pos: Ix2s, area: Ix2s) -> (q: Option<usize>)
    requires
        area.0 >= 0,
        area.1 >= 0,
    ensures
        q == quadrant(pos, area),
{
    let q0 = get_quadrant_1d(pos.0, area.0);
    let q1 = get_quadrant_1d(pos.1, area.1);
    match (q0, q1) {
        (Some(a), Some(b)) => Some(a + 2 * b),
        _ => None,
    }
}

/// A position on the middle column or the middle row of the area lies in no quadrant;
/// any other position lies in one of four quadrants, and two such positions share a
/// quadrant exactly when they lie on the same side of the middle on both axes.
pub proof fn lemma_quadrant_sides(p: Ix2s, r: Ix2s, area: Ix2s)
    requires
        area.0 >= 0,
        area.1 >= 0,
    ensures
        quadrant(p, area) is None <==> (2 * p.0 == area.0 - area.0 % 2 || 2 * p.1 == area.1 - area.1 % 2),
        quadrant(p, area) matches Some(q) ==> q < 4,
        quadrant(p, area) is Some && quadrant(r, area) is Some ==> (quadrant(p, area) == quadrant(r, area)
            <==> ((2 * p.0 < area.0) == (2 * r.0 < area.0) && (2 * p.1 < area.1) == (2 * r.1 < area.1))),
{
}

/// In the 101 by 103 area, the robots counted in the four quadrants are exactly those off
/// the middle column 50 and the middle row 51, each counted once.
pub proof fn lemma_quadrant_counts(robots: Seq<Robot>, k: int, dt: int)
    requires
        0 <= k <= robots.len(),
    ensures
        quadrant_count(robots, k, dt, Ix2s(101, 103), 0) + quadrant_count(robots, k, dt, Ix2s(101, 103), 1)
            + quadrant_count(robots, k, dt, Ix2s(101, 103), 2) + quadrant_count(robots, k, dt, Ix2s(101, 103), 3)
            == off_middle(robots, k, dt),
    decreases k,
{
    if k > 0 {
        lemma_quadrant_counts(robots, k - 1, dt);
        lemma_quadrant_sides(pos_after(robots[k - 1], dt, Ix2s(101, 103)), pos_after(robots[k - 1], dt, Ix2s(101, 103)), Ix2s(101, 103));
    }
}

/// Number of the first `k` robots that, after `dt` seconds in the 101 by 103 area, are on
/// neither the middle column 50 nor the middle row 51.
pub open spec fn off_middle(robots: Seq<Robot>, k: int, dt: int) -> nat
    decreases k,
{
    if k <= 0 {
        0
    } else {
        let p = pos_after(robots[k - 1], dt, Ix2s(101, 103));
        off_middle(robots, k - 1, dt) + if p.0 != 50 && p.1 != 51 {
            1nat
        } else {
            0
        }
    }
}

/// Number of the first `k` robots that are in quadrant `q` after `dt` seconds.
pub open spec fn quadrant_count(robots: Seq<Robot>, k: int, dt: int, area: Ix2s, q: usize) -> nat
    decreases k,
{
    if k <= 0 {
        0
    } else {
        quadrant_count(robots, k - 1, dt, area, q) + (if quadrant(pos_after(robots[k - 1], dt, area), area)
            == Some(q) {
            1nat
        } else {
            0
        })
    }
}

/// The robots can move 100 seconds within `isize`.
pub open spec fn all_tick_fit(robots: Seq<Robot>, dt: isize) -> bool {
    forall|i: int| 0 <= i < robots.len() ==> tick_fits(#[trigger] robots[i], dt)
}

/// Number of robots of the input in quadrant `q` after 100 seconds in the 101 by 103 area.
pub open spec fn qc(input: Seq<char>, q: usize) -> int {
    quadrant_count(robots_of(input), robots_of(input).len() as int, 100, Ix2s(101, 103), q) as int
}

/// Product of the numbers of robots in each quadrant after 100 seconds in a 101 by 103 area.
pub fn part1(input: &str) -> (factor: usize)
    requires
        valid_input(input@),
        all_tick_fit(robots_of(input@), 100),
        qc(input@, 0) * qc(input@, 1) <= usize::MAX,
        qc(input@, 0) * qc(input@, 1) * qc(input@, 2) <= usize::MAX,
        qc(input@, 0) * qc(input@, 1) * qc(input@, 2) * qc(input@, 3) <= usize::MAX,
    ensures
        factor == qc(input@, 0) * qc(input@, 1) * qc(input@, 2) * qc(input@, 3),
{
    let robots = parse_input(input);
    let area = Ix2s(101, 103);
    let dt: isize = 100;
    let ghost rs = robots@;
    let mut qcounts: Vec<usize> = vec![0, 0, 0, 0];
    let mut i: usize = 0;
    while i < robots.len()
        invariant
            rs == robots@,
            rs == robots_of(input@),
            all_tick_fit(rs, 100),
            area == Ix2s(101, 103),
            dt == 100,
            i <= rs.len(),
            qcounts@.len() == 4,
            forall|q: int| 0 <= q < 4 ==> #[trigger] qcounts@[q] == quadrant_count(rs, i as int, 100, area, q as usize),
            forall|q: int| 0 <= q < 4 ==> #[trigger] qcounts@[q] <= i,
        decreases rs.len() - i,
    {
        assert(tick_fits(rs[i as int], 100));
        let moved = robots[i].tick(dt, area);
        if let Some(q) = get_quadrant_2d(moved.pos, area) {
            let c = qcounts[q];
            qcounts.set(q, c + 1);
        }
        i += 1;
    }
    let a = qcounts[0];
    let b = qcounts[1];
    let c = qcounts[2];
    let d = qcounts[3];
    assert(a == qc(input@, 0) && b == qc(input@, 1) && c == qc(input@, 2) && d == qc(input@, 3));
    let ab = a * b;
    let abc = ab * c;
    abc * d
}

/// The robots after 7037 seconds, counted by position: the picture they draw.
pub fn part2(input: &str) -> (map: HashMap<u64, usize>)
    requires
        valid_input(input@),
        all_tick_fit(robots_of(input@), 7037),
    ensures
        forall|p: Ix2s|
            small_pos(p) ==> (#[trigger] map@.contains_key(pos_key(p)) <==> count_at(
                robots_of(input@).map_values(
                    |r: Robot| Robot { pos: pos_after(r, 7037, Ix2s(101, 103)), vel: r.vel },
                ),
                robots_of(input@).len() as int,
                p,
            ) > 0),
{
    let robots = parse_input(input);
    let area = Ix2s(101, 103);
    let dt: isize = 7037;
    let ghost rs = robots@;
    let mut moved: Vec<Robot> = Vec::new();
    let mut i: usize = 0;
    while i < robots.len()
        invariant
            rs == robots@,
            rs == robots_of(input@),
            all_tick_fit(rs, 7037),
            area == Ix2s(101, 103),
            dt == 7037,
            i <= rs.len(),
            moved@ == rs.take(i as int).map_values(
                |r: Robot| Robot { pos: pos_after(r, 7037, Ix2s(101, 103)), vel: r.vel },
            ),
        decreases rs.len() - i,
    {
        assert(tick_fits(rs[i as int], 7037));
        moved.push(robots[i].tick(dt, area));
        assert(moved@ =~= rs.take(i + 1).map_values(
            |r: Robot| Robot { pos: pos_after(r, 7037, Ix2s(101, 103)), vel: r.vel },
        ));
        i += 1;
    }
    proof {
        assert(rs.take(rs.len() as int) =~= rs);
        assert forall|j: int| 0 <= j < moved@.len() implies small_pos(#[trigger] moved@[j].pos) by {
            assert(moved@[j].pos == pos_after(rs[j], 7037, Ix2s(101, 103)));
        }
    }
    make_map(moved.as_slice())
}

} // verus!
