use crate::lgl::data::array2d::{self, Grid};
use crate::lgl::data::index::{add_fits, Ix2s};
use crate::lgl::parse;
use vstd::prelude::*;
use vstd::string::StrSliceExecFns;

verus! {

// ---------------------------------------------------------------------------
// Boxes on the integer plane

/// Axis-aligned box covering the cells `min <= p < max`, coordinate by coordinate.
#[derive(Clone, Copy)]
pub struct Aab {
    pub min: Ix2s,
    pub max: Ix2s,
}

pub open spec fn imax(a: isize, b: isize) -> isize {
    if a < b { b } else { a }
}

pub open spec fn imin(a: isize, b: isize) -> isize {
    if a < b { a } else { b }
}

/// `p + d`, in each coordinate.
pub open spec fn plus(p: Ix2s, d: Ix2s) -> Ix2s {
    Ix2s((p.0 + d.0) as isize, (p.1 + d.1) as isize)
}

impl Aab {
    /// The two boxes share a cell: on each axis the larger lower bound is below the smaller
    /// upper bound.
    pub open spec fn meets(self, o: Aab) -> bool {
        &&& imax(self.min.0, o.min.0) < imin(self.max.0, o.max.0)
        &&& imax(self.min.1, o.min.1) < imin(self.max.1, o.max.1)
    }

    /// The box covers cell `p`.
    pub open spec fn holds(self, p: Ix2s) -> bool {
        self.min.0 <= p.0 < self.max.0 && self.min.1 <= p.1 < self.max.1
    }

    /// The box moved by `d`.
    pub open spec fn shift(self, d: Ix2s) -> Aab {
        Aab { min: plus(self.min, d), max: plus(self.max, d) }
    }

    /// The box with its columns doubled.
    pub open spec fn wide(self) -> Aab {
        Aab {
            min: Ix2s(self.min.0, (self.min.1 * 2) as isize),
            max: Ix2s(self.max.0, (self.max.1 * 2) as isize),
        }
    }

    /// Whether the two boxes share a cell: the overlap of their ranges is not empty on
    /// either axis.
    pub fn intersects(&self, other: &Aab) -> (b: bool)
        ensures
            b == self.meets(*other),
    {
        let min0 = if self.min.0 < other.min.0 { other.min.0 } else { self.min.0 };
        let min1 = if self.min.1 < other.min.1 { other.min.1 } else { self.min.1 };
        let max0 = if self.max.0 < other.max.0 { self.max.0 } else { other.max.0 };
        let max1 = if self.max.1 < other.max.1 { self.max.1 } else { other.max.1 };
        min0 < max0 && min1 < max1
    }

    /// Whether the box covers `pos`.
    pub fn contains(&self, pos: &Ix2s) -> (b: bool)
        ensures
            b == self.holds(*pos),
    {
        self.min.0 <= pos.0 && pos.0 < self.max.0 && self.min.1 <= pos.1 && pos.1 < self.max.1
    }

    /// The smallest box holding both.
    pub fn union(&self, other: &Aab) -> (u: Aab)
        ensures
            u.min.0 == (if self.min.0 < other.min.0 { self.min.0 } else { other.min.0 }),
            u.min.1 == (if self.min.1 < other.min.1 { self.min.1 } else { other.min.1 }),
            u.max.0 == (if self.max.0 < other.max.0 { other.max.0 } else { self.max.0 }),
            u.max.1 == (if self.max.1 < other.max.1 { other.max.1 } else { self.max.1 }),
    {
        let min0 = if self.min.0 < other.min.0 { self.min.0 } else { other.min.0 };
        let min1 = if self.min.1 < other.min.1 { self.min.1 } else { other.min.1 };
        let max0 = if self.max.0 < other.max.0 { other.max.0 } else { self.max.0 };
        let max1 = if self.max.1 < other.max.1 { other.max.1 } else { self.max.1 };
        Aab { min: Ix2s(min0, min1), max: Ix2s(max0, max1) }
    }

    /// The box moved by `dir`.
    pub fn moved(&self, dir: Ix2s) -> (r: Aab)
        requires
            add_fits(self.min, dir),
            add_fits(self.max, dir),
        ensures
            r == self.shift(dir),
    {
        Aab { min: self.min.add(dir), max: self.max.add(dir) }
    }

    /// The box with its columns doubled.
    pub fn widened(&self) -> (r: Aab)
        requires
            isize::MIN <= self.min.1 * 2 <= isize::MAX,
            isize::MIN <= self.max.1 * 2 <= isize::MAX,
        ensures
            r == self.wide(),
    {
        Aab { min: Ix2s(self.min.0, self.min.1 * 2), max: Ix2s(self.max.0, self.max.1 * 2) }
    }
}

// ---------------------------------------------------------------------------
// Items of the warehouse

/// A wall (which cannot move) or a box (which can).
#[derive(Clone, Copy)]
pub struct Item {
    pub shape: Aab,
    pub can_move: bool,
}

/// The item moved by `d`.
pub open spec fn shifted(it: Item, d: Ix2s) -> Item {
    Item { shape: it.shape.shift(d), can_move: it.can_move }
}

/// The GPS coordinate of a box: 100 times its top row plus its left column.
pub open spec fn gps_of(it: Item) -> int {
    100 * it.shape.min.0 + it.shape.min.1
}

impl Item {
    /// The item moved by `dir`.
    pub fn moved(&self, dir: Ix2s) -> (r: Item)
        requires
            add_fits(self.shape.min, dir),
            add_fits(self.shape.max, dir),
        ensures
            r == shifted(*self, dir),
    {
        Item { shape: self.shape.moved(dir), can_move: self.can_move }
    }

    /// 100 times the top row plus the left column.
    pub fn gps(&self) -> (g: isize)
        requires
            isize::MIN <= gps_of(*self) <= isize::MAX,
            isize::MIN <= 100 * self.shape.min.0 <= isize::MAX,
        ensures
            g == gps_of(*self),
    {
        100 * self.shape.min.0 + self.shape.min.1
    }
}

// ---------------------------------------------------------------------------
// Pushing

/// The item `i`, moved by `d`, runs into item `j`.
pub open spec fn pushes(s: Seq<Item>, d: Ix2s, i: int, j: int) -> bool {
    s[i].shape.shift(d).meets(s[j].shape)
}

/// The items set moving, within `k` steps of the chain reaction, when the robot steps on
/// cell `p` in direction `d`: first those covering `p`, then those hit by a moved one.
pub open spec fn within(s: Seq<Item>, p: Ix2s, d: Ix2s, k: nat) -> Set<int>
    decreases k,
{
    if k == 0 {
        Set::new(|j: int| 0 <= j < s.len() && s[j].shape.holds(p))
    } else {
        let w = within(s, p, d, (k - 1) as nat);
        w.union(
            Set::new(
                |j: int| 0 <= j < s.len() && exists|i: int| w.contains(i) && #[trigger] pushes(s, d, i, j),
            ),
        )
    }
}

/// All the items that the robot's step onto `p` sets moving.
pub open spec fn pushed(s: Seq<Item>, p: Ix2s, d: Ix2s) -> Set<int> {
    Set::new(|j: int| exists|k: nat| #[trigger] within(s, p, d, k).contains(j))
}

/// Some item that would have to move is a wall.
pub open spec fn blocked(s: Seq<Item>, p: Ix2s, d: Ix2s) -> bool {
    exists|j: int| #[trigger] pushed(s, p, d).contains(j) && !s[j].can_move
}

/// The items after a successful push: those set moving are moved by `d`.
pub open spec fn push_all(s: Seq<Item>, p: Ix2s, d: Ix2s) -> Seq<Item> {
    s.map(|j: int, it: Item| if pushed(s, p, d).contains(j) { shifted(it, d) } else { it })
}

/// The warehouse after the robot tries to move by `d`: nothing changes if a wall is in the
/// way; otherwise the robot and every item it pushes, directly or through other items,
/// move by `d`.
pub open spec fn step(s: Seq<Item>, robot: Ix2s, d: Ix2s) -> (Seq<Item>, Ix2s) {
    let p = plus(robot, d);
    if blocked(s, p, d) {
        (s, robot)
    } else {
        (push_all(s, p, d), p)
    }
}

proof fn lemma_within_mono(s: Seq<Item>, p: Ix2s, d: Ix2s, a: nat, b: nat)
    requires
        a <= b,
    ensures
        within(s, p, d, a).subset_of(within(s, p, d, b)),
    decreases b,
{
    if a < b {
        lemma_within_mono(s, p, d, a, (b - 1) as nat);
    }
}

proof fn lemma_within_stable(s: Seq<Item>, p: Ix2s, d: Ix2s, k: nat, m: nat)
    requires
        within(s, p, d, k + 1) == within(s, p, d, k),
        k <= m,
    ensures
        within(s, p, d, m) == within(s, p, d, k),
    decreases m,
{
    if m > k + 1 {
        lemma_within_stable(s, p, d, k, (m - 1) as nat);
        assert(within(s, p, d, m) =~= within(s, p, d, (m - 1) as nat + 1));
    }
}

proof fn lemma_pushed_is(s: Seq<Item>, p: Ix2s, d: Ix2s, k: nat)
    requires
        within(s, p, d, k + 1) == within(s, p, d, k),
    ensures
        pushed(s, p, d) == within(s, p, d, k),
{
    assert forall|j: int| pushed(s, p, d).contains(j) implies within(s, p, d, k).contains(j) by {
        let m = choose|m: nat| #[trigger] within(s, p, d, m).contains(j);
        if m <= k {
            lemma_within_mono(s, p, d, m, k);
        } else {
            lemma_within_stable(s, p, d, k, m);
        }
    }
    assert forall|j: int| within(s, p, d, k).contains(j) implies pushed(s, p, d).contains(j) by {
        assert(within(s, p, d, k).contains(j));
    }
    assert(pushed(s, p, d) =~= within(s, p, d, k));
}

/// Number of `false` entries.
pub open spec fn falses(s: Seq<bool>) -> nat
    decreases s.len(),
{
    if s.len() == 0 {
        0
    } else {
        falses(s.drop_last()) + if s.last() { 0nat } else { 1 }
    }
}

pub(crate) proof fn lemma_falses_set(s: Seq<bool>, i: int)
    requires
        0 <= i < s.len(),
        !s[i],
    ensures
        falses(s.update(i, true)) + 1 == falses(s),
    decreases s.len(),
{
    if i < s.len() - 1 {
        lemma_falses_set(s.drop_last(), i);
        assert(s.update(i, true).drop_last() =~= s.drop_last().update(i, true));
    } else {
        assert(s.update(i, true).drop_last() =~= s.drop_last());
    }
}

/// All coordinates of the items and the robot stay within `[-lim, lim]`.
pub open spec fn coords_in(s: Seq<Item>, robot: Ix2s, lim: int) -> bool {
    &&& -lim <= robot.0 <= lim && -lim <= robot.1 <= lim
    &&& forall|j: int|
        0 <= j < s.len() ==> -lim <= (#[trigger] s[j]).shape.min.0 <= lim && -lim <= s[j].shape.min.1 <= lim
            && -lim <= s[j].shape.max.0 <= lim && -lim <= s[j].shape.max.1 <= lim
}

/// Each step moves at most one cell along each axis.
pub open spec fn unit(d: Ix2s) -> bool {
    -1 <= d.0 <= 1 && -1 <= d.1 <= 1
}

/// A step keeps every coordinate within one more than before.
pub proof fn lemma_step_coords(s: Seq<Item>, robot: Ix2s, d: Ix2s, lim: int)
    requires
        coords_in(s, robot, lim),
        unit(d),
        lim + 1 <= isize::MAX,
    ensures
        coords_in(step(s, robot, d).0, step(s, robot, d).1, lim + 1),
        step(s, robot, d).0.len() == s.len(),
{
    let p = plus(robot, d);
    if !blocked(s, p, d) {
        let t = push_all(s, p, d);
        assert forall|j: int| 0 <= j < t.len() implies -(lim + 1) <= (#[trigger] t[j]).shape.min.0 <= lim + 1
            && -(lim + 1) <= t[j].shape.min.1 <= lim + 1 && -(lim + 1) <= t[j].shape.max.0 <= lim + 1
            && -(lim + 1) <= t[j].shape.max.1 <= lim + 1 by {
            assert(-lim <= s[j].shape.min.0 <= lim);
        }
    }
}

/// No two items share a cell.
pub open spec fn apart(s: Seq<Item>) -> bool {
    forall|i: int, j: int| 0 <= i < s.len() && 0 <= j < s.len() && i != j ==> !(#[trigger] s[i]).shape.meets(
        (#[trigger] s[j]).shape,
    )
}

/// No item covers the robot's cell.
pub open spec fn robot_free(s: Seq<Item>, robot: Ix2s) -> bool {
    forall|j: int| 0 <= j < s.len() ==> !(#[trigger] s[j]).shape.holds(robot)
}

/// An item hit by an item set moving is set moving too.
proof fn lemma_pushed_closed(s: Seq<Item>, p: Ix2s, d: Ix2s, i: int, j: int)
    requires
        pushed(s, p, d).contains(i),
        0 <= j < s.len(),
        pushes(s, d, i, j),
    ensures
        pushed(s, p, d).contains(j),
{
    let k = choose|k: nat| #[trigger] within(s, p, d, k).contains(i);
    assert(within(s, p, d, k + 1).contains(j));
}

/// A step keeps the items apart and the robot off them: items set moving move together,
/// an item that a moving item would run into moves with it, and the robot steps onto the
/// place its neighbour left.
pub proof fn lemma_step_keeps_apart(s: Seq<Item>, robot: Ix2s, d: Ix2s, lim: int)
    requires
        coords_in(s, robot, lim),
        unit(d),
        0 <= lim,
        lim + 1 <= isize::MAX,
        apart(s),
        robot_free(s, robot),
    ensures
        apart(step(s, robot, d).0),
        robot_free(step(s, robot, d).0, step(s, robot, d).1),
{
    let p = plus(robot, d);
    if !blocked(s, p, d) {
        let t = push_all(s, p, d);
        let ps = pushed(s, p, d);
        assert forall|i: int, j: int| 0 <= i < t.len() && 0 <= j < t.len() && i != j implies !(#[trigger] t[i]).shape.meets(
            (#[trigger] t[j]).shape,
        ) by {
            assert(-lim <= s[i].shape.min.0 <= lim && -lim <= s[j].shape.min.0 <= lim);
            assert(-lim <= s[i].shape.max.0 <= lim && -lim <= s[j].shape.max.0 <= lim);
            assert(-lim <= s[i].shape.min.1 <= lim && -lim <= s[j].shape.min.1 <= lim);
            assert(-lim <= s[i].shape.max.1 <= lim && -lim <= s[j].shape.max.1 <= lim);
            assert(!s[i].shape.meets(s[j].shape));
            if ps.contains(i) && !ps.contains(j) {
                if t[i].shape.meets(t[j].shape) {
                    assert(pushes(s, d, i, j));
                    lemma_pushed_closed(s, p, d, i, j);
                }
            } else if !ps.contains(i) && ps.contains(j) {
                if t[i].shape.meets(t[j].shape) {
                    assert(pushes(s, d, j, i));
                    lemma_pushed_closed(s, p, d, j, i);
                }
            }
        }
        assert forall|j: int| 0 <= j < t.len() implies !(#[trigger] t[j]).shape.holds(p) by {
            assert(-lim <= s[j].shape.min.0 <= lim && -lim <= s[j].shape.max.0 <= lim);
            assert(-lim <= s[j].shape.min.1 <= lim && -lim <= s[j].shape.max.1 <= lim);
            assert(!s[j].shape.holds(robot));
            if !ps.contains(j) && s[j].shape.holds(p) {
                assert(within(s, p, d, 0).contains(j));
            }
        }
    }
}

// ---------------------------------------------------------------------------
// The warehouse

/// The robot and the walls and boxes around it.
pub struct Warehouse {
    pub items: Vec<Item>,
    pub robot: Ix2s,
}

/// Every coordinate can move by `d` without leaving `isize`.
pub open spec fn fits_dir(s: Seq<Item>, robot: Ix2s, d: Ix2s) -> bool {
    &&& add_fits(robot, d)
    &&& forall|j: int| 0 <= j < s.len() ==> add_fits((#[trigger] s[j]).shape.min, d) && add_fits(s[j].shape.max, d)
}

/// Item `j` is listed in `v`.
pub open spec fn listed(v: Seq<usize>, j: int) -> bool {
    exists|u: int| 0 <= u < v.len() && #[trigger] v[u] as int == j
}

proof fn lemma_listed_push(v: Seq<usize>, x: usize)
    ensures
        forall|j: int| #[trigger] listed(v.push(x), j) <==> (listed(v, j) || j == x as int),
{
    assert forall|j: int| #[trigger] listed(v.push(x), j) <==> (listed(v, j) || j == x as int) by {
        if listed(v.push(x), j) {
            let u = choose|u: int| 0 <= u < v.push(x).len() && #[trigger] v.push(x)[u] as int == j;
            if u < v.len() {
                assert(v[u] as int == j);
            }
        }
        if listed(v, j) {
            let u = choose|u: int| 0 <= u < v.len() && #[trigger] v[u] as int == j;
            assert(v.push(x)[u] as int == j);
        }
        if j == x as int {
            assert(v.push(x)[v.len() as int] as int == j);
        }
    }
}

/// The items first set moving at step `k`.
pub open spec fn frontier(s: Seq<Item>, p: Ix2s, d: Ix2s, k: nat) -> Set<int> {
    if k == 0 {
        within(s, p, d, 0)
    } else {
        within(s, p, d, k).difference(within(s, p, d, (k - 1) as nat))
    }
}

/// Some item listed in `v`, moved by `d`, runs into item `x`.
pub open spec fn hit_by(s: Seq<Item>, d: Ix2s, v: Seq<usize>, x: int) -> bool {
    exists|u: int| 0 <= u < v.len() && #[trigger] pushes(s, d, v[u] as int, x)
}

proof fn lemma_next_frontier(s: Seq<Item>, p: Ix2s, d: Ix2s, lv: nat, newly: Seq<usize>, x: int)
    requires
        forall|j: int| #[trigger] within(s, p, d, lv).contains(j) ==> 0 <= j < s.len(),
        forall|u: int| 0 <= u < newly.len() ==> newly[u] < s.len(),
        forall|j: int| 0 <= j < s.len() ==> (listed(newly, j) <==> #[trigger] frontier(s, p, d, lv).contains(j)),
        0 <= x < s.len(),
    ensures
        (!within(s, p, d, lv).contains(x) && hit_by(s, d, newly, x)) <==> frontier(s, p, d, lv + 1).contains(x),
{
    if !within(s, p, d, lv).contains(x) && hit_by(s, d, newly, x) {
        let u = choose|u: int| 0 <= u < newly.len() && #[trigger] pushes(s, d, newly[u] as int, x);
        let i0 = newly[u] as int;
        assert(listed(newly, i0));
        assert(frontier(s, p, d, lv).contains(i0));
        assert(within(s, p, d, lv).contains(i0));
        assert(within(s, p, d, lv + 1).contains(x));
    }
    if frontier(s, p, d, lv + 1).contains(x) {
        assert(within(s, p, d, lv + 1).contains(x));
        assert(!within(s, p, d, lv).contains(x));
        let i0 = choose|i0: int| within(s, p, d, lv).contains(i0) && #[trigger] pushes(s, d, i0, x);
        if lv > 0 && within(s, p, d, (lv - 1) as nat).contains(i0) {
            assert(within(s, p, d, lv).contains(x));
        }
        assert(frontier(s, p, d, lv).contains(i0));
        assert(listed(newly, i0));
        let u = choose|u: int| 0 <= u < newly.len() && #[trigger] newly[u] as int == i0;
        assert(pushes(s, d, newly[u] as int, x));
    }
}

impl Warehouse {
    /// The robot tries to move by `dir`, pushing whatever is in its way: a box it walks
    /// into moves along, and so does every box a moving box runs into; if any of them is
    /// a wall, nothing moves.
    pub fn move_robot(&mut self, dir: Ix2s)
        requires
            fits_dir(old(self).items@, old(self).robot, dir),
        ensures
            (final(self).items@, final(self).robot) == step(old(self).items@, old(self).robot, dir),
    {
        let ghost s = self.items@;
        let ghost d = dir;
        let robot_next = self.robot.add(dir);
        let ghost p = robot_next;
        assert(p == plus(self.robot, dir));
        let n = self.items.len();
        // Items set moving so far, and those among them whose own pushes are not yet found.
        let mut marked: Vec<bool> = Vec::new();
        let mut newly: Vec<usize> = Vec::new();
        let mut i: usize = 0;
        while i < n
            invariant
                s == self.items@,
                s == old(self).items@,
                self.robot == old(self).robot,
                p == robot_next,
                n == s.len(),
                i <= n,
                marked@.len() == i,
                forall|j: int| 0 <= j < i ==> marked@[j] == within(s, p, d, 0).contains(j),
                forall|u: int| 0 <= u < newly@.len() ==> newly@[u] < i,
                forall|j: int| 0 <= j < i ==> (listed(newly@, j) <==> marked@[j]),
            decreases n - i,
        {
            let h = self.items[i].shape.contains(&robot_next);
            let ghost nb = newly@;
            let ghost mb = marked@;
            marked.push(h);
            if h {
                newly.push(i);
                proof {
                    lemma_listed_push(nb, i);
                }
            }
            proof {
                assert(h == within(s, p, d, 0).contains(i as int));
                assert forall|j: int| 0 <= j < i + 1 implies (listed(newly@, j) <==> marked@[j]) by {
                    if j < i {
                        assert(marked@[j] == mb[j]);
                    } else if !h {
                        if listed(newly@, j) {
                            let u = choose|u: int| 0 <= u < newly@.len() && #[trigger] newly@[u] as int == j;
                        }
                    }
                }
            }
            i += 1;
        }
        let ghost mut lv: nat = 0;
        proof {
            assert forall|j: int| 0 <= j < n implies (listed(newly@, j) <==> #[trigger] frontier(s, p, d, lv).contains(j)) by {
            }
        }
        loop
            invariant
                s == self.items@,
                self.robot == old(self).robot,
                s == old(self).items@,
                fits_dir(s, self.robot, d),
                d == dir,
                p == robot_next,
                p == plus(old(self).robot, d),
                n == s.len(),
                marked@.len() == n,
                forall|j: int| 0 <= j < n ==> marked@[j] == within(s, p, d, lv).contains(j),
                forall|j: int| #[trigger] within(s, p, d, lv).contains(j) ==> 0 <= j < n,
                forall|u: int| 0 <= u < newly@.len() ==> newly@[u] < n,
                forall|j: int| 0 <= j < n ==> (listed(newly@, j) <==> #[trigger] frontier(s, p, d, lv).contains(j)),
                forall|j: int| #[trigger] within(s, p, d, lv).contains(j) && !listed(newly@, j) ==> s[j].can_move,
            ensures
                s == self.items@,
                self.robot == old(self).robot,
                forall|j: int| 0 <= j < n ==> marked@[j] == within(s, p, d, lv).contains(j),
                within(s, p, d, lv + 1) == within(s, p, d, lv),
                forall|j: int| #[trigger] within(s, p, d, lv).contains(j) ==> s[j].can_move,
            decreases falses(marked@), newly@.len(),
        {
            if newly.len() == 0 {
                proof {
                    assert forall|j: int| within(s, p, d, lv + 1).contains(j) implies within(s, p, d, lv).contains(j) by {
                        if !within(s, p, d, lv).contains(j) {
                            let i0 = choose|i0: int| within(s, p, d, lv).contains(i0) && #[trigger] pushes(s, d, i0, j);
                            assert(!listed(newly@, i0));
                            assert(!frontier(s, p, d, lv).contains(i0));
                            assert(within(s, p, d, lv).contains(j));
                        }
                    }
                    lemma_within_mono(s, p, d, lv, lv + 1);
                    assert(within(s, p, d, lv + 1) =~= within(s, p, d, lv));
                    assert forall|j: int| #[trigger] within(s, p, d, lv).contains(j) implies s[j].can_move by {
                        if listed(newly@, j) {
                            let u = choose|u: int| 0 <= u < newly@.len() && #[trigger] newly@[u] as int == j;
                        }
                    }
                }
                break;
            }
            // A wall set moving stops the whole move.
            let mut t: usize = 0;
            while t < newly.len()
                invariant
                    s == self.items@,
                    s == old(self).items@,
                    self.robot == old(self).robot,
                    p == plus(old(self).robot, d),
                    d == dir,
                    n == s.len(),
                    t <= newly@.len(),
                    forall|u: int| 0 <= u < newly@.len() ==> newly@[u] < n,
                    forall|j: int| 0 <= j < n ==> (listed(newly@, j) <==> #[trigger] frontier(s, p, d, lv).contains(j)),
                    forall|u: int| 0 <= u < t ==> s[newly@[u] as int].can_move,
                decreases newly@.len() - t,
            {
                if !self.items[newly[t]].can_move {
                    proof {
                        let j = newly@[t as int] as int;
                        assert(listed(newly@, j));
                        assert(frontier(s, p, d, lv).contains(j));
                        assert(within(s, p, d, lv).contains(j));
                        assert(pushed(s, p, d).contains(j));
                        assert(blocked(s, p, d));
                    }
                    return;
                }
                t += 1;
            }
            // The items that the moved ones run into, and that are not yet moving.
            let mut hits: Vec<usize> = Vec::new();
            let mut j: usize = 0;
            while j < n
                invariant
                    s == self.items@,
                    fits_dir(s, self.robot, d),
                    d == dir,
                    n == s.len(),
                    j <= n,
                    marked@.len() == n,
                    forall|u: int| 0 <= u < newly@.len() ==> newly@[u] < n,
                    forall|u: int| 0 <= u < hits@.len() ==> hits@[u] < j,
                    forall|u: int, w: int| 0 <= u < w < hits@.len() ==> hits@[u] < hits@[w],
                    forall|x: int| 0 <= x < j ==> (listed(hits@, x) <==> (!marked@[x] && hit_by(s, d, newly@, x))),
                decreases n - j,
            {
                let ghost hb = hits@;
                if !marked[j] {
                    let mut hit = false;
                    let mut t: usize = 0;
                    while t < newly.len() && !hit
                        invariant
                            s == self.items@,
                            fits_dir(s, self.robot, d),
                            d == dir,
                            n == s.len(),
                            j < n,
                            t <= newly@.len(),
                            forall|u: int| 0 <= u < newly@.len() ==> newly@[u] < n,
                            hit ==> hit_by(s, d, newly@, j as int),
                            !hit ==> forall|u: int| 0 <= u < t ==> !#[trigger] pushes(s, d, newly@[u] as int, j as int),
                        decreases newly@.len() - t,
                    {
                        let k = newly[t];
                        let moved = self.items[k].shape.moved(dir);
                        if moved.intersects(&self.items[j].shape) {
                            hit = true;
                            assert(pushes(s, d, newly@[t as int] as int, j as int));
                        }
                        t += 1;
                    }
                    if hit {
                        hits.push(j);
                        proof {
                            lemma_listed_push(hb, j);
                        }
                    }
                }
                proof {
                    assert forall|x: int| 0 <= x < j + 1 implies (listed(hits@, x) <==> (!marked@[x] && hit_by(s, d, newly@, x))) by {
                        if x < j {
                            if hits@ != hb {
                                assert(listed(hits@, x) <==> listed(hb, x));
                            }
                        } else {
                            if hits@ == hb && listed(hits@, x) {
                                let u = choose|u: int| 0 <= u < hits@.len() && #[trigger] hits@[u] as int == x;
                            }
                        }
                    }
                }
                j += 1;
            }
            // The hits are the items reached in one more step.
            let ghost old_marked = marked@;
            proof {
                assert forall|x: int| 0 <= x < n implies (listed(hits@, x) <==> #[trigger] frontier(s, p, d, lv + 1).contains(x)) by {
                    lemma_next_frontier(s, p, d, lv, newly@, x);
                }
                lemma_within_mono(s, p, d, lv, lv + 1);
            }
            let mut t: usize = 0;
            while t < hits.len()
                invariant
                    marked@.len() == n,
                    old_marked.len() == n,
                    t <= hits@.len(),
                    forall|u: int| 0 <= u < hits@.len() ==> hits@[u] < n,
                    forall|u: int, w: int| 0 <= u < w < hits@.len() ==> hits@[u] < hits@[w],
                    forall|u: int| 0 <= u < hits@.len() ==> !old_marked[hits@[u] as int],
                    forall|x: int| 0 <= x < n ==> marked@[x] == (old_marked[x] || listed(hits@.take(t as int), x)),
                    falses(marked@) + t == falses(old_marked),
                decreases hits@.len() - t,
            {
                let h = hits[t];
                proof {
                    assert(!marked@[h as int]) by {
                        if listed(hits@.take(t as int), h as int) {
                            let u = choose|u: int| 0 <= u < t && #[trigger] hits@.take(t as int)[u] as int == h as int;
                            assert(hits@[u] < hits@[t as int]);
                        }
                    }
                    lemma_falses_set(marked@, h as int);
                    assert(hits@.take(t + 1) =~= hits@.take(t as int).push(h));
                    lemma_listed_push(hits@.take(t as int), h);
                }
                marked.set(h, true);
                t += 1;
            }
            proof {
                assert(hits@.take(hits@.len() as int) =~= hits@);
                let lv0 = lv;
                lv = lv + 1;
                assert forall|x: int| 0 <= x < n implies marked@[x] == within(s, p, d, lv).contains(x) by {
                    assert(listed(hits@, x) <==> frontier(s, p, d, lv).contains(x));
                    assert(old_marked[x] == within(s, p, d, lv0).contains(x));
                    if within(s, p, d, lv0).contains(x) {
                        assert(within(s, p, d, lv0).subset_of(within(s, p, d, lv)));
                    }
                }
                assert forall|x: int| #[trigger] within(s, p, d, lv).contains(x) && !listed(hits@, x) implies s[x].can_move by {
                    assert(!frontier(s, p, d, lv).contains(x) || !(0 <= x < n));
                    if listed(newly@, x) {
                        let u = choose|u: int| 0 <= u < newly@.len() && #[trigger] newly@[u] as int == x;
                    }
                }
            }
            newly = hits;
        }
        // No wall is in the way: everything set moving moves.
        proof {
            lemma_pushed_is(s, p, d, lv);
            assert(!blocked(s, p, d));
        }
        let mut k: usize = 0;
        while k < n
            invariant
                n == s.len(),
                self.items@.len() == n,
                k <= n,
                marked@.len() == n,
                fits_dir(s, old(self).robot, d),
                d == dir,
                forall|j: int| 0 <= j < n ==> marked@[j] == pushed(s, p, d).contains(j),
                forall|j: int| 0 <= j < k ==> self.items@[j] == push_all(s, p, d)[j],
                forall|j: int| k <= j < n ==> self.items@[j] == s[j],
                self.robot == old(self).robot,
            decreases n - k,
        {
            if marked[k] {
                assert(self.items@[k as int] == s[k as int]);
                let it = self.items[k].moved(dir);
                self.items.set(k, it);
            }
            k += 1;
        }
        self.robot = robot_next;
        proof {
            assert(self.items@ =~= push_all(s, p, d));
        }
    }
}

// ---------------------------------------------------------------------------
// Reading the map

/// The item drawn by character `ch` on the cell at row `r`, column `c`: '#' a wall, 'O' a box.
pub open spec fn tile_item(r: int, c: int, ch: char) -> Option<Item> {
    let shape = Aab {
        min: Ix2s(r as isize, c as isize),
        max: Ix2s((r + 1) as isize, (c + 1) as isize),
    };
    if ch == '#' {
        Some(Item { shape, can_move: false })
    } else if ch == 'O' {
        Some(Item { shape, can_move: true })
    } else {
        None
    }
}

pub open spec fn opt_seq(o: Option<Item>) -> Seq<Item> {
    match o {
        Some(x) => seq![x],
        None => seq![],
    }
}

/// The items of row `r`, left to right.
pub open spec fn row_items(row: Seq<char>, r: int) -> Seq<Item>
    decreases row.len(),
{
    if row.len() == 0 {
        seq![]
    } else {
        row_items(row.drop_last(), r) + opt_seq(tile_item(r, row.len() - 1, row.last()))
    }
}

/// The items of the map, row by row.
pub open spec fn grid_items(rows: Seq<Seq<char>>) -> Seq<Item>
    decreases rows.len(),
{
    if rows.len() == 0 {
        seq![]
    } else {
        grid_items(rows.drop_last()) + row_items(rows.last(), rows.len() - 1)
    }
}

/// `p` is the first '@' of the map, row by row.
pub open spec fn first_robot(rows: Seq<Seq<char>>, p: Ix2s) -> bool {
    &&& 0 <= p.0 < rows.len() && 0 <= p.1 < rows[p.0 as int].len() && rows[p.0 as int][p.1 as int] == '@'
    &&& forall|r: int, c: int|
        0 <= r < rows.len() && 0 <= c < rows[r].len() && (r < p.0 || (r == p.0 && c < p.1)) ==> #[trigger] rows[r][c]
            != '@'
}

/// The map shows the robot somewhere.
pub open spec fn has_robot(rows: Seq<Seq<char>>) -> bool {
    exists|r: int, c: int| 0 <= r < rows.len() && 0 <= c < rows[r].len() && #[trigger] rows[r][c] == '@'
}

/// Where the robot starts: the first '@'.
pub open spec fn robot_start(rows: Seq<Seq<char>>) -> Ix2s {
    choose|p: Ix2s| first_robot(rows, p)
}

proof fn lemma_first_robot_unique(rows: Seq<Seq<char>>, a: Ix2s, b: Ix2s)
    requires
        first_robot(rows, a),
        first_robot(rows, b),
    ensures
        a == b,
{
    assert(rows[a.0 as int][a.1 as int] == '@');
    assert(rows[b.0 as int][b.1 as int] == '@');
}

impl Item {
    /// The wall or box drawn on a tile, if any.
    pub fn from_index_tile(r: (usize, usize), c: char) -> (it: Option<Item>)
        requires
            r.0 < isize::MAX,
            r.1 < isize::MAX,
        ensures
            it == tile_item(r.0 as int, r.1 as int, c),
    {
        let p = Ix2s(r.0 as isize, r.1 as isize);
        let shape = Aab { min: p, max: p.add(Ix2s(1, 1)) };
        if c == '#' {
            Some(Item { shape, can_move: false })
        } else if c == 'O' {
            Some(Item { shape, can_move: true })
        } else {
            None
        }
    }
}

// ---------------------------------------------------------------------------
// Scores

/// Sum of the GPS coordinates of the boxes.
pub open spec fn gps_total(s: Seq<Item>) -> int
    decreases s.len(),
{
    if s.len() == 0 {
        0
    } else {
        gps_total(s.drop_last()) + if s.last().can_move { gps_of(s.last()) } else { 0 }
    }
}

/// The sum and every term of it fit an `isize`, at each point of the summation.
pub open spec fn gps_fits(s: Seq<Item>) -> bool {
    &&& forall|k: int| 0 <= k <= s.len() ==> isize::MIN <= #[trigger] gps_total(s.take(k)) <= isize::MAX
    &&& forall|j: int|
        0 <= j < s.len() ==> isize::MIN <= 100 * (#[trigger] s[j]).shape.min.0 <= isize::MAX && isize::MIN
            <= gps_of(s[j]) <= isize::MAX
}

proof fn lemma_gps_fits(s: Seq<Item>, robot: Ix2s, lim: int)
    requires
        coords_in(s, robot, lim),
        0 <= lim,
        101 * lim * s.len() <= isize::MAX,
    ensures
        gps_fits(s),
{
    assert forall|k: int| 0 <= k <= s.len() implies -(101 * lim * k) <= #[trigger] gps_total(s.take(k)) <= 101 * lim * k by {
        lemma_gps_partial(s, robot, lim, k);
    }
    assert forall|k: int| 0 <= k <= s.len() implies isize::MIN <= #[trigger] gps_total(s.take(k)) <= isize::MAX by {
        assert(-(101 * lim * k) <= gps_total(s.take(k)) <= 101 * lim * k);
        assert(101 * lim * k <= 101 * lim * s.len()) by (nonlinear_arith)
            requires
                0 <= k <= s.len(),
                0 <= lim,
        ;
    }
    assert forall|j: int| 0 <= j < s.len() implies isize::MIN <= 100 * (#[trigger] s[j]).shape.min.0 <= isize::MAX
        && isize::MIN <= gps_of(s[j]) <= isize::MAX by {
        assert(101 * lim <= 101 * lim * s.len()) by (nonlinear_arith)
            requires
                0 <= j < s.len(),
                0 <= lim,
        ;
        assert(-lim <= s[j].shape.min.0 <= lim);
    }
}

proof fn lemma_gps_partial(s: Seq<Item>, robot: Ix2s, lim: int, k: int)
    requires
        coords_in(s, robot, lim),
        0 <= lim,
        0 <= k <= s.len(),
    ensures
        -(101 * lim * k) <= gps_total(s.take(k)) <= 101 * lim * k,
    decreases k,
{
    if k > 0 {
        lemma_gps_partial(s, robot, lim, k - 1);
        assert(s.take(k).drop_last() =~= s.take(k - 1));
        let it = s[k - 1];
        assert(s.take(k).last() == it);
        assert(-lim <= it.shape.min.0 <= lim && -lim <= it.shape.min.1 <= lim);
        assert(101 * lim * k == 101 * lim * (k - 1) + 101 * lim) by (nonlinear_arith);
    }
}

// ---------------------------------------------------------------------------
// Moves

/// One of the four move characters.
pub open spec fn is_move(c: char) -> bool {
    c == '<' || c == '>' || c == '^' || c == 'v'
}

/// The step a move character stands for, as (row, column).
pub open spec fn move_of(c: char) -> Ix2s {
    if c == '<' {
        Ix2s(0, -1isize)
    } else if c == '>' {
        Ix2s(0, 1)
    } else if c == '^' {
        Ix2s(-1isize, 0)
    } else {
        Ix2s(1, 0)
    }
}

/// Every character of the text but whitespace is a move.
pub open spec fn moves_ok(t: Seq<char>) -> bool {
    forall|i: int| 0 <= i < t.len() && !parse::is_ws(#[trigger] t[i]) ==> is_move(t[i])
}

/// The moves of the text, whitespace skipped.
pub open spec fn moves_of(t: Seq<char>) -> Seq<Ix2s>
    decreases t.len(),
{
    if t.len() == 0 {
        seq![]
    } else if parse::is_ws(t.last()) {
        moves_of(t.drop_last())
    } else {
        moves_of(t.drop_last()).push(move_of(t.last()))
    }
}

/// The step a move character stands for.
pub fn parse_move(c: char) -> (d: Ix2s)
    requires
        is_move(c),
    ensures
        d == move_of(c),
{
    if c == '<' {
        Ix2s(0, -1isize)
    } else if c == '>' {
        Ix2s(0, 1)
    } else if c == '^' {
        Ix2s(-1isize, 0)
    } else {
        Ix2s(1, 0)
    }
}

/// The moves of the text, whitespace skipped.
pub fn parse_moves(s: &str) -> (v: Vec<Ix2s>)
    requires
        moves_ok(s@),
    ensures
        v@ == moves_of(s@),
{
    let cs = parse::chars_of(s);
    let mut v: Vec<Ix2s> = Vec::new();
    let mut i: usize = 0;
    while i < cs.len()
        invariant
            cs@ == s@,
            moves_ok(s@),
            i <= cs@.len(),
            v@ == moves_of(cs@.take(i as int)),
        decreases cs@.len() - i,
    {
        let c = cs[i];
        proof {
            assert(cs@.take(i + 1).drop_last() =~= cs@.take(i as int));
            assert(cs@.take(i + 1).last() == c);
        }
        if !parse::is_whitespace(c) {
            let d = parse_move(c);
            v.push(d);
        }
        i += 1;
    }
    proof {
        assert(cs@.take(i as int) =~= s@);
    }
    v
}

// ---------------------------------------------------------------------------
// Whole runs

/// The warehouse after the robot tries each move in turn.
pub open spec fn run(s: Seq<Item>, robot: Ix2s, moves: Seq<Ix2s>) -> (Seq<Item>, Ix2s)
    decreases moves.len(),
{
    if moves.len() == 0 {
        (s, robot)
    } else {
        let w = run(s, robot, moves.drop_last());
        step(w.0, w.1, moves.last())
    }
}

/// The items with their columns doubled.
pub open spec fn widened(s: Seq<Item>) -> Seq<Item> {
    s.map_values(|it: Item| Item { shape: it.shape.wide(), can_move: it.can_move })
}

/// Every column doubled fits an `isize`.
pub open spec fn widen_fits(s: Seq<Item>, robot: Ix2s) -> bool {
    &&& isize::MIN <= robot.1 * 2 <= isize::MAX
    &&& forall|j: int|
        0 <= j < s.len() ==> isize::MIN <= (#[trigger] s[j]).shape.min.1 * 2 <= isize::MAX && isize::MIN
            <= s[j].shape.max.1 * 2 <= isize::MAX
}

proof fn lemma_fits_dir(s: Seq<Item>, robot: Ix2s, d: Ix2s, lim: int)
    requires
        coords_in(s, robot, lim),
        unit(d),
        lim + 1 <= isize::MAX,
    ensures
        fits_dir(s, robot, d),
{
    assert forall|j: int| 0 <= j < s.len() implies add_fits((#[trigger] s[j]).shape.min, d) && add_fits(s[j].shape.max, d) by {
        assert(-lim <= s[j].shape.min.0 <= lim);
    }
}

impl Warehouse {
    /// Read the map: the items drawn on it and where the robot stands.
    pub fn new(s: &str) -> (w: Warehouse)
        requires
            array2d::rectangular(parse::lines_of(s@)),
            has_robot(parse::lines_of(s@)),
            parse::lines_of(s@).len() < isize::MAX,
            parse::lines_of(s@).len() > 0 ==> parse::lines_of(s@)[0].len() < isize::MAX,
        ensures
            w.items@ == grid_items(parse::lines_of(s@)),
            w.robot == robot_start(parse::lines_of(s@)),
    {
        let ghost rows = parse::lines_of(s@);
        let g = array2d::from_chars(s);
        proof {
            assert(g.rows() == rows);
            assert forall|r: int| 0 <= r < g.height() implies (#[trigger] g.cells@[r])@ == rows[r] by {
                assert(g.rows()[r] == g.cells@[r]@);
            }
        }
        let found = array2d::find_position(&g, '@');
        let robot = match found {
            Some(p) => p,
            None => {
                proof {
                    let (r, c) = choose|r: int, c: int| 0 <= r < rows.len() && 0 <= c < rows[r].len() && #[trigger] rows[r][c] == '@';
                    assert(rows[r].len() == rows[0].len());
                    assert(g.at(r, c) == '@');
                }
                return Warehouse { items: Vec::new(), robot: Ix2s(0, 0) };
            },
        };
        proof {
            assert forall|r: int, c: int|
                0 <= r < rows.len() && 0 <= c < rows[r].len() && (r < robot.0 || (r == robot.0 && c < robot.1))
                implies #[trigger] rows[r][c] != '@' by {
                assert(rows[r].len() == rows[0].len());
                assert(g.at(r, c) == rows[r][c]);
            }
            assert(first_robot(rows, robot));
            lemma_first_robot_unique(rows, robot, robot_start(rows));
        }
        let mut items: Vec<Item> = Vec::new();
        let mut r: usize = 0;
        while r < g.cells.len()
            invariant
                g.wf(),
                g.rows() == rows,
                rows.len() < isize::MAX,
                rows.len() > 0 ==> rows[0].len() < isize::MAX,
                array2d::rectangular(rows),
                forall|k: int| 0 <= k < g.height() ==> (#[trigger] g.cells@[k])@ == rows[k],
                g.cells@.len() == rows.len(),
                r <= rows.len(),
                items@ == grid_items(rows.take(r as int)),
            decreases rows.len() - r,
        {
            let mut c: usize = 0;
            let ghost before = items@;
            proof {
                assert(rows[r as int].len() == rows[0].len());
                assert(g.cells@[r as int]@ == rows[r as int]);
            }
            while c < g.cells[r].len()
                invariant
                    g.wf(),
                    g.cells@.len() == rows.len(),
                    g.cells@[r as int]@ == rows[r as int],
                    forall|k: int| 0 <= k < g.height() ==> (#[trigger] g.cells@[k])@ == rows[k],
                    rows.len() < isize::MAX,
                    rows[r as int].len() < isize::MAX,
                    r < rows.len(),
                    c <= rows[r as int].len(),
                    items@ == before + row_items(rows[r as int].take(c as int), r as int),
                decreases rows[r as int].len() - c,
            {
                let ghost bc = items@;
                let t = Item::from_index_tile((r, c), g.cells[r][c]);
                proof {
                    assert(rows[r as int].take(c + 1).drop_last() =~= rows[r as int].take(c as int));
                    assert(g.cells@[r as int]@[c as int] == rows[r as int][c as int]);
                }
                match t {
                    Some(it) => {
                        items.push(it);
                        proof {
                            assert(items@ =~= before + (row_items(rows[r as int].take(c as int), r as int) + seq![it]));
                        }
                    },
                    None => {
                        proof {
                            assert(row_items(rows[r as int].take(c as int), r as int) + seq![] =~= row_items(rows[r as int].take(c as int), r as int));
                        }
                    },
                }
                c += 1;
            }
            proof {
                assert(rows[r as int].take(c as int) =~= rows[r as int]);
                assert(rows.take(r + 1).drop_last() =~= rows.take(r as int));
            }
            r += 1;
        }
        proof {
            assert(rows.take(r as int) =~= rows);
        }
        Warehouse { items, robot }
    }

    /// The warehouse twice as wide: every column doubled.
    pub fn widen(&self) -> (w: Warehouse)
        requires
            widen_fits(self.items@, self.robot),
        ensures
            w.items@ == widened(self.items@),
            w.robot == Ix2s(self.robot.0, (self.robot.1 * 2) as isize),
    {
        let mut items: Vec<Item> = Vec::new();
        let mut i: usize = 0;
        while i < self.items.len()
            invariant
                widen_fits(self.items@, self.robot),
                i <= self.items@.len(),
                items@ == widened(self.items@.take(i as int)),
            decreases self.items@.len() - i,
        {
            let x = self.items[i];
            proof {
                assert(self.items@[i as int] == x);
            }
            items.push(Item { shape: x.shape.widened(), can_move: x.can_move });
            proof {
                assert(self.items@.take(i + 1) =~= self.items@.take(i as int).push(x));
                assert(items@ =~= widened(self.items@.take(i + 1)));
            }
            i += 1;
        }
        proof {
            assert(self.items@.take(i as int) =~= self.items@);
        }
        Warehouse { items, robot: Ix2s(self.robot.0, 2 * self.robot.1) }
    }

    /// Sum of the GPS coordinates of the boxes.
    pub fn gps_sum(&self) -> (g: isize)
        requires
            gps_fits(self.items@),
        ensures
            g == gps_total(self.items@),
    {
        let mut total: isize = 0;
        let mut i: usize = 0;
        proof {
            assert(self.items@.take(0) =~= Seq::<Item>::empty());
        }
        while i < self.items.len()
            invariant
                gps_fits(self.items@),
                i <= self.items@.len(),
                total == gps_total(self.items@.take(i as int)),
            decreases self.items@.len() - i,
        {
            proof {
                assert(self.items@.take(i + 1).drop_last() =~= self.items@.take(i as int));
                assert(self.items@.take(i + 1).last() == self.items@[i as int]);
                assert(isize::MIN <= gps_total(self.items@.take(i + 1)) <= isize::MAX);
            }
            if self.items[i].can_move {
                total = total + self.items[i].gps();
            }
            i += 1;
        }
        proof {
            assert(self.items@.take(i as int) =~= self.items@);
        }
        total
    }
}

// ---------------------------------------------------------------------------
// The puzzle

/// The input holds a map and the moves, separated by a blank line; the map is rectangular
/// and shows the robot, and each character of the moves but whitespace is a move.
pub open spec fn input_ok(input: Seq<char>) -> bool {
    let blocks = parse::split_blank(input);
    &&& blocks.len() >= 2
    &&& array2d::rectangular(parse::lines_of(blocks[0]))
    &&& has_robot(parse::lines_of(blocks[0]))
    &&& moves_ok(blocks[1])
}

/// The map of the input.
pub open spec fn map_rows(input: Seq<char>) -> Seq<Seq<char>> {
    parse::lines_of(parse::split_blank(input)[0])
}

/// The moves of the input.
pub open spec fn input_moves(input: Seq<char>) -> Seq<Ix2s> {
    moves_of(parse::split_blank(input)[1])
}

/// A bound on every coordinate over the whole run: the map's height plus its width, twice
/// over for the wide warehouse, plus one per move.
pub open spec fn run_lim(input: Seq<char>) -> int {
    let rows = map_rows(input);
    let w = if rows.len() > 0 { rows[0].len() as int } else { 0 };
    2 * (rows.len() + w) + input_moves(input).len() + 2
}

/// The sizes leave room for every coordinate and every partial GPS sum in an `isize`.
pub open spec fn sizes_fit(input: Seq<char>) -> bool {
    101 * run_lim(input) * (grid_items(map_rows(input)).len() + 1) <= isize::MAX
}

proof fn lemma_sizes(input: Seq<char>)
    requires
        sizes_fit(input),
    ensures
        map_rows(input).len() + (if map_rows(input).len() > 0 { map_rows(input)[0].len() as int } else { 0 }) + 2
            <= run_lim(input) <= isize::MAX,
        2 * (map_rows(input).len() + (if map_rows(input).len() > 0 { map_rows(input)[0].len() as int } else { 0 }))
            + input_moves(input).len() <= run_lim(input),
{
    let rows = map_rows(input);
    assert(101 * run_lim(input) * (grid_items(rows).len() + 1) >= run_lim(input)) by (nonlinear_arith)
        requires
            run_lim(input) >= 0,
            grid_items(rows).len() >= 0,
    ;
}

/// The warehouse and the moves of the input.
pub fn parse_input(input: &str) -> (r: (Warehouse, Vec<Ix2s>))
    requires
        input_ok(input@),
        sizes_fit(input@),
    ensures
        r.0.items@ == grid_items(map_rows(input@)),
        r.0.robot == robot_start(map_rows(input@)),
        r.1@ == input_moves(input@),
{
    let cs = parse::chars_of(input);
    let spans = parse::blank_spans(cs.as_slice());
    let (b0, e0) = spans[0];
    let (b1, e1) = spans[1];
    let map = input.substring_char(b0, e0);
    let moves = input.substring_char(b1, e1);
    proof {
        lemma_sizes(input@);
    }
    (Warehouse::new(map), parse_moves(moves))
}

proof fn lemma_moves_unit(t: Seq<char>)
    ensures
        forall|k: int| 0 <= k < moves_of(t).len() ==> unit(#[trigger] moves_of(t)[k]),
    decreases t.len(),
{
    if t.len() > 0 {
        lemma_moves_unit(t.drop_last());
        let a = moves_of(t.drop_last());
        assert forall|k: int| 0 <= k < moves_of(t).len() implies unit(#[trigger] moves_of(t)[k]) by {
            if k < a.len() {
                assert(moves_of(t)[k] == a[k]);
            }
        }
    }
}

/// The items of row `r` lie in that row, one cell each, left of the row's end.
proof fn lemma_row_coords(row: Seq<char>, r: int)
    requires
        0 <= r < isize::MAX,
        row.len() < isize::MAX,
    ensures
        row_items(row, r).len() <= row.len(),
        forall|j: int|
            0 <= j < row_items(row, r).len() ==> {
                let it = #[trigger] row_items(row, r)[j];
                &&& it.shape.min.0 == r && it.shape.max.0 == r + 1
                &&& 0 <= it.shape.min.1 < row.len() && it.shape.max.1 == it.shape.min.1 + 1
            },
    decreases row.len(),
{
    if row.len() > 0 {
        lemma_row_coords(row.drop_last(), r);
        let a = row_items(row.drop_last(), r);
        let b = opt_seq(tile_item(r, row.len() - 1, row.last()));
        assert(row_items(row, r) == a + b);
        assert forall|j: int| 0 <= j < row_items(row, r).len() implies {
            let it = #[trigger] row_items(row, r)[j];
            &&& it.shape.min.0 == r && it.shape.max.0 == r + 1
            &&& 0 <= it.shape.min.1 < row.len() && it.shape.max.1 == it.shape.min.1 + 1
        } by {
            if j < a.len() {
                assert(row_items(row, r)[j] == a[j]);
            } else {
                assert(row_items(row, r)[j] == b[j - a.len()]);
            }
        }
    }
}

/// Every item of the map covers one cell inside it.
proof fn lemma_grid_coords(rows: Seq<Seq<char>>)
    requires
        array2d::rectangular(rows),
        rows.len() < isize::MAX,
        rows.len() > 0 ==> rows[0].len() < isize::MAX,
    ensures
        forall|j: int|
            0 <= j < grid_items(rows).len() ==> {
                let it = #[trigger] grid_items(rows)[j];
                &&& 0 <= it.shape.min.0 && it.shape.max.0 == it.shape.min.0 + 1 && it.shape.max.0 <= rows.len()
                &&& 0 <= it.shape.min.1 && it.shape.max.1 == it.shape.min.1 + 1 && it.shape.max.1 <= rows[0].len()
            },
    decreases rows.len(),
{
    if rows.len() > 0 {
        let front = rows.drop_last();
        assert(array2d::rectangular(front)) by {
            assert forall|r: int| 0 <= r < front.len() implies (#[trigger] front[r]).len() == front[0].len() by {
                assert(rows[r].len() == rows[0].len());
            }
        }
        lemma_grid_coords(front);
        let r = rows.len() - 1;
        lemma_row_coords(rows.last(), r);
        assert(rows.last().len() == rows[0].len());
        let a = grid_items(front);
        let b = row_items(rows.last(), r);
        assert forall|j: int| 0 <= j < grid_items(rows).len() implies {
            let it = #[trigger] grid_items(rows)[j];
            &&& 0 <= it.shape.min.0 && it.shape.max.0 == it.shape.min.0 + 1 && it.shape.max.0 <= rows.len()
            &&& 0 <= it.shape.min.1 && it.shape.max.1 == it.shape.min.1 + 1 && it.shape.max.1 <= rows[0].len()
        } by {
            if j < a.len() {
                assert(grid_items(rows)[j] == a[j]);
                if front.len() > 0 {
                    assert(front[0] == rows[0]);
                }
            } else {
                assert(grid_items(rows)[j] == b[j - a.len()]);
            }
        }
    }
}

/// The robot starts on the map.
proof fn lemma_robot_coords(rows: Seq<Seq<char>>)
    requires
        array2d::rectangular(rows),
        rows.len() <= isize::MAX,
        rows.len() > 0 ==> rows[0].len() <= isize::MAX,
        has_robot(rows),
    ensures
        first_robot(rows, robot_start(rows)),
        0 <= robot_start(rows).0 < rows.len(),
        0 <= robot_start(rows).1 < rows[0].len(),
{
    let (r0, c0) = choose|r: int, c: int| 0 <= r < rows.len() && 0 <= c < rows[r].len() && #[trigger] rows[r][c] == '@';
    lemma_first_exists(rows, r0, c0);
    let p = robot_start(rows);
    assert(rows[p.0 as int].len() == rows[0].len());
}

/// Some '@' is the first, row by row.
proof fn lemma_first_exists(rows: Seq<Seq<char>>, r0: int, c0: int)
    requires
        array2d::rectangular(rows),
        rows.len() <= isize::MAX,
        rows.len() > 0 ==> rows[0].len() <= isize::MAX,
        0 <= r0 < rows.len(),
        0 <= c0 < rows[r0].len(),
        rows[r0][c0] == '@',
    ensures
        exists|p: Ix2s| first_robot(rows, p),
    decreases r0 * rows[0].len() + c0,
{
    if exists|r: int, c: int|
        0 <= r < rows.len() && 0 <= c < rows[r].len() && (r < r0 || (r == r0 && c < c0)) && #[trigger] rows[r][c] == '@' {
        let (r, c) = choose|r: int, c: int|
            0 <= r < rows.len() && 0 <= c < rows[r].len() && (r < r0 || (r == r0 && c < c0)) && #[trigger] rows[r][c] == '@';
        assert(rows[r].len() == rows[0].len());
        assert(rows[r0].len() == rows[0].len());
        assert(r * rows[0].len() + c < r0 * rows[0].len() + c0) by (nonlinear_arith)
            requires
                r < r0 || (r == r0 && c < c0),
                0 <= c < rows[0].len(),
                0 <= c0,
        ;
        assert(r * rows[0].len() + c >= 0) by (nonlinear_arith)
            requires
                0 <= r,
                0 <= c,
        ;
        lemma_first_exists(rows, r, c);
    } else {
        assert(rows[r0].len() == rows[0].len());
        assert(first_robot(rows, Ix2s(r0 as isize, c0 as isize)));
    }
}

/// The doubled columns of the map's items and robot fit.
proof fn lemma_widen_coords(s: Seq<Item>, robot: Ix2s, lim: int)
    requires
        coords_in(s, robot, lim),
        0 <= lim,
        2 * lim <= isize::MAX,
    ensures
        widen_fits(s, robot),
        coords_in(widened(s), Ix2s(robot.0, (robot.1 * 2) as isize), 2 * lim),
{
    assert forall|j: int| 0 <= j < s.len() implies isize::MIN <= (#[trigger] s[j]).shape.min.1 * 2 <= isize::MAX && isize::MIN
        <= s[j].shape.max.1 * 2 <= isize::MAX by {
        assert(-lim <= s[j].shape.min.1 <= lim);
    }
    let t = widened(s);
    assert forall|j: int| 0 <= j < t.len() implies -(2 * lim) <= (#[trigger] t[j]).shape.min.0 <= 2 * lim
        && -(2 * lim) <= t[j].shape.min.1 <= 2 * lim && -(2 * lim) <= t[j].shape.max.0 <= 2 * lim
        && -(2 * lim) <= t[j].shape.max.1 <= 2 * lim by {
        assert(-lim <= s[j].shape.min.1 <= lim);
    }
}

/// The bound of the whole run covers `lim0` plus one per move.
proof fn lemma_run_lim(input: Seq<char>, lim0: int)
    requires
        sizes_fit(input),
        lim0 + input_moves(input).len() <= run_lim(input),
    ensures
        101 * (lim0 + input_moves(input).len()) * (grid_items(map_rows(input)).len() + 1) <= isize::MAX,
{
    let l = lim0 + input_moves(input).len();
    let n = grid_items(map_rows(input)).len() + 1;
    assert(101 * l * n <= 101 * run_lim(input) * n) by (nonlinear_arith)
        requires
            l <= run_lim(input),
            0 <= n,
    ;
}

/// The robot makes every move in turn.
fn run_moves(w: &mut Warehouse, moves: &Vec<Ix2s>, Ghost(lim0): Ghost<int>)
    requires
        coords_in(old(w).items@, old(w).robot, lim0),
        0 <= lim0,
        forall|k: int| 0 <= k < moves@.len() ==> unit(#[trigger] moves@[k]),
        101 * (lim0 + moves@.len()) * (old(w).items@.len() + 1) <= isize::MAX,
    ensures
        (final(w).items@, final(w).robot) == run(old(w).items@, old(w).robot, moves@),
        gps_fits(final(w).items@),
{
    let ghost s0 = w.items@;
    let ghost r0 = w.robot;
    let n = moves.len();
    let mut i: usize = 0;
    proof {
        assert(moves@.take(0) =~= Seq::<Ix2s>::empty());
        assert(101 * (lim0 + moves@.len()) <= 101 * (lim0 + moves@.len()) * (s0.len() + 1)) by (nonlinear_arith)
            requires
                lim0 + moves@.len() >= 0,
                s0.len() >= 0,
        ;
        assert(101 * (lim0 + moves@.len()) * s0.len() <= 101 * (lim0 + moves@.len()) * (s0.len() + 1)) by (nonlinear_arith)
            requires
                lim0 + moves@.len() >= 0,
                s0.len() >= 0,
        ;
    }
    while i < n
        invariant
            n == moves@.len(),
            i <= n,
            forall|k: int| 0 <= k < moves@.len() ==> unit(#[trigger] moves@[k]),
            lim0 + n <= isize::MAX - 1,
            101 * (lim0 + n) * s0.len() <= isize::MAX,
            0 <= lim0,
            coords_in(w.items@, w.robot, lim0 + i),
            w.items@.len() == s0.len(),
            (w.items@, w.robot) == run(s0, r0, moves@.take(i as int)),
        decreases n - i,
    {
        let d = moves[i];
        proof {
            assert(unit(moves@[i as int]));
            lemma_fits_dir(w.items@, w.robot, d, lim0 + i);
            lemma_step_coords(w.items@, w.robot, d, lim0 + i);
            assert(moves@.take(i + 1).drop_last() =~= moves@.take(i as int));
        }
        w.move_robot(d);
        i += 1;
    }
    proof {
        assert(moves@.take(n as int) =~= moves@);
        lemma_gps_fits(w.items@, w.robot, lim0 + n);
    }
}

/// Sum of the boxes' GPS coordinates once the robot has made all its moves.
pub fn part1(input: &str) -> (total: isize)
    requires
        input_ok(input@),
        sizes_fit(input@),
    ensures
        total == gps_total(run(grid_items(map_rows(input@)), robot_start(map_rows(input@)), input_moves(input@)).0),
{
    let (mut warehouse, moves) = parse_input(input);
    let ghost rows = map_rows(input@);
    let ghost lim0 = rows.len() + if rows.len() > 0 { rows[0].len() as int } else { 0 };
    proof {
        lemma_sizes(input@);
        lemma_moves_unit(parse::split_blank(input@)[1]);
        lemma_grid_coords(rows);
        lemma_robot_coords(rows);
        lemma_run_lim(input@, lim0);
    }
    run_moves(&mut warehouse, &moves, Ghost(lim0));
    warehouse.gps_sum()
}

/// The same run in the warehouse twice as wide.
pub fn part2(input: &str) -> (total: isize)
    requires
        input_ok(input@),
        sizes_fit(input@),
    ensures
        total == gps_total(
            run(
                widened(grid_items(map_rows(input@))),
                Ix2s(robot_start(map_rows(input@)).0, (robot_start(map_rows(input@)).1 * 2) as isize),
                input_moves(input@),
            ).0,
        ),
{
    let (warehouse, moves) = parse_input(input);
    let ghost rows = map_rows(input@);
    let ghost lim0 = rows.len() + if rows.len() > 0 { rows[0].len() as int } else { 0 };
    proof {
        lemma_sizes(input@);
        lemma_moves_unit(parse::split_blank(input@)[1]);
        lemma_grid_coords(rows);
        lemma_robot_coords(rows);
        lemma_run_lim(input@, 2 * lim0);
        lemma_widen_coords(warehouse.items@, warehouse.robot, lim0);
    }
    let mut warehouse = warehouse.widen();
    run_moves(&mut warehouse, &moves, Ghost(2 * lim0));
    warehouse.gps_sum()
}

} // verus!
