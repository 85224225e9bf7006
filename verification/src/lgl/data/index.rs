use vstd::prelude::*;

verus! {

/// Signed 2D index
#[derive(Clone, Copy, Debug, Hash, PartialEq, Eq, Structural)]
pub struct Ix2s(pub isize, pub isize);

/// Both coordinates of `a + b` fit in an `isize`.
pub open spec fn add_fits(a: Ix2s, b: Ix2s) -> bool {
    isize::MIN <= a.0 + b.0 <= isize::MAX && isize::MIN <= a.1 + b.1 <= isize::MAX
}

/// Both coordinates of `a - b` fit in an `isize`.
pub open spec fn sub_fits(a: Ix2s, b: Ix2s) -> bool {
    isize::MIN <= a.0 - b.0 <= isize::MAX && isize::MIN <= a.1 - b.1 <= isize::MAX
}

/// Both coordinates of `a * k` fit in an `isize`.
pub open spec fn mul_fits(a: Ix2s, k: isize) -> bool {
    isize::MIN <= a.0 * k <= isize::MAX && isize::MIN <= a.1 * k <= isize::MAX
}

impl Ix2s {
    /// Coordinate-wise sum.
    pub fn add(self, rhs: Ix2s) -> (r: Ix2s)
        requires
            add_fits(self, rhs),
        ensures
            r.0 == self.0 + rhs.0,
            r.1 == self.1 + rhs.1,
    {
        Ix2s(self.0 + rhs.0, self.1 + rhs.1)
    }

    /// Coordinate-wise difference.
    pub fn sub(self, rhs: Ix2s) -> (r: Ix2s)
        requires
            sub_fits(self, rhs),
        ensures
            r.0 == self.0 - rhs.0,
            r.1 == self.1 - rhs.1,
    {
        Ix2s(self.0 - rhs.0, self.1 - rhs.1)
    }

    /// Both coordinates multiplied by `k`.
    pub fn mul(self, k: isize) -> (r: Ix2s)
        requires
            mul_fits(self, k),
        ensures
            r.0 == self.0 * k,
            r.1 == self.1 * k,
    {
        Ix2s(self.0 * k, self.1 * k)
    }

    /// The index of an unsigned pair, when both coordinates fit in an `isize`.
    pub fn from_upair(u: (usize, usize)) -> (r: Option<Ix2s>)
        ensures
            r is Some <==> u.0 <= isize::MAX && u.1 <= isize::MAX,
            r matches Some(i) ==> i.0 == u.0 && i.1 == u.1,
    {
        if u.0 <= isize::MAX as usize && u.1 <= isize::MAX as usize {
            Some(Ix2s(u.0 as isize, u.1 as isize))
        } else {
            None
        }
    }

    /// The unsigned pair of this index, when both coordinates are non-negative.
    pub fn to_upair(self) -> (r: Option<(usize, usize)>)
        ensures
            r is Some <==> self.0 >= 0 && self.1 >= 0,
            r matches Some(u) ==> u.0 == self.0 && u.1 == self.1,
    {
        if self.0 >= 0 && self.1 >= 0 {
            Some((self.0 as usize, self.1 as usize))
        } else {
            None
        }
    }
}

} // verus!
