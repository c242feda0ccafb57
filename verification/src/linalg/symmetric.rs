//! A symmetric matrix in packed triangular storage.
//!
//! A matrix of side `n` keeps one slot per unordered coordinate pair, so
//! `tri(n) = n * (n + 1) / 2` slots in all: reading or writing `(i, j)`
//! touches exactly the slot of `(j, i)`, and symmetry holds by construction.

use vstd::prelude::*;

verus! {

use vstd::arithmetic::div_mod::lemma_hoist_over_denominator;
use crate::fixed::Fx;

/// The triangular number `0 + 1 + ... + n`, the number of coefficient slots
/// a packed symmetric matrix of side `n` holds.
pub open spec fn tri(n: int) -> int
    decreases n,
{
    if n <= 0 {
        0
    } else {
        tri(n - 1) + n
    }
}

/// Triangular numbers grow with their argument.
proof fn lemma_tri_monotonic(a: int, b: int)
    requires
        0 <= a <= b,
    ensures
        tri(a) <= tri(b),
    decreases b,
{
    if a < b {
        lemma_tri_monotonic(a, b - 1);
    }
}

/// The closed form of the triangular numbers: `tri(h) == h * (h + 1) / 2`.
pub proof fn lemma_tri_closed_form(h: int)
    requires
        0 <= h,
    ensures
        tri(h) == h * (h + 1) / 2,
    decreases h,
{
    if h > 0 {
        lemma_tri_closed_form(h - 1);
        assert(tri(h) == tri(h - 1) + h);
        assert(tri(h - 1) == (h - 1) * h / 2);
        lemma_hoist_over_denominator((h - 1) * h, h, 2nat);
        assert((h - 1) * h / 2 + h == ((h - 1) * h + h * 2) / 2);
        assert((h - 1) * h + h * 2 == h * (h + 1)) by (nonlinear_arith);
    } else {
        assert(h * (h + 1) == 0) by (nonlinear_arith)
            requires
                h == 0,
        ;
    }
}

/// The slot of the ordered pair `lo <= hi` lies inside the packed storage
/// of any matrix whose side exceeds `hi`.
proof fn lemma_offset_in_range(lo: int, hi: int, n: int)
    requires
        0 <= lo <= hi < n,
    ensures
        0 <= tri(hi) + lo < tri(n),
{
    lemma_tri_monotonic(0, hi);
    lemma_tri_monotonic(hi + 1, n);
}

/// Distinct ordered pairs occupy distinct slots.
proof fn lemma_offset_injective(lo1: int, hi1: int, lo2: int, hi2: int)
    requires
        0 <= lo1 <= hi1,
        0 <= lo2 <= hi2,
        tri(hi1) + lo1 == tri(hi2) + lo2,
    ensures
        lo1 == lo2,
        hi1 == hi2,
{
    if hi1 < hi2 {
        lemma_tri_monotonic(hi1 + 1, hi2);
    } else if hi2 < hi1 {
        lemma_tri_monotonic(hi2 + 1, hi1);
    }
}

/// Orders a coordinate pair so that the smaller index comes first.
fn order_tuple(t: (usize, usize)) -> (r: (usize, usize))
    ensures
        r.0 <= r.1,
        r == t || (r.0 == t.1 && r.1 == t.0),
{
    if t.0 < t.1 {
        t
    } else {
        (t.1, t.0)
    }
}

/// The packed slot of the ordered pair `lo <= hi`.
fn offset_of(lo: usize, hi: usize) -> (k: usize)
    requires
        lo <= hi,
        tri(hi as int) + lo as int <= usize::MAX as int,
    ensures
        k as int == tri(hi as int) + lo as int,
{
    proof {
        lemma_tri_closed_form(hi as int);
        lemma_tri_monotonic(0, hi as int);
        assert((hi as int) * ((hi as int) + 1) <= (u64::MAX as int) * ((u64::MAX as int) + 1))
            by (nonlinear_arith)
            requires
                0 <= hi as int <= u64::MAX as int,
        ;
    }
    let k128: u128 = (hi as u128) * ((hi as u128) + 1) / 2 + (lo as u128);
    k128 as usize
}

/// Represents a symmetric matrix.
///
/// For all `i` and `j` in range, the coordinate pairs `(i, j)` and `(j, i)`
/// address the same storage slot.
pub struct SymmetricMatrix {
    size: usize,
    values: Vec<Fx>,
}

impl SymmetricMatrix {
    /// The side length, as a mathematical integer.
    pub closed spec fn spec_size(self) -> int {
        self.size as int
    }

    /// The coefficient stored for the unordered pair `(i, j)`.
    pub closed spec fn spec_at(self, i: int, j: int) -> Fx {
        if i <= j {
            self.values@[tri(j) + i]
        } else {
            self.values@[tri(i) + j]
        }
    }

    /// Well-formed: the storage holds exactly one slot per unordered pair,
    /// and every coefficient is a well-formed scalar.
    pub closed spec fn wf(self) -> bool {
        &&& self.values@.len() == tri(self.size as int)
        &&& forall|k: int| 0 <= k < self.values@.len() ==> (#[trigger] self.values@[k]).wf()
    }

    /// Create a new `n x n` symmetric matrix filled with zeros.
    ///
    /// The packed size `tri(n)` must fit the index arithmetic; exactly that
    /// many slots are allocated.
    pub fn zeros(n: usize) -> (m: SymmetricMatrix)
        requires
            tri(n as int) <= usize::MAX as int,
        ensures
            m.wf(),
            m.spec_size() == n as int,
            forall|i: int, j: int|
                0 <= i < n as int && 0 <= j < n as int ==> (#[trigger] m.spec_at(i, j)).raw
                    == 0,
    {
        proof {
            lemma_tri_closed_form(n as int);
            assert((n as int) * ((n as int) + 1) <= (u64::MAX as int) * ((u64::MAX as int) + 1))
                by (nonlinear_arith)
                requires
                    0 <= n as int <= u64::MAX as int,
            ;
        }
        let count128: u128 = (n as u128) * ((n as u128) + 1) / 2;
        let count: usize = count128 as usize;
        let mut values: Vec<Fx> = Vec::new();
        let mut k: usize = 0;
        while k < count
            invariant
                values@.len() == k as int,
                k <= count,
                forall|t: int| 0 <= t < k as int ==> (#[trigger] values@[t]).raw == 0,
            decreases count - k,
        {
            values.push(Fx::zero());
            k = k + 1;
        }
        let m = SymmetricMatrix { size: n, values };
        proof {
            assert forall|i: int, j: int|
                0 <= i < n as int && 0 <= j < n as int implies (#[trigger] m.spec_at(i, j)).raw
                == 0 by {
                if i <= j {
                    lemma_offset_in_range(i, j, n as int);
                } else {
                    lemma_offset_in_range(j, i, n as int);
                }
            }
        }
        m
    }

    /// The size of a side of the matrix.
    ///
    /// If it returns `n`, the matrix is thus an `n x n` matrix.
    pub fn size(&self) -> (n: usize)
        ensures
            n as int == self.spec_size(),
    {
        self.size
    }

    /// The number of coefficient slots the matrix allocates: exactly
    /// `n * (n + 1) / 2` for side `n`, independent of the access pattern.
    pub fn coeff_count(&self) -> (c: usize)
        requires
            self.wf(),
        ensures
            c as int == tri(self.spec_size()),
            c as int == self.spec_size() * (self.spec_size() + 1) / 2,
    {
        proof {
            lemma_tri_closed_form(self.size as int);
        }
        self.values.len()
    }

    /// The coefficient of the unordered pair `(i, j)`.
    pub fn get(&self, i: usize, j: usize) -> (v: Fx)
        requires
            self.wf(),
            (i as int) < self.spec_size(),
            (j as int) < self.spec_size(),
        ensures
            v == self.spec_at(i as int, j as int),
            v.wf(),
    {
        let t = order_tuple((i, j));
        let _stored: usize = self.values.len();
        proof {
            lemma_offset_in_range(t.0 as int, t.1 as int, self.size as int);
        }
        let k = offset_of(t.0, t.1);
        self.values[k]
    }

    /// Overwrite the single shared slot of the unordered pair `(i, j)`:
    /// writing through `(i, j)` is indistinguishable from writing through
    /// `(j, i)`, and no other pair is affected.
    pub fn set(&mut self, i: usize, j: usize, value: Fx)
        requires
            old(self).wf(),
            (i as int) < old(self).spec_size(),
            (j as int) < old(self).spec_size(),
            value.wf(),
        ensures
            final(self).wf(),
            final(self).spec_size() == old(self).spec_size(),
            final(self).spec_at(i as int, j as int) == value,
            final(self).spec_at(j as int, i as int) == value,
            forall|a: int, b: int|
                0 <= a < old(self).spec_size() && 0 <= b < old(self).spec_size() && !(a == i as int
                    && b == j as int) && !(a == j as int && b == i as int)
                    ==> final(self).spec_at(a, b) == old(self).spec_at(a, b),
    {
        let t = order_tuple((i, j));
        let _stored: usize = self.values.len();
        proof {
            lemma_offset_in_range(t.0 as int, t.1 as int, self.size as int);
        }
        let k = offset_of(t.0, t.1);
        self.values.set(k, value);
        proof {
            let lo = t.0 as int;
            let hi = t.1 as int;
            assert forall|a: int, b: int|
                0 <= a < old(self).spec_size() && 0 <= b < old(self).spec_size() && !(a == i as int
                    && b == j as int) && !(a == j as int && b == i as int) implies self.spec_at(
                a,
                b,
            ) == old(self).spec_at(a, b) by {
                let lo2 = if a <= b {
                    a
                } else {
                    b
                };
                let hi2 = if a <= b {
                    b
                } else {
                    a
                };
                lemma_offset_in_range(lo2, hi2, old(self).spec_size());
                if tri(hi2) + lo2 == tri(hi) + lo {
                    lemma_offset_injective(lo2, hi2, lo, hi);
                }
            }
        }
    }
}

/// Reading a coordinate pair in either order yields the identical stored
/// coefficient: both orderings resolve to the same slot.
pub proof fn lemma_symmetric(m: SymmetricMatrix, i: int, j: int)
    ensures
        m.spec_at(i, j) == m.spec_at(j, i),
{
}

} // verus!
