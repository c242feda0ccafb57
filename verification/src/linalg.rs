//! Basic linear algebra utilities.
//!
//! This module introduces the `Vector` and `Matrix` types, used for basic
//! linear algebra calculus in the library, and the packed symmetric matrix
//! backing the Boltzmann machine's pairwise weights. All arithmetic is
//! elementwise saturating fixed-point arithmetic, pinned down exactly by
//! the spec functions of [`crate::fixed`].

use vstd::prelude::*;

pub mod symmetric;

verus! {

use crate::fixed::Fx;
use crate::fixed::SCALE;
use crate::fixed::sat_add;
use crate::fixed::sat_mul;
use crate::fixed::sat_div;
use crate::rng::Sampler;

/// Every scalar of the sequence is well formed.
pub open spec fn all_wf(s: Seq<Fx>) -> bool {
    forall|k: int| 0 <= k < s.len() ==> (#[trigger] s[k]).wf()
}

/// The saturating scalar product of two sequences, folded in index order
/// over the first `k` pairs, starting from zero.
pub open spec fn dot_partial(a: Seq<Fx>, b: Seq<Fx>, k: int) -> int
    decreases k,
{
    if k <= 0 {
        0
    } else {
        sat_add(dot_partial(a, b, k - 1), sat_mul(a[k - 1].raw as int, b[k - 1].raw as int))
    }
}

/// A vector.
///
/// Can be used for various computation as long as the sizes of the vectors
/// and/or matrices are compatible; the contracts require compatible sizes
/// up front.
#[derive(Debug)]
pub struct Vector {
    v: Vec<Fx>,
}

impl PartialEq for Vector {
    /// Two vectors are equal when they store the same scalars.
    fn eq(&self, other: &Vector) -> (r: bool) {
        if self.v.len() != other.v.len() {
            return false;
        }
        let mut k: usize = 0;
        while k < self.v.len()
            invariant
                self.v@.len() == other.v@.len(),
                k <= self.v@.len(),
                forall|t: int| 0 <= t < k as int ==> self.v@[t] == other.v@[t],
            decreases self.v@.len() - k,
        {
            if self.v[k].raw != other.v[k].raw {
                return false;
            }
            k = k + 1;
        }
        proof {
            assert(self.v@ =~= other.v@);
        }
        true
    }
}

impl vstd::std_specs::cmp::PartialEqSpecImpl for Vector {
    open spec fn obeys_eq_spec() -> bool {
        true
    }

    open spec fn eq_spec(&self, other: &Vector) -> bool {
        self.spec_vals() == other.spec_vals()
    }
}

impl Vector {
    /// The stored scalars.
    pub closed spec fn spec_vals(self) -> Seq<Fx> {
        self.v@
    }

    /// Well-formed: every entry is a well-formed scalar.
    pub open spec fn wf(self) -> bool {
        all_wf(self.spec_vals())
    }

    /// Create a new zero-filled vector.
    pub fn zeros(size: usize) -> (r: Vector)
        ensures
            r.wf(),
            r.spec_vals().len() == size as int,
            forall|k: int| 0 <= k < size as int ==> (#[trigger] r.spec_vals()[k]).raw == 0,
    {
        let mut v: Vec<Fx> = Vec::new();
        while v.len() < size
            invariant
                v@.len() <= size as int,
                forall|k: int| 0 <= k < v@.len() ==> (#[trigger] v@[k]).raw == 0,
            decreases size - v.len(),
        {
            v.push(Fx::zero());
        }
        Vector { v }
    }

    /// Create a new one-filled vector.
    pub fn ones(size: usize) -> (r: Vector)
        ensures
            r.wf(),
            r.spec_vals().len() == size as int,
            forall|k: int| 0 <= k < size as int ==> (#[trigger] r.spec_vals()[k]).raw == SCALE,
    {
        let mut v: Vec<Fx> = Vec::new();
        while v.len() < size
            invariant
                v@.len() <= size as int,
                forall|k: int| 0 <= k < v@.len() ==> (#[trigger] v@[k]).raw == SCALE,
            decreases size - v.len(),
        {
            v.push(Fx::one());
        }
        Vector { v }
    }

    /// Creates a vector from the values of the given slice by copying them.
    pub fn from_slice(s: &[Fx]) -> (r: Vector)
        ensures
            r.spec_vals() == s@,
    {
        let mut v: Vec<Fx> = Vec::new();
        let mut k: usize = 0;
        while k < s.len()
            invariant
                k <= s@.len(),
                v@.len() == k as int,
                forall|t: int| 0 <= t < k as int ==> v@[t] == s@[t],
            decreases s@.len() - k,
        {
            v.push(s[k]);
            k = k + 1;
        }
        proof {
            assert(v@ =~= s@);
        }
        Vector { v }
    }

    /// Maps the given closure over the values of this vector to create a
    /// new one of the same size.
    pub fn map(&self, f: impl Fn(Fx) -> Fx) -> (r: Vector)
        requires
            forall|k: int|
                0 <= k < self.spec_vals().len() ==> call_requires(f, (self.spec_vals()[k],)),
        ensures
            r.spec_vals().len() == self.spec_vals().len(),
            forall|k: int|
                0 <= k < self.spec_vals().len() ==> call_ensures(
                    f,
                    (self.spec_vals()[k],),
                    #[trigger] r.spec_vals()[k],
                ),
    {
        let mut v: Vec<Fx> = Vec::new();
        let mut k: usize = 0;
        while k < self.v.len()
            invariant
                k <= self.spec_vals().len(),
                v@.len() == k as int,
                forall|t: int|
                    0 <= t < self.spec_vals().len() ==> call_requires(f, (self.spec_vals()[t],)),
                forall|t: int|
                    0 <= t < k as int ==> call_ensures(
                        f,
                        (self.spec_vals()[t],),
                        #[trigger] v@[t],
                    ),
            decreases self.spec_vals().len() - k,
        {
            v.push(f(self.v[k]));
            k = k + 1;
        }
        Vector { v }
    }

    /// Create a new vector filled with uniform random values in `[0, 1)`.
    pub fn random(size: usize, rng: &mut Sampler) -> (r: Vector)
        ensures
            r.wf(),
            r.spec_vals().len() == size as int,
            forall|k: int|
                0 <= k < size as int ==> 0 <= (#[trigger] r.spec_vals()[k]).raw < SCALE,
    {
        let mut v: Vec<Fx> = Vec::new();
        while v.len() < size
            invariant
                v@.len() <= size as int,
                forall|k: int|
                    0 <= k < v@.len() ==> (#[trigger] v@[k]).wf() && 0 <= v@[k].raw < SCALE,
            decreases size - v.len(),
        {
            let u = rng.unit();
            v.push(u);
        }
        Vector { v }
    }

    /// The size (or dimension) of this vector.
    pub fn dim(&self) -> (d: usize)
        ensures
            d as int == self.spec_vals().len(),
    {
        self.v.len()
    }

    /// The entry at index `i`.
    pub fn get(&self, i: usize) -> (x: Fx)
        requires
            (i as int) < self.spec_vals().len(),
        ensures
            x == self.spec_vals()[i as int],
            self.wf() ==> x.wf(),
    {
        self.v[i]
    }

    /// Overwrite the entry at index `i`.
    pub fn set(&mut self, i: usize, x: Fx)
        requires
            (i as int) < old(self).spec_vals().len(),
        ensures
            final(self).spec_vals() == old(self).spec_vals().update(i as int, x),
    {
        self.v.set(i, x);
    }

    /// Converts this vector into a single row matrix.
    pub fn into_row_matrix(self) -> (m: Matrix)
        requires
            self.spec_vals().len() >= 1,
        ensures
            m.spec_width() == self.spec_vals().len(),
            m.spec_height() == 1,
            m.wf() == self.wf(),
            forall|j: int|
                0 <= j < self.spec_vals().len() ==> m.spec_at(0, j) == #[trigger] self.spec_vals()[j],
    {
        let w = self.v.len();
        let m = Matrix { w, v: self.v };
        proof {
            vstd::arithmetic::div_mod::lemma_mod_self_0(w as int);
            vstd::arithmetic::div_mod::lemma_div_by_self(w as int);
        }
        m
    }

    /// Converts this vector into a single column matrix.
    pub fn into_column_matrix(self) -> (m: Matrix)
        ensures
            m.spec_width() == 1,
            m.spec_height() == self.spec_vals().len(),
            m.wf() == self.wf(),
            forall|i: int|
                0 <= i < self.spec_vals().len() ==> m.spec_at(i, 0) == #[trigger] self.spec_vals()[i],
    {
        Matrix { w: 1, v: self.v }
    }

    /// Elementwise saturating sum of two vectors of one dimension.
    pub fn add(&self, rhs: &Vector) -> (r: Vector)
        requires
            self.wf(),
            rhs.wf(),
            rhs.spec_vals().len() == self.spec_vals().len(),
        ensures
            r.wf(),
            r.spec_vals().len() == self.spec_vals().len(),
            forall|k: int|
                0 <= k < self.spec_vals().len() ==> (#[trigger] r.spec_vals()[k]).raw == sat_add(
                    self.spec_vals()[k].raw as int,
                    rhs.spec_vals()[k].raw as int,
                ),
    {
        let mut v: Vec<Fx> = Vec::new();
        let mut k: usize = 0;
        while k < self.v.len()
            invariant
                self.wf(),
                rhs.wf(),
                rhs.spec_vals().len() == self.spec_vals().len(),
                k <= self.spec_vals().len(),
                v@.len() == k as int,
                forall|t: int|
                    0 <= t < k as int ==> (#[trigger] v@[t]).wf() && v@[t].raw == sat_add(
                        self.spec_vals()[t].raw as int,
                        rhs.spec_vals()[t].raw as int,
                    ),
            decreases self.spec_vals().len() - k,
        {
            v.push(self.v[k].add(rhs.v[k]));
            k = k + 1;
        }
        Vector { v }
    }

    /// Elementwise saturating difference of two vectors of one dimension.
    pub fn sub(&self, rhs: &Vector) -> (r: Vector)
        requires
            self.wf(),
            rhs.wf(),
            rhs.spec_vals().len() == self.spec_vals().len(),
        ensures
            r.wf(),
            r.spec_vals().len() == self.spec_vals().len(),
            forall|k: int|
                0 <= k < self.spec_vals().len() ==> (#[trigger] r.spec_vals()[k]).raw == sat_add(
                    self.spec_vals()[k].raw as int,
                    -(rhs.spec_vals()[k].raw as int),
                ),
    {
        let mut v: Vec<Fx> = Vec::new();
        let mut k: usize = 0;
        while k < self.v.len()
            invariant
                self.wf(),
                rhs.wf(),
                rhs.spec_vals().len() == self.spec_vals().len(),
                k <= self.spec_vals().len(),
                v@.len() == k as int,
                forall|t: int|
                    0 <= t < k as int ==> (#[trigger] v@[t]).wf() && v@[t].raw == sat_add(
                        self.spec_vals()[t].raw as int,
                        -(rhs.spec_vals()[t].raw as int),
                    ),
            decreases self.spec_vals().len() - k,
        {
            v.push(self.v[k].sub(rhs.v[k]));
            k = k + 1;
        }
        Vector { v }
    }

    /// The saturating scalar product of two vectors of one dimension.
    pub fn dot(&self, rhs: &Vector) -> (r: Fx)
        requires
            self.wf(),
            rhs.wf(),
            rhs.spec_vals().len() == self.spec_vals().len(),
        ensures
            r.wf(),
            r.raw as int == dot_partial(
                self.spec_vals(),
                rhs.spec_vals(),
                self.spec_vals().len() as int,
            ),
    {
        let mut acc: Fx = Fx::zero();
        let mut k: usize = 0;
        while k < self.v.len()
            invariant
                self.wf(),
                rhs.wf(),
                rhs.spec_vals().len() == self.spec_vals().len(),
                k <= self.spec_vals().len(),
                acc.wf(),
                acc.raw as int == dot_partial(self.spec_vals(), rhs.spec_vals(), k as int),
            decreases self.spec_vals().len() - k,
        {
            acc = acc.add(self.v[k].mul(rhs.v[k]));
            k = k + 1;
        }
        acc
    }

    /// This vector with every entry multiplied by the scalar `c`.
    pub fn scale(&self, c: Fx) -> (r: Vector)
        requires
            self.wf(),
            c.wf(),
        ensures
            r.wf(),
            r.spec_vals().len() == self.spec_vals().len(),
            forall|k: int|
                0 <= k < self.spec_vals().len() ==> (#[trigger] r.spec_vals()[k]).raw == sat_mul(
                    self.spec_vals()[k].raw as int,
                    c.raw as int,
                ),
    {
        let mut v: Vec<Fx> = Vec::new();
        let mut k: usize = 0;
        while k < self.v.len()
            invariant
                self.wf(),
                c.wf(),
                k <= self.spec_vals().len(),
                v@.len() == k as int,
                forall|t: int|
                    0 <= t < k as int ==> (#[trigger] v@[t]).wf() && v@[t].raw == sat_mul(
                        self.spec_vals()[t].raw as int,
                        c.raw as int,
                    ),
            decreases self.spec_vals().len() - k,
        {
            v.push(self.v[k].mul(c));
            k = k + 1;
        }
        Vector { v }
    }

    /// This vector with every entry divided by the scalar `c`.
    pub fn div_scalar(&self, c: Fx) -> (r: Vector)
        requires
            self.wf(),
            c.wf(),
            c.raw != 0,
        ensures
            r.wf(),
            r.spec_vals().len() == self.spec_vals().len(),
            forall|k: int|
                0 <= k < self.spec_vals().len() ==> (#[trigger] r.spec_vals()[k]).raw == sat_div(
                    self.spec_vals()[k].raw as int,
                    c.raw as int,
                ),
    {
        let mut v: Vec<Fx> = Vec::new();
        let mut k: usize = 0;
        while k < self.v.len()
            invariant
                self.wf(),
                c.wf(),
                c.raw != 0,
                k <= self.spec_vals().len(),
                v@.len() == k as int,
                forall|t: int|
                    0 <= t < k as int ==> (#[trigger] v@[t]).wf() && v@[t].raw == sat_div(
                        self.spec_vals()[t].raw as int,
                        c.raw as int,
                    ),
            decreases self.spec_vals().len() - k,
        {
            v.push(self.v[k].div(c));
            k = k + 1;
        }
        Vector { v }
    }
}

/// A matrix.
///
/// Stored in row-major order; the width is at least one, so row and column
/// coordinates are always meaningful.
#[derive(Debug)]
pub struct Matrix {
    w: usize,
    v: Vec<Fx>,
}

impl PartialEq for Matrix {
    /// Two matrices are equal when they have one width and store the same
    /// scalars.
    fn eq(&self, other: &Matrix) -> (r: bool) {
        if self.w != other.w || self.v.len() != other.v.len() {
            return false;
        }
        let mut k: usize = 0;
        while k < self.v.len()
            invariant
                self.v@.len() == other.v@.len(),
                k <= self.v@.len(),
                forall|t: int| 0 <= t < k as int ==> self.v@[t] == other.v@[t],
            decreases self.v@.len() - k,
        {
            if self.v[k].raw != other.v[k].raw {
                return false;
            }
            k = k + 1;
        }
        proof {
            assert(self.v@ =~= other.v@);
        }
        true
    }
}

impl vstd::std_specs::cmp::PartialEqSpecImpl for Matrix {
    open spec fn obeys_eq_spec() -> bool {
        true
    }

    open spec fn eq_spec(&self, other: &Matrix) -> bool {
        self.spec_width() == other.spec_width() && self.spec_vals() == other.spec_vals()
    }
}

impl Matrix {
    /// The stored scalars, in row-major order.
    pub closed spec fn spec_vals(self) -> Seq<Fx> {
        self.v@
    }

    /// The number of columns.
    pub closed spec fn spec_width(self) -> int {
        self.w as int
    }

    /// The number of rows.
    pub open spec fn spec_height(self) -> int {
        self.spec_vals().len() as int / self.spec_width()
    }

    /// The entry at row `i`, column `j`.
    pub open spec fn spec_at(self, i: int, j: int) -> Fx {
        self.spec_vals()[i * self.spec_width() + j]
    }

    /// Well-formed: positive width, whole rows, well-formed entries.
    pub open spec fn wf(self) -> bool {
        &&& self.spec_width() >= 1
        &&& self.spec_vals().len() as int % self.spec_width() == 0
        &&& all_wf(self.spec_vals())
    }

    /// The flat row-major slot of the cell `c`.
    fn coords_to_index(&self, c: (usize, usize)) -> (k: usize)
        requires
            self.wf(),
            (c.0 as int) < self.spec_height(),
            (c.1 as int) < self.spec_width(),
        ensures
            k as int == c.0 as int * self.spec_width() + c.1 as int,
            (k as int) < self.spec_vals().len(),
    {
        let _stored: usize = self.v.len();
        proof {
            lemma_flat_of_cell(c.0 as int, c.1 as int, self.spec_height(), self.spec_width());
            vstd::arithmetic::div_mod::lemma_fundamental_div_mod(
                _stored as int,
                self.spec_width(),
            );
            assert(self.spec_width() * self.spec_height() == self.spec_height()
                * self.spec_width()) by (nonlinear_arith);
        }
        c.0 * self.w + c.1
    }

    /// Create a new zero-filled matrix.
    pub fn zeros(height: usize, width: usize) -> (m: Matrix)
        requires
            width >= 1,
            height * width <= usize::MAX,
        ensures
            m.wf(),
            m.spec_height() == height as int,
            m.spec_width() == width as int,
            forall|t: int| 0 <= t < m.spec_vals().len() ==> (#[trigger] m.spec_vals()[t]).raw == 0,
    {
        let len: usize = height * width;
        let mut v: Vec<Fx> = Vec::new();
        while v.len() < len
            invariant
                v@.len() <= len as int,
                forall|k: int| 0 <= k < v@.len() ==> (#[trigger] v@[k]).raw == 0,
            decreases len - v.len(),
        {
            v.push(Fx::zero());
        }
        proof {
            lemma_whole_rows(height as int, width as int);
        }
        Matrix { w: width, v }
    }

    /// Create a new one-filled matrix.
    pub fn ones(height: usize, width: usize) -> (m: Matrix)
        requires
            width >= 1,
            height * width <= usize::MAX,
        ensures
            m.wf(),
            m.spec_height() == height as int,
            m.spec_width() == width as int,
            forall|t: int|
                0 <= t < m.spec_vals().len() ==> (#[trigger] m.spec_vals()[t]).raw == SCALE,
    {
        let len: usize = height * width;
        let mut v: Vec<Fx> = Vec::new();
        while v.len() < len
            invariant
                v@.len() <= len as int,
                forall|k: int| 0 <= k < v@.len() ==> (#[trigger] v@[k]).raw == SCALE,
            decreases len - v.len(),
        {
            v.push(Fx::one());
        }
        proof {
            lemma_whole_rows(height as int, width as int);
        }
        Matrix { w: width, v }
    }

    /// Create a new matrix filled with uniform random values in `[0, 1)`.
    pub fn random(height: usize, width: usize, rng: &mut Sampler) -> (m: Matrix)
        requires
            width >= 1,
            height * width <= usize::MAX,
        ensures
            m.wf(),
            m.spec_height() == height as int,
            m.spec_width() == width as int,
            forall|t: int|
                0 <= t < m.spec_vals().len() ==> 0 <= (#[trigger] m.spec_vals()[t]).raw < SCALE,
    {
        let len: usize = height * width;
        let mut v: Vec<Fx> = Vec::new();
        while v.len() < len
            invariant
                v@.len() <= len as int,
                forall|k: int|
                    0 <= k < v@.len() ==> (#[trigger] v@[k]).wf() && 0 <= v@[k].raw < SCALE,
            decreases len - v.len(),
        {
            let u = rng.unit();
            v.push(u);
        }
        proof {
            lemma_whole_rows(height as int, width as int);
        }
        Matrix { w: width, v }
    }

    /// Create a new matrix from the given rows, which must be nonempty and
    /// all of one length.
    pub fn from_slices(rows: &Vec<Vec<Fx>>) -> (m: Matrix)
        requires
            rows@.len() >= 1,
            rows@[0]@.len() >= 1,
            forall|r: int| 0 <= r < rows@.len() ==> (#[trigger] rows@[r]@).len() == rows@[0]@.len(),
            rows@.len() * rows@[0]@.len() <= usize::MAX,
        ensures
            m.spec_height() == rows@.len(),
            m.spec_width() == rows@[0]@.len(),
            m.spec_width() >= 1,
            m.spec_vals().len() as int % m.spec_width() == 0,
            forall|i: int, j: int|
                0 <= i < rows@.len() && 0 <= j < rows@[0]@.len() ==> #[trigger] m.spec_at(i, j)
                    == rows@[i]@[j],
            (forall|i: int, j: int|
                0 <= i < rows@.len() && 0 <= j < rows@[0]@.len() ==> (#[trigger] rows@[i]@[j]).wf())
                ==> m.wf(),
    {
        let h = rows.len();
        let w = rows[0].len();
        let ghost hw = rows@.len() * rows@[0]@.len();
        let mut v: Vec<Fx> = Vec::new();
        let mut r: usize = 0;
        while r < h
            invariant
                r <= h,
                h == rows@.len(),
                w as int == rows@[0]@.len(),
                w >= 1,
                hw == rows@.len() * rows@[0]@.len() <= usize::MAX,
                forall|t: int| 0 <= t < rows@.len() ==> (#[trigger] rows@[t]@).len() == w as int,
                v@.len() == r as int * w as int,
                forall|a: int, b: int|
                    0 <= a < r as int && 0 <= b < w as int ==> v@[a * (w as int) + b]
                        == #[trigger] rows@[a]@[b],
            decreases h - r,
        {
            proof {
                assert((r as int + 1) * (w as int) <= rows@.len() * rows@[0]@.len())
                    by (nonlinear_arith)
                    requires
                        r as int + 1 <= rows@.len(),
                        w as int == rows@[0]@.len() >= 1,
                ;
            }
            let row: &Vec<Fx> = &rows[r];
            let mut c: usize = 0;
            while c < w
                invariant
                    c <= w,
                    r < h,
                    h == rows@.len(),
                    w as int == rows@[0]@.len(),
                    w >= 1,
                    row@ == rows@[r as int]@,
                    row@.len() == w as int,
                    (r as int + 1) * (w as int) <= usize::MAX,
                    forall|t: int| 0 <= t < rows@.len() ==> (#[trigger] rows@[t]@).len() == w as int,
                    v@.len() == r as int * w as int + c as int,
                    forall|a: int, b: int|
                        0 <= a < r as int && 0 <= b < w as int ==> v@[a * (w as int) + b]
                            == #[trigger] rows@[a]@[b],
                    forall|b: int|
                        0 <= b < c as int ==> v@[r as int * (w as int) + b]
                            == #[trigger] rows@[r as int]@[b],
                decreases w - c,
            {
                proof {
                    assert(r as int * (w as int) + w as int == (r as int + 1) * (w as int))
                        by (nonlinear_arith);
                }
                v.push(row[c]);
                c = c + 1;
                proof {
                    assert forall|a: int, b: int|
                        0 <= a < r as int && 0 <= b < w as int implies v@[a * (w as int) + b]
                        == #[trigger] rows@[a]@[b] by {
                        assert((a + 1) * (w as int) <= r as int * (w as int)) by (nonlinear_arith)
                            requires
                                a + 1 <= r as int,
                                w as int >= 1,
                        ;
                        assert(a * (w as int) + w as int == (a + 1) * (w as int))
                            by (nonlinear_arith);
                    }
                }
            }
            r = r + 1;
            proof {
                assert((r as int - 1) * (w as int) + w as int == r as int * (w as int))
                    by (nonlinear_arith);
            }
        }
        proof {
            lemma_whole_rows(h as int, w as int);
            assert forall|i: int, j: int|
                0 <= i < rows@.len() && 0 <= j < rows@[0]@.len() implies v@[i * (w as int) + j]
                == #[trigger] rows@[i]@[j] by {
            }
        }
        let m = Matrix { w, v };
        proof {
            assert forall|i: int, j: int|
                0 <= i < rows@.len() && 0 <= j < rows@[0]@.len() implies #[trigger] m.spec_at(i, j)
                == rows@[i]@[j] by {
            }
            if forall|i: int, j: int|
                0 <= i < rows@.len() && 0 <= j < rows@[0]@.len() ==> (
                #[trigger] rows@[i]@[j]).wf() {
                assert forall|t: int| 0 <= t < m.spec_vals().len() implies (
                #[trigger] m.spec_vals()[t]).wf() by {
                    lemma_cell_of_flat(t, rows@.len() as int, w as int);
                    let i = t / (w as int);
                    let j = t % (w as int);
                    assert(m.spec_vals()[i * (w as int) + j] == rows@[i]@[j]);
                }
            }
        }
        m
    }

    /// The dimensions of this matrix: `(height, width)`.
    pub fn dims(&self) -> (d: (usize, usize))
        requires
            self.wf(),
        ensures
            d.0 as int == self.spec_height(),
            d.1 as int == self.spec_width(),
    {
        (self.v.len() / self.w, self.w)
    }

    /// The entry at row `i`, column `j`.
    pub fn get(&self, i: usize, j: usize) -> (x: Fx)
        requires
            self.wf(),
            (i as int) < self.spec_height(),
            (j as int) < self.spec_width(),
        ensures
            x == self.spec_at(i as int, j as int),
            x.wf(),
    {
        let k: usize = self.coords_to_index((i, j));
        self.v[k]
    }

    /// Overwrite the entry at row `i`, column `j`.
    pub fn set(&mut self, i: usize, j: usize, x: Fx)
        requires
            old(self).wf(),
            (i as int) < old(self).spec_height(),
            (j as int) < old(self).spec_width(),
        ensures
            final(self).spec_width() == old(self).spec_width(),
            final(self).spec_height() == old(self).spec_height(),
            final(self).spec_vals() == old(self).spec_vals().update(
                i as int * old(self).spec_width() + j as int,
                x,
            ),
            final(self).spec_at(i as int, j as int) == x,
            x.wf() ==> final(self).wf(),
            forall|a: int, b: int|
                0 <= a < old(self).spec_height() && 0 <= b < old(self).spec_width() && !(a == i as int
                    && b == j as int) ==> final(self).spec_at(a, b) == old(self).spec_at(a, b),
    {
        let k: usize = self.coords_to_index((i, j));
        self.v.set(k, x);
        proof {
            let w = old(self).spec_width();
            let h = old(self).spec_height();
            vstd::arithmetic::div_mod::lemma_fundamental_div_mod(
                old(self).spec_vals().len() as int,
                w,
            );
            assert(w * h == h * w) by (nonlinear_arith);
            assert forall|a: int, b: int|
                0 <= a < old(self).spec_height() && 0 <= b < w && !(a == i as int && b
                    == j as int) implies self.spec_at(a, b) == old(self).spec_at(a, b) by {
                lemma_flat_of_cell(a, b, old(self).spec_height(), w);
                if a * w + b == i as int * w + j as int {
                    lemma_cell_injective(a, b, i as int, j as int, w);
                }
            }
        }
    }
}

/// The saturating product entry at row `i`, column `j`, folded over the
/// first `k` inner indices.
pub open spec fn matmul_partial(a: Matrix, b: Matrix, i: int, j: int, k: int) -> int
    decreases k,
{
    if k <= 0 {
        0
    } else {
        sat_add(
            matmul_partial(a, b, i, j, k - 1),
            sat_mul(a.spec_at(i, k - 1).raw as int, b.spec_at(k - 1, j).raw as int),
        )
    }
}

/// The saturating entry `i` of a matrix applied to a vector from the left,
/// folded over the first `k` columns.
pub open spec fn matvec_partial(a: Matrix, x: Seq<Fx>, i: int, k: int) -> int
    decreases k,
{
    if k <= 0 {
        0
    } else {
        sat_add(
            matvec_partial(a, x, i, k - 1),
            sat_mul(a.spec_at(i, k - 1).raw as int, x[k - 1].raw as int),
        )
    }
}

/// The saturating entry `j` of a matrix applied to a vector from the
/// right, folded over the first `k` rows.
pub open spec fn vecmat_partial(x: Seq<Fx>, b: Matrix, j: int, k: int) -> int
    decreases k,
{
    if k <= 0 {
        0
    } else {
        sat_add(
            vecmat_partial(x, b, j, k - 1),
            sat_mul(b.spec_at(k - 1, j).raw as int, x[k - 1].raw as int),
        )
    }
}

impl Matrix {
    /// Elementwise saturating sum of two matrices of one shape.
    pub fn add(&self, rhs: &Matrix) -> (m: Matrix)
        requires
            self.wf(),
            rhs.wf(),
            rhs.spec_width() == self.spec_width(),
            rhs.spec_vals().len() == self.spec_vals().len(),
        ensures
            m.wf(),
            m.spec_width() == self.spec_width(),
            m.spec_vals().len() == self.spec_vals().len(),
            forall|t: int|
                0 <= t < self.spec_vals().len() ==> (#[trigger] m.spec_vals()[t]).raw == sat_add(
                    self.spec_vals()[t].raw as int,
                    rhs.spec_vals()[t].raw as int,
                ),
    {
        let mut v: Vec<Fx> = Vec::new();
        let mut k: usize = 0;
        while k < self.v.len()
            invariant
                self.wf(),
                rhs.wf(),
                rhs.spec_vals().len() == self.spec_vals().len(),
                k <= self.spec_vals().len(),
                v@.len() == k as int,
                forall|t: int|
                    0 <= t < k as int ==> (#[trigger] v@[t]).wf() && v@[t].raw == sat_add(
                        self.spec_vals()[t].raw as int,
                        rhs.spec_vals()[t].raw as int,
                    ),
            decreases self.spec_vals().len() - k,
        {
            v.push(self.v[k].add(rhs.v[k]));
            k = k + 1;
        }
        Matrix { w: self.w, v }
    }

    /// Elementwise saturating difference of two matrices of one shape.
    pub fn sub(&self, rhs: &Matrix) -> (m: Matrix)
        requires
            self.wf(),
            rhs.wf(),
            rhs.spec_width() == self.spec_width(),
            rhs.spec_vals().len() == self.spec_vals().len(),
        ensures
            m.wf(),
            m.spec_width() == self.spec_width(),
            m.spec_vals().len() == self.spec_vals().len(),
            forall|t: int|
                0 <= t < self.spec_vals().len() ==> (#[trigger] m.spec_vals()[t]).raw == sat_add(
                    self.spec_vals()[t].raw as int,
                    -(rhs.spec_vals()[t].raw as int),
                ),
    {
        let mut v: Vec<Fx> = Vec::new();
        let mut k: usize = 0;
        while k < self.v.len()
            invariant
                self.wf(),
                rhs.wf(),
                rhs.spec_vals().len() == self.spec_vals().len(),
                k <= self.spec_vals().len(),
                v@.len() == k as int,
                forall|t: int|
                    0 <= t < k as int ==> (#[trigger] v@[t]).wf() && v@[t].raw == sat_add(
                        self.spec_vals()[t].raw as int,
                        -(rhs.spec_vals()[t].raw as int),
                    ),
            decreases self.spec_vals().len() - k,
        {
            v.push(self.v[k].sub(rhs.v[k]));
            k = k + 1;
        }
        Matrix { w: self.w, v }
    }

    /// This matrix with every entry multiplied by the scalar `c`.
    pub fn scale(&self, c: Fx) -> (m: Matrix)
        requires
            self.wf(),
            c.wf(),
        ensures
            m.wf(),
            m.spec_width() == self.spec_width(),
            m.spec_vals().len() == self.spec_vals().len(),
            forall|t: int|
                0 <= t < self.spec_vals().len() ==> (#[trigger] m.spec_vals()[t]).raw == sat_mul(
                    self.spec_vals()[t].raw as int,
                    c.raw as int,
                ),
    {
        let mut v: Vec<Fx> = Vec::new();
        let mut k: usize = 0;
        while k < self.v.len()
            invariant
                self.wf(),
                c.wf(),
                k <= self.spec_vals().len(),
                v@.len() == k as int,
                forall|t: int|
                    0 <= t < k as int ==> (#[trigger] v@[t]).wf() && v@[t].raw == sat_mul(
                        self.spec_vals()[t].raw as int,
                        c.raw as int,
                    ),
            decreases self.spec_vals().len() - k,
        {
            v.push(self.v[k].mul(c));
            k = k + 1;
        }
        Matrix { w: self.w, v }
    }

    /// This matrix with every entry divided by the scalar `c`.
    pub fn div_scalar(&self, c: Fx) -> (m: Matrix)
        requires
            self.wf(),
            c.wf(),
            c.raw != 0,
        ensures
            m.wf(),
            m.spec_width() == self.spec_width(),
            m.spec_vals().len() == self.spec_vals().len(),
            forall|t: int|
                0 <= t < self.spec_vals().len() ==> (#[trigger] m.spec_vals()[t]).raw == sat_div(
                    self.spec_vals()[t].raw as int,
                    c.raw as int,
                ),
    {
        let mut v: Vec<Fx> = Vec::new();
        let mut k: usize = 0;
        while k < self.v.len()
            invariant
                self.wf(),
                c.wf(),
                c.raw != 0,
                k <= self.spec_vals().len(),
                v@.len() == k as int,
                forall|t: int|
                    0 <= t < k as int ==> (#[trigger] v@[t]).wf() && v@[t].raw == sat_div(
                        self.spec_vals()[t].raw as int,
                        c.raw as int,
                    ),
            decreases self.spec_vals().len() - k,
        {
            v.push(self.v[k].div(c));
            k = k + 1;
        }
        Matrix { w: self.w, v }
    }

    /// The saturating matrix product: entry `(i, j)` folds
    /// `self(i, k) * rhs(k, j)` over the inner index in increasing order.
    pub fn mul_matrix(&self, rhs: &Matrix) -> (m: Matrix)
        requires
            self.wf(),
            rhs.wf(),
            rhs.spec_height() == self.spec_width(),
            self.spec_height() * rhs.spec_width() <= usize::MAX,
        ensures
            m.wf(),
            m.spec_height() == self.spec_height(),
            m.spec_width() == rhs.spec_width(),
            forall|i: int, j: int|
                0 <= i < self.spec_height() && 0 <= j < rhs.spec_width() ==> (#[trigger] m.spec_at(
                    i,
                    j,
                )).raw == matmul_partial(*self, *rhs, i, j, self.spec_width()),
    {
        let d = self.dims();
        let ha = d.0;
        let wa = d.1;
        let wb = rhs.w;
        let ghost target = self.spec_height() * rhs.spec_width();
        let mut v: Vec<Fx> = Vec::new();
        let mut i: usize = 0;
        while i < ha
            invariant
                i <= ha,
                self.wf(),
                rhs.wf(),
                rhs.spec_height() == self.spec_width(),
                ha as int == self.spec_height(),
                wa as int == self.spec_width(),
                wb as int == rhs.spec_width(),
                target == self.spec_height() * rhs.spec_width() <= usize::MAX,
                v@.len() == i as int * wb as int,
                forall|a: int, b: int|
                    0 <= a < i as int && 0 <= b < wb as int ==> (#[trigger] v@[a * (wb as int)
                        + b]).wf() && v@[a * (wb as int) + b].raw == matmul_partial(
                        *self,
                        *rhs,
                        a,
                        b,
                        wa as int,
                    ),
            decreases ha - i,
        {
            proof {
                assert((i as int + 1) * (wb as int) <= self.spec_height() * rhs.spec_width())
                    by (nonlinear_arith)
                    requires
                        i as int + 1 <= self.spec_height(),
                        wb as int == rhs.spec_width() >= 1,
                ;
            }
            let mut j: usize = 0;
            while j < wb
                invariant
                    j <= wb,
                    i < ha,
                    self.wf(),
                    rhs.wf(),
                    rhs.spec_height() == self.spec_width(),
                    ha as int == self.spec_height(),
                    wa as int == self.spec_width(),
                    wb as int == rhs.spec_width(),
                    (i as int + 1) * (wb as int) <= usize::MAX,
                    v@.len() == i as int * wb as int + j as int,
                    forall|a: int, b: int|
                        0 <= a < i as int && 0 <= b < wb as int ==> (#[trigger] v@[a * (wb as int)
                            + b]).wf() && v@[a * (wb as int) + b].raw == matmul_partial(
                            *self,
                            *rhs,
                            a,
                            b,
                            wa as int,
                        ),
                    forall|b: int|
                        0 <= b < j as int ==> (#[trigger] v@[i as int * (wb as int) + b]).wf()
                            && v@[i as int * (wb as int) + b].raw == matmul_partial(
                            *self,
                            *rhs,
                            i as int,
                            b,
                            wa as int,
                        ),
                decreases wb - j,
            {
                let mut acc: Fx = Fx::zero();
                let mut k: usize = 0;
                while k < wa
                    invariant
                        k <= wa,
                        i < ha,
                        j < wb,
                        self.wf(),
                        rhs.wf(),
                        rhs.spec_height() == self.spec_width(),
                        ha as int == self.spec_height(),
                        wa as int == self.spec_width(),
                        wb as int == rhs.spec_width(),
                        acc.wf(),
                        acc.raw as int == matmul_partial(*self, *rhs, i as int, j as int, k as int),
                    decreases wa - k,
                {
                    let x = self.get(i, k);
                    let y = rhs.get(k, j);
                    acc = acc.add(x.mul(y));
                    k = k + 1;
                }
                proof {
                    assert(i as int * (wb as int) + wb as int == (i as int + 1) * (wb as int))
                        by (nonlinear_arith);
                }
                v.push(acc);
                j = j + 1;
                proof {
                    assert forall|a: int, b: int|
                        0 <= a < i as int && 0 <= b < wb as int implies (#[trigger] v@[a * (
                    wb as int) + b]).wf() && v@[a * (wb as int) + b].raw == matmul_partial(
                        *self,
                        *rhs,
                        a,
                        b,
                        wa as int,
                    ) by {
                        assert((a + 1) * (wb as int) <= i as int * (wb as int)) by (nonlinear_arith)
                            requires
                                a + 1 <= i as int,
                                wb as int >= 1,
                        ;
                        assert(a * (wb as int) + wb as int == (a + 1) * (wb as int))
                            by (nonlinear_arith);
                    }
                }
            }
            i = i + 1;
            proof {
                assert((i as int - 1) * (wb as int) + wb as int == i as int * (wb as int))
                    by (nonlinear_arith);
            }
        }
        proof {
            lemma_whole_rows(ha as int, wb as int);
        }
        let m = Matrix { w: wb, v };
        proof {
            assert forall|a: int, b: int|
                0 <= a < self.spec_height() && 0 <= b < rhs.spec_width() implies (
            #[trigger] m.spec_at(a, b)).raw == matmul_partial(*self, *rhs, a, b, wa as int) by {
                lemma_flat_of_cell(a, b, ha as int, wb as int);
            }
            assert forall|t: int| 0 <= t < m.spec_vals().len() implies (
            #[trigger] m.spec_vals()[t]).wf() by {
                lemma_cell_of_flat(t, ha as int, wb as int);
                let a = t / (wb as int);
                let b = t % (wb as int);
                assert(m.spec_vals()[a * (wb as int) + b].wf());
            }
        }
        m
    }

    /// This matrix applied to a vector from the left: entry `i` folds
    /// `self(i, j) * rhs[j]` over the columns in increasing order.
    pub fn mul_vector(&self, rhs: &Vector) -> (y: Vector)
        requires
            self.wf(),
            rhs.wf(),
            rhs.spec_vals().len() == self.spec_width(),
        ensures
            y.wf(),
            y.spec_vals().len() == self.spec_height(),
            forall|i: int|
                0 <= i < self.spec_height() ==> (#[trigger] y.spec_vals()[i]).raw
                    == matvec_partial(*self, rhs.spec_vals(), i, self.spec_width()),
    {
        let d = self.dims();
        let h = d.0;
        let w = d.1;
        let mut v: Vec<Fx> = Vec::new();
        let mut i: usize = 0;
        while i < h
            invariant
                i <= h,
                self.wf(),
                rhs.wf(),
                rhs.spec_vals().len() == self.spec_width(),
                h as int == self.spec_height(),
                w as int == self.spec_width(),
                v@.len() == i as int,
                forall|a: int|
                    0 <= a < i as int ==> (#[trigger] v@[a]).wf() && v@[a].raw == matvec_partial(
                        *self,
                        rhs.spec_vals(),
                        a,
                        w as int,
                    ),
            decreases h - i,
        {
            let mut acc: Fx = Fx::zero();
            let mut j: usize = 0;
            while j < w
                invariant
                    j <= w,
                    i < h,
                    self.wf(),
                    rhs.wf(),
                    rhs.spec_vals().len() == self.spec_width(),
                    h as int == self.spec_height(),
                    w as int == self.spec_width(),
                    acc.wf(),
                    acc.raw as int == matvec_partial(*self, rhs.spec_vals(), i as int, j as int),
                decreases w - j,
            {
                let x = self.get(i, j);
                acc = acc.add(x.mul(rhs.get(j)));
                j = j + 1;
            }
            v.push(acc);
            i = i + 1;
        }
        Vector { v }
    }
}

impl Vector {
    /// This vector applied to a matrix from the left: entry `j` folds
    /// `rhs(i, j) * self[i]` over the rows in increasing order.
    pub fn mul_matrix(&self, rhs: &Matrix) -> (z: Vector)
        requires
            self.wf(),
            rhs.wf(),
            rhs.spec_height() == self.spec_vals().len(),
        ensures
            z.wf(),
            z.spec_vals().len() == rhs.spec_width(),
            forall|j: int|
                0 <= j < rhs.spec_width() ==> (#[trigger] z.spec_vals()[j]).raw == vecmat_partial(
                    self.spec_vals(),
                    *rhs,
                    j,
                    rhs.spec_height(),
                ),
    {
        let d = rhs.dims();
        let h = d.0;
        let w = d.1;
        let mut v: Vec<Fx> = Vec::new();
        let mut j: usize = 0;
        while j < w
            invariant
                j <= w,
                self.wf(),
                rhs.wf(),
                rhs.spec_height() == self.spec_vals().len(),
                h as int == rhs.spec_height(),
                w as int == rhs.spec_width(),
                v@.len() == j as int,
                forall|b: int|
                    0 <= b < j as int ==> (#[trigger] v@[b]).wf() && v@[b].raw == vecmat_partial(
                        self.spec_vals(),
                        *rhs,
                        b,
                        h as int,
                    ),
            decreases w - j,
        {
            let mut acc: Fx = Fx::zero();
            let mut i: usize = 0;
            while i < h
                invariant
                    i <= h,
                    j < w,
                    self.wf(),
                    rhs.wf(),
                    rhs.spec_height() == self.spec_vals().len(),
                    h as int == rhs.spec_height(),
                    w as int == rhs.spec_width(),
                    acc.wf(),
                    acc.raw as int == vecmat_partial(self.spec_vals(), *rhs, j as int, i as int),
                decreases h - i,
            {
                let x = rhs.get(i, j);
                acc = acc.add(x.mul(self.get(i)));
                i = i + 1;
            }
            v.push(acc);
            j = j + 1;
        }
        Vector { v }
    }
}

/// A flat length that is a whole number of rows has the expected height
/// and divides evenly.
proof fn lemma_whole_rows(h: int, w: int)
    requires
        0 <= h,
        1 <= w,
    ensures
        (h * w) % w == 0,
        (h * w) / w == h,
{
    vstd::arithmetic::div_mod::lemma_mod_multiples_basic(h, w);
    vstd::arithmetic::div_mod::lemma_div_by_multiple(h, w);
}

/// The flat slot of a valid cell lies inside the storage.
proof fn lemma_flat_of_cell(i: int, j: int, h: int, w: int)
    requires
        0 <= i < h,
        0 <= j < w,
    ensures
        0 <= i * w + j < h * w,
{
    assert(0 <= i * w + j && i * w + j < h * w) by (nonlinear_arith)
        requires
            0 <= i < h,
            0 <= j < w,
    ;
}

/// A flat slot below `h * w` addresses the valid cell given by division.
proof fn lemma_cell_of_flat(t: int, h: int, w: int)
    requires
        1 <= w,
        0 <= t < h * w,
    ensures
        0 <= t / w < h,
        0 <= t % w < w,
        (t / w) * w + t % w == t,
{
    vstd::arithmetic::div_mod::lemma_fundamental_div_mod(t, w);
    assert((t / w) * w == w * (t / w)) by (nonlinear_arith);
    assert(t / w < h) by {
        if t / w >= h {
            assert(w * (t / w) >= w * h) by (nonlinear_arith)
                requires
                    t / w >= h,
                    w >= 1,
            ;
            assert(w * h == h * w) by (nonlinear_arith);
        }
    }
    assert(t / w >= 0) by {
        vstd::arithmetic::div_mod::lemma_div_pos_is_pos(t, w);
    }
}

/// Distinct cells of one row width occupy distinct flat slots.
proof fn lemma_cell_injective(a: int, b: int, i: int, j: int, w: int) by (nonlinear_arith)
    requires
        0 <= b < w,
        0 <= j < w,
        0 <= a,
        0 <= i,
        a * w + b == i * w + j,
    ensures
        a == i,
        b == j,
{
}

} // verus!
