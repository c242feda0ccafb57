//! A Boltzmann machine: a network of stochastic binary units coupled by a
//! packed symmetric weight matrix and per-unit biases.
//!
//! Each update computes a unit's local field — its bias plus the weighted
//! sum of every other unit's current value — and turns the unit on with the
//! logistic acceptance probability of that field at the chosen temperature.
//! Updates are sequential: within one sweep a unit sees the already-updated
//! values of lower-indexed units.

use vstd::prelude::*;

verus! {

use crate::fixed::Fx;
use crate::fixed::SCALE;
use crate::fixed::sat_add;
use crate::fixed::sat_mul;
use crate::fixed::spec_fx;
use crate::fixed::spec_next_value;
use crate::fixed::next_value;
use crate::fixed::lemma_cold_activation;
use crate::fixed::lemma_cold_suppression;
use crate::linalg::symmetric::SymmetricMatrix;
use crate::rng::Sampler;

/// The local field of unit `i` after folding in units `0 .. m`: the bias of
/// `i` plus the saturating sum of `values[j] * coeffs(i, j)` over every
/// `j != i` below `m`, folded in index order.
pub open spec fn field_partial(
    values: Seq<Fx>,
    biases: Seq<Fx>,
    coeffs: SymmetricMatrix,
    i: int,
    m: int,
) -> int
    decreases m,
{
    if m <= 0 {
        biases[i].raw as int
    } else if m - 1 == i {
        field_partial(values, biases, coeffs, i, m - 1)
    } else {
        sat_add(
            field_partial(values, biases, coeffs, i, m - 1),
            sat_mul(values[m - 1].raw as int, coeffs.spec_at(i, m - 1).raw as int),
        )
    }
}

/// The full local field of unit `i`.
pub open spec fn spec_field(
    values: Seq<Fx>,
    biases: Seq<Fx>,
    coeffs: SymmetricMatrix,
    i: int,
) -> int {
    field_partial(values, biases, coeffs, i, values.len() as int)
}

/// The unit values after one stochastic update of unit `i` with uniform
/// sample `u` at temperature `t`: only slot `i` changes, to one or zero as
/// the acceptance rule decides.
pub open spec fn spec_updated(
    values: Seq<Fx>,
    biases: Seq<Fx>,
    coeffs: SymmetricMatrix,
    i: int,
    t: int,
    u: int,
) -> Seq<Fx> {
    values.update(i, spec_fx(spec_next_value(spec_field(values, biases, coeffs, i), t, u)))
}

/// The unit values after a sequential sweep over units `0 .. k`, where unit
/// `i` consumes sample `us[i]` and sees the already-updated values of the
/// units before it.
pub open spec fn spec_sweep(
    values: Seq<Fx>,
    biases: Seq<Fx>,
    coeffs: SymmetricMatrix,
    t: int,
    us: Seq<Fx>,
    k: int,
) -> Seq<Fx>
    decreases k,
{
    if k <= 0 {
        values
    } else {
        let prev = spec_sweep(values, biases, coeffs, t, us, k - 1);
        spec_updated(prev, biases, coeffs, k - 1, t, us[k - 1].raw as int)
    }
}

/// How many of the indices `0 .. m` are absent from the exclusion list.
pub open spec fn spec_allowed_count(avoid: Seq<usize>, m: int) -> int
    decreases m,
{
    if m <= 0 {
        0
    } else {
        spec_allowed_count(avoid, m - 1) + if avoid.contains((m - 1) as usize) {
            0int
        } else {
            1int
        }
    }
}

/// Membership test for the exclusion list.
fn contains_index(avoid: &[usize], x: usize) -> (b: bool)
    ensures
        b == avoid@.contains(x),
{
    let mut k: usize = 0;
    while k < avoid.len()
        invariant
            k <= avoid@.len(),
            forall|t: int| 0 <= t < k as int ==> avoid@[t] != x,
        decreases avoid@.len() - k,
    {
        if avoid[k] == x {
            return true;
        }
        k = k + 1;
    }
    false
}

/// Count the indices below `n` that the exclusion list leaves available.
fn count_allowed(n: usize, avoid: &[usize]) -> (c: usize)
    ensures
        c as int == spec_allowed_count(avoid@, n as int),
        c <= n,
{
    let mut c: usize = 0;
    let mut k: usize = 0;
    while k < n
        invariant
            k <= n,
            c <= k,
            c as int == spec_allowed_count(avoid@, k as int),
        decreases n - k,
    {
        if !contains_index(avoid, k) {
            c = c + 1;
        }
        k = k + 1;
    }
    c
}

/// The `r`-th index (in increasing order) below `n` that the exclusion list
/// leaves available.
fn nth_allowed(n: usize, avoid: &[usize], r: usize) -> (idx: usize)
    requires
        (r as int) < spec_allowed_count(avoid@, n as int),
    ensures
        idx < n,
        !avoid@.contains(idx),
        spec_allowed_count(avoid@, idx as int) == r as int,
{
    let mut seen: usize = 0;
    let mut i: usize = 0;
    while i < n
        invariant
            i <= n,
            seen <= r,
            (r as int) < spec_allowed_count(avoid@, n as int),
            seen as int == spec_allowed_count(avoid@, i as int),
        decreases n - i,
    {
        if !contains_index(avoid, i) {
            if seen == r {
                return i;
            }
            seen = seen + 1;
        }
        i = i + 1;
    }
    proof {
        assert(false);
    }
    0
}

/// An isolated unit's local field is its bias alone: when every coupling
/// of row `i` is zero, the weighted sum contributes nothing.
proof fn lemma_isolated_field_partial(
    values: Seq<Fx>,
    biases: Seq<Fx>,
    coeffs: SymmetricMatrix,
    i: int,
    m: int,
)
    requires
        biases[i].wf(),
        forall|j: int| 0 <= j < m && j != i ==> (#[trigger] coeffs.spec_at(i, j)).raw == 0,
    ensures
        field_partial(values, biases, coeffs, i, m) == biases[i].raw as int,
    decreases m,
{
    if m > 0 {
        lemma_isolated_field_partial(values, biases, coeffs, i, m - 1);
        if m - 1 != i {
            assert((values[m - 1].raw as int) * (coeffs.spec_at(i, m - 1).raw as int) == 0)
                by (nonlinear_arith)
                requires
                    coeffs.spec_at(i, m - 1).raw as int == 0,
            ;
        }
    }
}

/// Temperature limit for a single isolated unit: with zero couplings and
/// bias `b`, at any positive temperature no larger than `b / 30` one
/// stochastic update turns the unit on with certainty when `b > 0`, and
/// off with certainty when `b < 0` and the temperature is at most
/// `-b / 30`.
pub proof fn lemma_isolated_unit_cold_limit(
    values: Seq<Fx>,
    biases: Seq<Fx>,
    coeffs: SymmetricMatrix,
    i: int,
    t: int,
    u: int,
)
    requires
        0 <= i < values.len(),
        biases[i].wf(),
        forall|j: int|
            0 <= j < values.len() && j != i ==> (#[trigger] coeffs.spec_at(i, j)).raw == 0,
        0 < t,
        0 <= u < SCALE as int,
    ensures
        30 * t <= biases[i].raw as int ==> spec_updated(values, biases, coeffs, i, t, u)[i].raw
            == SCALE,
        biases[i].raw as int <= -(30 * t) ==> spec_updated(values, biases, coeffs, i, t, u)[i].raw
            == 0,
{
    lemma_isolated_field_partial(values, biases, coeffs, i, values.len() as int);
    let b = biases[i].raw as int;
    if 30 * t <= b {
        lemma_cold_activation(b, t);
    }
    if b <= -(30 * t) {
        lemma_cold_suppression(b, t);
    }
}

/// After a sweep over units `0 .. k` every one of them holds zero or one:
/// each is overwritten exactly once by the acceptance rule, and no later
/// step of the sweep touches it again.
pub proof fn lemma_sweep_values_binary(
    values: Seq<Fx>,
    biases: Seq<Fx>,
    coeffs: SymmetricMatrix,
    t: int,
    us: Seq<Fx>,
    k: int,
)
    requires
        k <= values.len(),
    ensures
        forall|j: int|
            0 <= j < k ==> (#[trigger] spec_sweep(values, biases, coeffs, t, us, k)[j]).raw == 0
                || spec_sweep(values, biases, coeffs, t, us, k)[j].raw == SCALE,
        spec_sweep(values, biases, coeffs, t, us, k).len() == values.len(),
    decreases k,
{
    if k > 0 {
        lemma_sweep_values_binary(values, biases, coeffs, t, us, k - 1);
    }
}

/// Under a fixed sample sequence the sequential sweep is deterministic:
/// two machines that agree on values, biases, couplings, temperature and
/// samples end with identical values.
pub proof fn lemma_sweep_deterministic(
    values1: Seq<Fx>,
    biases1: Seq<Fx>,
    coeffs1: SymmetricMatrix,
    t1: int,
    us1: Seq<Fx>,
    values2: Seq<Fx>,
    biases2: Seq<Fx>,
    coeffs2: SymmetricMatrix,
    t2: int,
    us2: Seq<Fx>,
    k: int,
)
    requires
        values1 == values2,
        biases1 == biases2,
        coeffs1 == coeffs2,
        t1 == t2,
        us1 == us2,
    ensures
        spec_sweep(values1, biases1, coeffs1, t1, us1, k) == spec_sweep(
            values2,
            biases2,
            coeffs2,
            t2,
            us2,
            k,
        ),
{
}

/// A network of stochastic binary units with symmetric pairwise couplings.
pub struct BoltzmannMachine {
    values: Vec<Fx>,
    biases: Vec<Fx>,
    coeffs: SymmetricMatrix,
}

impl BoltzmannMachine {
    /// The unit values.
    pub closed spec fn spec_values(self) -> Seq<Fx> {
        self.values@
    }

    /// The per-unit biases.
    pub closed spec fn spec_biases(self) -> Seq<Fx> {
        self.biases@
    }

    /// The pairwise coupling matrix.
    pub closed spec fn spec_coeffs(self) -> SymmetricMatrix {
        self.coeffs
    }

    /// The number of units.
    pub open spec fn spec_n(self) -> int {
        self.spec_values().len() as int
    }

    /// Well-formed: values, biases and the weight matrix agree on the unit
    /// count, and every stored scalar is well formed.
    pub open spec fn wf(self) -> bool {
        &&& self.spec_biases().len() == self.spec_values().len()
        &&& self.spec_coeffs().spec_size() == self.spec_n()
        &&& self.spec_coeffs().wf()
        &&& forall|k: int|
            0 <= k < self.spec_n() ==> (#[trigger] self.spec_values()[k]).wf()
        &&& forall|k: int|
            0 <= k < self.spec_n() ==> (#[trigger] self.spec_biases()[k]).wf()
    }

    /// A machine over the given weight matrix with every unit value one and
    /// every bias zero.
    pub fn new(coeffs: SymmetricMatrix) -> (m: BoltzmannMachine)
        requires
            coeffs.wf(),
        ensures
            m.wf(),
            m.spec_n() == coeffs.spec_size(),
            m.spec_coeffs() == coeffs,
            forall|k: int| 0 <= k < m.spec_n() ==> (#[trigger] m.spec_values()[k]).raw == SCALE,
            forall|k: int| 0 <= k < m.spec_n() ==> (#[trigger] m.spec_biases()[k]).raw == 0,
    {
        let n = coeffs.size();
        let mut values: Vec<Fx> = Vec::new();
        while values.len() < n
            invariant
                values@.len() <= n as int,
                forall|k: int| 0 <= k < values@.len() ==> (#[trigger] values@[k]).raw == SCALE,
            decreases n - values.len(),
        {
            values.push(Fx::one());
        }
        let mut biases: Vec<Fx> = Vec::new();
        while biases.len() < n
            invariant
                biases@.len() <= n as int,
                forall|k: int| 0 <= k < biases@.len() ==> (#[trigger] biases@[k]).raw == 0,
            decreases n - biases.len(),
        {
            biases.push(Fx::zero());
        }
        BoltzmannMachine { values, biases, coeffs }
    }

    /// A machine over the given weight matrix and an explicit bias vector,
    /// which must hold one bias per unit; every unit value starts at one.
    pub fn with_biases(coeffs: SymmetricMatrix, biases: Vec<Fx>) -> (m: BoltzmannMachine)
        requires
            coeffs.wf(),
            biases@.len() == coeffs.spec_size(),
            forall|k: int| 0 <= k < biases@.len() ==> (#[trigger] biases@[k]).wf(),
        ensures
            m.wf(),
            m.spec_n() == coeffs.spec_size(),
            m.spec_coeffs() == coeffs,
            m.spec_biases() == biases@,
            forall|k: int| 0 <= k < m.spec_n() ==> (#[trigger] m.spec_values()[k]).raw == SCALE,
    {
        let n = coeffs.size();
        let mut values: Vec<Fx> = Vec::new();
        while values.len() < n
            invariant
                values@.len() <= n as int,
                forall|k: int| 0 <= k < values@.len() ==> (#[trigger] values@[k]).raw == SCALE,
            decreases n - values.len(),
        {
            values.push(Fx::one());
        }
        BoltzmannMachine { values, biases, coeffs }
    }

    /// Like [`BoltzmannMachine::with_biases`], but reports a mismatched
    /// bias vector instead of requiring it away: the result is `None`
    /// exactly when the bias count differs from the unit count.
    pub fn checked_with_biases(coeffs: SymmetricMatrix, biases: Vec<Fx>) -> (m: Option<
        BoltzmannMachine,
    >)
        requires
            coeffs.wf(),
            forall|k: int| 0 <= k < biases@.len() ==> (#[trigger] biases@[k]).wf(),
        ensures
            m is Some <==> biases@.len() == coeffs.spec_size(),
            m matches Some(machine) ==> {
                &&& machine.wf()
                &&& machine.spec_n() == coeffs.spec_size()
                &&& machine.spec_coeffs() == coeffs
                &&& machine.spec_biases() == biases@
                &&& forall|k: int|
                    0 <= k < machine.spec_n() ==> (#[trigger] machine.spec_values()[k]).raw
                        == SCALE
            },
    {
        if biases.len() == coeffs.size() {
            Some(BoltzmannMachine::with_biases(coeffs, biases))
        } else {
            None
        }
    }

    /// Read access to the unit values, the only externally mutable state.
    pub fn values(&self) -> (v: &Vec<Fx>)
        ensures
            v@ == self.spec_values(),
    {
        &self.values
    }

    /// Pin one unit to a chosen value, e.g. to clamp fixed units before
    /// running stochastic updates.
    pub fn set_value(&mut self, i: usize, value: Fx)
        requires
            old(self).wf(),
            (i as int) < old(self).spec_n(),
            value.wf(),
        ensures
            final(self).wf(),
            final(self).spec_values() == old(self).spec_values().update(i as int, value),
            final(self).spec_biases() == old(self).spec_biases(),
            final(self).spec_coeffs() == old(self).spec_coeffs(),
    {
        self.values.set(i, value);
    }

    /// Overwrite the whole unit-value array, e.g. to load an initial state.
    pub fn set_values(&mut self, values: Vec<Fx>)
        requires
            old(self).wf(),
            values@.len() == old(self).spec_n(),
            forall|k: int| 0 <= k < values@.len() ==> (#[trigger] values@[k]).wf(),
        ensures
            final(self).wf(),
            final(self).spec_values() == values@,
            final(self).spec_biases() == old(self).spec_biases(),
            final(self).spec_coeffs() == old(self).spec_coeffs(),
    {
        self.values = values;
    }

    /// The local field of unit `i`: its bias plus the saturating weighted
    /// sum of every other unit's current value.
    pub fn local_field(&self, i: usize) -> (f: Fx)
        requires
            self.wf(),
            (i as int) < self.spec_n(),
        ensures
            f.raw as int == spec_field(self.spec_values(), self.spec_biases(), self.spec_coeffs(), i as int),
            f.wf(),
    {
        let n = self.values.len();
        let mut val: Fx = self.biases[i];
        let mut j: usize = 0;
        while j < n
            invariant
                self.wf(),
                (i as int) < n as int,
                n as int == self.spec_n(),
                j <= n,
                val.wf(),
                val.raw as int == field_partial(
                    self.spec_values(),
                    self.spec_biases(),
                    self.spec_coeffs(),
                    i as int,
                    j as int,
                ),
            decreases n - j,
        {
            if i != j {
                let w: Fx = self.coeffs.get(i, j);
                val = val.add(self.values[j].mul(w));
            }
            j = j + 1;
        }
        val
    }

    /// One stochastic update of unit `i` driven by an explicit uniform
    /// sample: the deterministic core of the randomized updates.
    pub fn tick_unit(&mut self, i: usize, temperature: Fx, u: Fx)
        requires
            old(self).wf(),
            (i as int) < old(self).spec_n(),
            temperature.wf(),
            u.wf(),
        ensures
            final(self).wf(),
            final(self).spec_values() == spec_updated(
                old(self).spec_values(),
                old(self).spec_biases(),
                old(self).spec_coeffs(),
                i as int,
                temperature.raw as int,
                u.raw as int,
            ),
            final(self).spec_biases() == old(self).spec_biases(),
            final(self).spec_coeffs() == old(self).spec_coeffs(),
    {
        let f: Fx = self.local_field(i);
        let v: Fx = next_value(f, temperature, u);
        self.values.set(i, v);
    }

    /// A full sequential sweep driven by an explicit sample vector: unit
    /// `i` consumes `samples[i]`. The resulting values are a function of
    /// the starting state, the temperature and the samples alone.
    pub fn tick_all_with_samples(&mut self, temperature: Fx, samples: &Vec<Fx>)
        requires
            old(self).wf(),
            temperature.wf(),
            samples@.len() == old(self).spec_n(),
            forall|k: int| 0 <= k < samples@.len() ==> (#[trigger] samples@[k]).wf(),
        ensures
            final(self).wf(),
            final(self).spec_n() == old(self).spec_n(),
            final(self).spec_values() == spec_sweep(
                old(self).spec_values(),
                old(self).spec_biases(),
                old(self).spec_coeffs(),
                temperature.raw as int,
                samples@,
                old(self).spec_n(),
            ),
            final(self).spec_biases() == old(self).spec_biases(),
            final(self).spec_coeffs() == old(self).spec_coeffs(),
            forall|k: int|
                0 <= k < old(self).spec_n() ==> (#[trigger] final(self).spec_values()[k]).raw == 0
                    || final(self).spec_values()[k].raw == SCALE,
    {
        let n = self.values.len();
        let mut i: usize = 0;
        while i < n
            invariant
                i <= n,
                n as int == old(self).spec_n(),
                self.spec_n() == n as int,
                temperature.wf(),
                samples@.len() == old(self).spec_n(),
                forall|k: int| 0 <= k < samples@.len() ==> (#[trigger] samples@[k]).wf(),
                self.wf(),
                self.spec_values() == spec_sweep(
                    old(self).spec_values(),
                    old(self).spec_biases(),
                    old(self).spec_coeffs(),
                    temperature.raw as int,
                    samples@,
                    i as int,
                ),
                self.spec_biases() == old(self).spec_biases(),
                self.spec_coeffs() == old(self).spec_coeffs(),
            decreases n - i,
        {
            let u: Fx = samples[i];
            self.tick_unit(i, temperature, u);
            i = i + 1;
        }
        proof {
            lemma_sweep_values_binary(
                old(self).spec_values(),
                old(self).spec_biases(),
                old(self).spec_coeffs(),
                temperature.raw as int,
                samples@,
                old(self).spec_n(),
            );
        }
    }

    /// A full sequential sweep at the given temperature, drawing one
    /// uniform sample per unit from the sampler: the result is some
    /// sequential sweep under a sample vector of in-range uniform draws.
    pub fn tick_all_sequential(&mut self, temperature: Fx, rng: &mut Sampler)
        requires
            old(self).wf(),
            temperature.wf(),
        ensures
            final(self).wf(),
            final(self).spec_n() == old(self).spec_n(),
            final(self).spec_biases() == old(self).spec_biases(),
            final(self).spec_coeffs() == old(self).spec_coeffs(),
            forall|k: int|
                0 <= k < old(self).spec_n() ==> (#[trigger] final(self).spec_values()[k]).raw == 0
                    || final(self).spec_values()[k].raw == SCALE,
            exists|us: Seq<Fx>|
                {
                    &&& us.len() == old(self).spec_n()
                    &&& forall|k: int|
                        0 <= k < us.len() ==> (#[trigger] us[k]).wf() && 0 <= us[k].raw < SCALE
                    &&& final(self).spec_values() == spec_sweep(
                        old(self).spec_values(),
                        old(self).spec_biases(),
                        old(self).spec_coeffs(),
                        temperature.raw as int,
                        us,
                        old(self).spec_n(),
                    )
                },
    {
        let n = self.values.len();
        let mut samples: Vec<Fx> = Vec::new();
        while samples.len() < n
            invariant
                samples@.len() <= n as int,
                forall|k: int|
                    0 <= k < samples@.len() ==> (#[trigger] samples@[k]).wf() && 0 <= samples@[k].raw
                        < SCALE,
            decreases n - samples.len(),
        {
            let u: Fx = rng.unit();
            samples.push(u);
        }
        self.tick_all_with_samples(temperature, &samples);
    }

    /// One stochastic update of a unit drawn uniformly from the indices
    /// that the exclusion list leaves available.
    ///
    /// Returns the updated index, or `None` — leaving the machine unchanged
    /// — exactly when the exclusion list covers every unit. Units on the
    /// exclusion list never change.
    pub fn tick_one_random(&mut self, temperature: Fx, avoid: &[usize], rng: &mut Sampler) -> (picked:
        Option<usize>)
        requires
            old(self).wf(),
            temperature.wf(),
        ensures
            final(self).wf(),
            final(self).spec_biases() == old(self).spec_biases(),
            final(self).spec_coeffs() == old(self).spec_coeffs(),
            final(self).spec_n() == old(self).spec_n(),
            picked is None <==> spec_allowed_count(avoid@, old(self).spec_n()) == 0,
            picked is None ==> final(self).spec_values() == old(self).spec_values(),
            picked matches Some(idx) ==> {
                &&& (idx as int) < old(self).spec_n()
                &&& !avoid@.contains(idx)
                &&& (final(self).spec_values()[idx as int].raw == 0
                    || final(self).spec_values()[idx as int].raw == SCALE)
                &&& exists|u: Fx|
                    {
                        &&& (#[trigger] u.wf())
                        &&& 0 <= u.raw < SCALE
                        &&& final(self).spec_values() == spec_updated(
                            old(self).spec_values(),
                            old(self).spec_biases(),
                            old(self).spec_coeffs(),
                            idx as int,
                            temperature.raw as int,
                            u.raw as int,
                        )
                    }
            },
            forall|k: int|
                0 <= k < old(self).spec_n() && avoid@.contains(k as usize)
                    ==> final(self).spec_values()[k] == old(self).spec_values()[k],
    {
        let n = self.values.len();
        let m = count_allowed(n, avoid);
        if m == 0 {
            return None;
        }
        let r = rng.below(m);
        let idx = nth_allowed(n, avoid, r);
        let u = rng.unit();
        self.tick_unit(idx, temperature, u);
        proof {
            assert forall|k: int|
                0 <= k < old(self).spec_n() && avoid@.contains(k as usize) implies self.spec_values()[k]
                == old(self).spec_values()[k] by {
                assert(k != idx as int);
            }
        }
        Some(idx)
    }
}

} // verus!
