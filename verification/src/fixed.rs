//! Fixed-point scalars.
//!
//! Every numeric quantity of the library is an [`Fx`]: a signed value stored
//! as an integer multiple of `1 / SCALE`. Arithmetic saturates at
//! `RAW_MAX / SCALE` in magnitude instead of wrapping, so every operation is
//! total on well-formed inputs and its result is pinned down exactly by the
//! spec functions of this module.

use vstd::prelude::*;

verus! {

use vstd::arithmetic::div_mod::lemma_basic_div;
use vstd::arithmetic::div_mod::lemma_div_is_ordered;
use vstd::arithmetic::div_mod::lemma_div_is_ordered_by_denominator;
use vstd::arithmetic::div_mod::lemma_div_multiples_vanish;
use vstd::arithmetic::mul::lemma_mul_inequality;

/// Number of raw steps in one unit: an `Fx` with raw value `r` represents
/// the rational `r / SCALE`.
pub const SCALE: i64 = 65536;

/// Largest raw magnitude a scalar may hold; arithmetic saturates here.
pub const RAW_MAX: i64 = i64::MAX;

/// Clamp to the representable raw range `[-RAW_MAX, RAW_MAX]`.
pub open spec fn sat64(x: int) -> int {
    if x > RAW_MAX as int {
        RAW_MAX as int
    } else if x < -(RAW_MAX as int) {
        -(RAW_MAX as int)
    } else {
        x
    }
}

/// Division truncating toward zero, for a positive divisor `d`.
pub open spec fn tdiv(x: int, d: int) -> int
    recommends
        d > 0,
{
    if x >= 0 {
        x / d
    } else {
        -((-x) / d)
    }
}

/// Magnitude of an integer.
pub open spec fn iabs(x: int) -> int {
    if x >= 0 {
        x
    } else {
        -x
    }
}

/// Raw result of saturating addition.
pub open spec fn sat_add(a: int, b: int) -> int {
    sat64(a + b)
}

/// Raw result of saturating fixed-point multiplication: the raw product is
/// rescaled by `SCALE`, truncating toward zero.
pub open spec fn sat_mul(a: int, b: int) -> int {
    sat64(tdiv(a * b, SCALE as int))
}

/// Raw result of saturating fixed-point division (`b != 0`): the quotient is
/// scaled up by `SCALE`, truncating toward zero.
pub open spec fn sat_div(a: int, b: int) -> int
    recommends
        b != 0,
{
    if b >= 0 {
        sat64(tdiv(a * (SCALE as int), b))
    } else {
        sat64(tdiv(-(a * (SCALE as int)), -b))
    }
}

/// A fixed-point scalar: the rational `raw / SCALE`.
#[derive(Clone, Copy, Debug, PartialEq, Eq, Structural)]
pub struct Fx {
    /// The represented value times `SCALE`.
    pub raw: i64,
}

/// The scalar with the given raw value, at the specification level.
pub open spec fn spec_fx(raw: int) -> Fx {
    Fx { raw: raw as i64 }
}

proof fn lemma_mul_sign(a: int, b: int) by (nonlinear_arith)
    ensures
        a >= 0 && b >= 0 ==> a * b >= 0,
        a <= 0 && b <= 0 ==> a * b >= 0,
        a >= 0 && b <= 0 ==> a * b <= 0,
        a <= 0 && b >= 0 ==> a * b <= 0,
{
}

proof fn lemma_abs_mul(a: int, b: int)
    ensures
        iabs(a) * iabs(b) == iabs(a * b),
{
    if a >= 0 && b >= 0 {
        assert(a * b >= 0) by (nonlinear_arith)
            requires
                a >= 0,
                b >= 0,
        ;
    } else if a >= 0 && b < 0 {
        assert(a * b <= 0 && a * (-b) == -(a * b)) by (nonlinear_arith)
            requires
                a >= 0,
                b < 0,
        ;
    } else if a < 0 && b >= 0 {
        assert(a * b <= 0 && (-a) * b == -(a * b)) by (nonlinear_arith)
            requires
                a < 0,
                b >= 0,
        ;
    } else {
        assert(a * b >= 0 && (-a) * (-b) == a * b) by (nonlinear_arith)
            requires
                a < 0,
                b < 0,
        ;
    }
}

impl Fx {
    /// A scalar is well formed when its raw value avoids the one
    /// unrepresentable magnitude, so that negation never overflows.
    pub open spec fn wf(self) -> bool {
        -(RAW_MAX as int) <= self.raw as int
    }

    /// The additive identity.
    pub fn zero() -> (r: Fx)
        ensures
            r.raw == 0,
            r.wf(),
    {
        Fx { raw: 0 }
    }

    /// The multiplicative identity.
    pub fn one() -> (r: Fx)
        ensures
            r.raw == SCALE,
            r.wf(),
    {
        Fx { raw: SCALE }
    }

    /// The scalar representing the integer `n`.
    pub fn from_int(n: i64) -> (r: Fx)
        requires
            -(RAW_MAX as int) <= n * (SCALE as int) <= RAW_MAX as int,
        ensures
            r.raw == n * (SCALE as int),
            r.wf(),
    {
        Fx { raw: n * SCALE }
    }

    /// The scalar with the given raw value.
    pub fn from_raw(raw: i64) -> (r: Fx)
        requires
            raw != i64::MIN,
        ensures
            r.raw == raw,
            r.wf(),
    {
        Fx { raw }
    }

    /// Saturating addition.
    pub fn add(self, rhs: Fx) -> (r: Fx)
        requires
            self.wf(),
            rhs.wf(),
        ensures
            r.raw == sat_add(self.raw as int, rhs.raw as int),
            r.wf(),
    {
        let s: i128 = self.raw as i128 + rhs.raw as i128;
        let hi: i128 = RAW_MAX as i128;
        if s > hi {
            Fx { raw: RAW_MAX }
        } else if s < -hi {
            Fx { raw: -RAW_MAX }
        } else {
            Fx { raw: s as i64 }
        }
    }

    /// Exact negation.
    pub fn neg(self) -> (r: Fx)
        requires
            self.wf(),
        ensures
            r.raw == -(self.raw as int),
            r.wf(),
    {
        Fx { raw: -self.raw }
    }

    /// Saturating subtraction.
    pub fn sub(self, rhs: Fx) -> (r: Fx)
        requires
            self.wf(),
            rhs.wf(),
        ensures
            r.raw == sat64(self.raw - rhs.raw),
            r.wf(),
    {
        self.add(rhs.neg())
    }

    /// Saturating fixed-point multiplication.
    pub fn mul(self, rhs: Fx) -> (r: Fx)
        requires
            self.wf(),
            rhs.wf(),
        ensures
            r.raw == sat_mul(self.raw as int, rhs.raw as int),
            r.wf(),
    {
        let aneg: bool = self.raw < 0;
        let bneg: bool = rhs.raw < 0;
        let am: u64 = if aneg {
            (-self.raw) as u64
        } else {
            self.raw as u64
        };
        let bm: u64 = if bneg {
            (-rhs.raw) as u64
        } else {
            rhs.raw as u64
        };
        proof {
            assert((am as int) * (bm as int) <= (RAW_MAX as int) * (RAW_MAX as int))
                by (nonlinear_arith)
                requires
                    am as int <= RAW_MAX as int,
                    bm as int <= RAW_MAX as int,
            ;
        }
        let p: u128 = (am as u128) * (bm as u128);
        let q: u128 = p / (SCALE as u128);
        let ghost ab: int = (self.raw as int) * (rhs.raw as int);
        proof {
            lemma_abs_mul(self.raw as int, rhs.raw as int);
            lemma_mul_sign(self.raw as int, rhs.raw as int);
            assert(p == iabs(ab));
            assert(q == iabs(ab) / (SCALE as int));
        }
        let mag: u128 = if q > RAW_MAX as u128 {
            RAW_MAX as u128
        } else {
            q
        };
        let m64: i64 = mag as i64;
        if aneg != bneg {
            proof {
                assert(ab <= 0);
                assert(tdiv(ab, SCALE as int) == -(iabs(ab) / (SCALE as int)));
            }
            Fx { raw: -m64 }
        } else {
            proof {
                assert(ab >= 0);
                assert(tdiv(ab, SCALE as int) == iabs(ab) / (SCALE as int));
            }
            Fx { raw: m64 }
        }
    }

    /// Saturating fixed-point division.
    pub fn div(self, rhs: Fx) -> (r: Fx)
        requires
            self.wf(),
            rhs.wf(),
            rhs.raw != 0,
        ensures
            r.raw == sat_div(self.raw as int, rhs.raw as int),
            r.wf(),
    {
        let aneg: bool = self.raw < 0;
        let bneg: bool = rhs.raw < 0;
        let am: u64 = if aneg {
            (-self.raw) as u64
        } else {
            self.raw as u64
        };
        let bm: u64 = if bneg {
            (-rhs.raw) as u64
        } else {
            rhs.raw as u64
        };
        let p: u128 = (am as u128) * (SCALE as u128);
        let q: u128 = p / (bm as u128);
        let ghost a: int = self.raw as int;
        let ghost b: int = rhs.raw as int;
        proof {
            lemma_abs_mul(a, SCALE as int);
            assert(p == iabs(a * (SCALE as int)));
            assert(q == iabs(a * (SCALE as int)) / iabs(b));
        }
        let mag: u128 = if q > RAW_MAX as u128 {
            RAW_MAX as u128
        } else {
            q
        };
        let m64: i64 = mag as i64;
        proof {
            lemma_mul_sign(a, SCALE as int);
            if b >= 0 {
                if a >= 0 {
                    assert(tdiv(a * (SCALE as int), b) == iabs(a * (SCALE as int)) / iabs(b));
                } else {
                    assert(tdiv(a * (SCALE as int), b) == -(iabs(a * (SCALE as int)) / iabs(b)));
                }
            } else {
                if a >= 0 {
                    assert(tdiv(-(a * (SCALE as int)), -b) == -(iabs(a * (SCALE as int)) / iabs(
                        b,
                    )));
                } else {
                    assert(tdiv(-(a * (SCALE as int)), -b) == iabs(a * (SCALE as int)) / iabs(b));
                }
            }
        }
        if aneg != bneg {
            Fx { raw: -m64 }
        } else {
            Fx { raw: m64 }
        }
    }

    /// Saturating exponential `e^self`, truncating toward zero.
    ///
    /// Arguments at or beyond `EXP_CLAMP` in magnitude are saturated: below
    /// `-EXP_CLAMP` the true value is smaller than one raw step and the
    /// result is exactly zero; above `EXP_CLAMP` the result saturates to the
    /// largest representable scalar.
    pub fn exp(self) -> (r: Fx)
        requires
            self.wf(),
        ensures
            r.raw == spec_exp(self.raw as int),
            0 <= r.raw,
            r.wf(),
    {
        if self.raw <= -EXP_CLAMP {
            Fx { raw: 0 }
        } else if self.raw >= EXP_CLAMP {
            Fx { raw: RAW_MAX }
        } else if self.raw >= 0 {
            Fx { raw: exp_core(self.raw) }
        } else {
            let e: i64 = exp_core(-self.raw);
            let num: u128 = (SCALE as u128) * (SCALE as u128);
            let q: u128 = num / (e as u128);
            proof {
                lemma_div_is_ordered_by_denominator(
                    (SCALE as int) * (SCALE as int),
                    SCALE as int,
                    e as int,
                );
            }
            Fx { raw: q as i64 }
        }
    }
}

/// Raw arguments of magnitude at least `EXP_CLAMP` saturate the exponential.
pub const EXP_CLAMP: i64 = 30 * SCALE;

/// `e * SCALE`, truncated: one unit step of the saturating integer power.
pub const EXP_BASE: i64 = 178145;

/// Taylor term `j` of `e^f` for a fractional argument `0 <= f < SCALE`:
/// term 0 is `SCALE` (one), and each further term multiplies by `f / j`,
/// truncating.
pub open spec fn exp_term(f: int, j: nat) -> int
    decreases j,
{
    if j == 0 {
        SCALE as int
    } else {
        exp_term(f, (j - 1) as nat) * f / ((SCALE as int) * j)
    }
}

/// Partial Taylor sum of `e^f` through term `k`.
pub open spec fn exp_frac_sum(f: int, k: nat) -> int
    decreases k,
{
    if k == 0 {
        exp_term(f, 0)
    } else {
        exp_frac_sum(f, (k - 1) as nat) + exp_term(f, k)
    }
}

/// Saturating integer power `e^n` in raw form: starts at `SCALE` (one) and
/// multiplies by `EXP_BASE / SCALE` at every step, clamping to the
/// representable range.
pub open spec fn exp_int_pow(n: nat) -> int
    decreases n,
{
    if n == 0 {
        SCALE as int
    } else {
        sat64(exp_int_pow((n - 1) as nat) * (EXP_BASE as int) / (SCALE as int))
    }
}

/// The exponential of a raw argument `0 <= w < EXP_CLAMP`: the integer and
/// fractional factors are combined and rescaled, saturating.
pub open spec fn exp_pos(w: int) -> int {
    sat64(exp_int_pow((w / (SCALE as int)) as nat) * exp_frac_sum(w % (SCALE as int), 8) / (
    SCALE as int))
}

/// The saturating exponential on raw values.
pub open spec fn spec_exp(v: int) -> int {
    if v <= -(EXP_CLAMP as int) {
        0
    } else if v >= EXP_CLAMP as int {
        RAW_MAX as int
    } else if v >= 0 {
        exp_pos(v)
    } else {
        (SCALE as int) * (SCALE as int) / exp_pos(-v)
    }
}

proof fn lemma_exp_int_pow_bounds(n: nat)
    ensures
        SCALE as int <= exp_int_pow(n) <= RAW_MAX as int,
    decreases n,
{
    if n > 0 {
        lemma_exp_int_pow_bounds((n - 1) as nat);
        let prev = exp_int_pow((n - 1) as nat);
        lemma_mul_inequality(SCALE as int, prev, EXP_BASE as int);
        lemma_div_is_ordered(
            (SCALE as int) * (EXP_BASE as int),
            prev * (EXP_BASE as int),
            SCALE as int,
        );
        assert((SCALE as int) * (EXP_BASE as int) / (SCALE as int) == EXP_BASE as int) by {
            lemma_div_multiples_vanish(EXP_BASE as int, SCALE as int);
        }
    }
}

proof fn lemma_exp_frac_sum_bounds(f: int, k: nat)
    requires
        0 <= f < SCALE as int,
    ensures
        exp_term(f, k) >= 0,
        SCALE as int <= exp_frac_sum(f, k) <= (SCALE as int) * (k + 1),
    decreases k,
{
    lemma_exp_term_bounds(f, k);
    if k > 0 {
        lemma_exp_frac_sum_bounds(f, (k - 1) as nat);
        assert((SCALE as int) * (k + 1) == (SCALE as int) * k + SCALE as int) by (nonlinear_arith);
        assert((SCALE as int) * k == (SCALE as int) * ((k - 1) + 1)) by (nonlinear_arith);
    }
}

proof fn lemma_exp_term_bounds(f: int, k: nat)
    requires
        0 <= f < SCALE as int,
    ensures
        0 <= exp_term(f, k) <= SCALE as int,
    decreases k,
{
    if k > 0 {
        lemma_exp_term_bounds(f, (k - 1) as nat);
        let prev = exp_term(f, (k - 1) as nat);
        assert(prev * f >= 0) by (nonlinear_arith)
            requires
                prev >= 0,
                f >= 0,
        ;
        vstd::arithmetic::div_mod::lemma_div_pos_is_pos(prev * f, (SCALE as int) * k);
        assert(prev * f <= (SCALE as int) * (SCALE as int)) by (nonlinear_arith)
            requires
                0 <= prev <= SCALE as int,
                0 <= f <= SCALE as int,
        ;
        lemma_div_is_ordered(prev * f, (SCALE as int) * (SCALE as int), (SCALE as int) * k);
        lemma_div_is_ordered_by_denominator(
            (SCALE as int) * (SCALE as int),
            SCALE as int,
            (SCALE as int) * k,
        );
        assert((SCALE as int) * (SCALE as int) / (SCALE as int) == SCALE as int) by {
            lemma_div_multiples_vanish(SCALE as int, SCALE as int);
        }
        assert((SCALE as int) * k >= SCALE as int) by (nonlinear_arith)
            requires
                k >= 1,
        ;
    }
}

/// The exponential of a raw argument in `[0, EXP_CLAMP)`.
fn exp_core(w: i64) -> (r: i64)
    requires
        0 <= w < EXP_CLAMP,
    ensures
        r == exp_pos(w as int),
        SCALE <= r <= RAW_MAX,
{
    let wu: u64 = w as u64;
    let nu: u64 = wu / (SCALE as u64);
    let fu: u64 = wu % (SCALE as u64);
    proof {
        lemma_div_is_ordered(wu as int, (EXP_CLAMP - 1) as int, SCALE as int);
    }

    let mut acc: u128 = SCALE as u128;
    let mut i: u64 = 0;
    while i < nu
        invariant
            i <= nu,
            nu < 30,
            acc == exp_int_pow(i as nat),
            SCALE as int <= acc <= RAW_MAX as int,
        decreases nu - i,
    {
        proof {
            assert((acc as int) * (EXP_BASE as int) <= (RAW_MAX as int) * (EXP_BASE as int))
                by (nonlinear_arith)
                requires
                    0 <= acc as int <= RAW_MAX as int,
            ;
        }
        let t: u128 = acc * (EXP_BASE as u128) / (SCALE as u128);
        acc = if t > RAW_MAX as u128 {
            RAW_MAX as u128
        } else {
            t
        };
        i = i + 1;
        proof {
            lemma_exp_int_pow_bounds(i as nat);
        }
    }

    let mut term: u64 = SCALE as u64;
    let mut sum: u64 = SCALE as u64;
    let mut j: u64 = 1;
    while j <= 8
        invariant
            1 <= j <= 9,
            fu < SCALE as u64,
            term == exp_term(fu as int, (j - 1) as nat),
            sum == exp_frac_sum(fu as int, (j - 1) as nat),
            0 <= term <= SCALE as u64,
            SCALE as int <= sum <= (SCALE as int) * (j as int),
        decreases 9 - j,
    {
        proof {
            lemma_exp_term_bounds(fu as int, j as nat);
            lemma_exp_frac_sum_bounds(fu as int, j as nat);
            assert((term as int) * (fu as int) <= (SCALE as int) * (SCALE as int))
                by (nonlinear_arith)
                requires
                    0 <= term as int <= SCALE as int,
                    0 <= fu as int <= SCALE as int,
            ;
            assert((sum as int) + (SCALE as int) <= (SCALE as int) * 10) by (nonlinear_arith)
                requires
                    sum as int <= (SCALE as int) * (j as int),
                    j <= 8,
            ;
            assert((sum as int) + (SCALE as int) <= (SCALE as int) * ((j + 1) as int))
                by (nonlinear_arith)
                requires
                    sum as int <= (SCALE as int) * (j as int),
            ;
        }
        term = term * fu / ((SCALE as u64) * j);
        sum = sum + term;
        j = j + 1;
    }

    proof {
        assert((acc as int) * (sum as int) >= (SCALE as int) * (SCALE as int)) by (nonlinear_arith)
            requires
                acc as int >= SCALE as int,
                sum as int >= SCALE as int,
        ;
        assert((acc as int) * (sum as int) <= (RAW_MAX as int) * ((SCALE as int) * 9))
            by (nonlinear_arith)
            requires
                0 <= acc as int <= RAW_MAX as int,
                0 <= sum as int <= (SCALE as int) * 9,
        ;
        lemma_div_is_ordered(
            (SCALE as int) * (SCALE as int),
            (acc as int) * (sum as int),
            SCALE as int,
        );
        lemma_div_multiples_vanish(SCALE as int, SCALE as int);
    }
    let prod: u128 = acc * (sum as u128);
    let q: u128 = prod / (SCALE as u128);
    let r: u128 = if q > RAW_MAX as u128 {
        RAW_MAX as u128
    } else {
        q
    };
    r as i64
}

/// Raw acceptance probability of the stochastic update rule: the logistic
/// function `1 / (1 + e^(-field / t))` of the local field at temperature
/// `t`, as a raw value in `[0, SCALE]`.
///
/// A temperature of zero is the deterministic threshold limit: probability
/// one for a positive field, zero for a negative one, and one half at zero.
pub open spec fn spec_acceptance(field: int, t: int) -> int {
    if t == 0 {
        if field > 0 {
            SCALE as int
        } else if field < 0 {
            0
        } else {
            (SCALE as int) / 2
        }
    } else {
        (SCALE as int) * (SCALE as int) / ((SCALE as int) + spec_exp(sat_div(-field, t)))
    }
}

/// The value a unit takes after one stochastic update: one when the uniform
/// sample `u` falls below the acceptance probability, zero otherwise.
pub open spec fn spec_next_value(field: int, t: int, u: int) -> int {
    if u < spec_acceptance(field, t) {
        SCALE as int
    } else {
        0
    }
}

/// The acceptance probability `1 / (1 + e^(-field / temperature))`.
pub fn acceptance_probability(field: Fx, temperature: Fx) -> (p: Fx)
    requires
        field.wf(),
        temperature.wf(),
    ensures
        p.raw == spec_acceptance(field.raw as int, temperature.raw as int),
        0 <= p.raw <= SCALE,
        p.wf(),
{
    if temperature.raw == 0 {
        if field.raw > 0 {
            Fx::one()
        } else if field.raw < 0 {
            Fx::zero()
        } else {
            Fx { raw: SCALE / 2 }
        }
    } else {
        let v: Fx = field.neg().div(temperature);
        let e: Fx = v.exp();
        let num: u128 = (SCALE as u128) * (SCALE as u128);
        let den: u128 = (SCALE as u128) + (e.raw as u128);
        let q: u128 = num / den;
        proof {
            lemma_div_is_ordered_by_denominator(
                (SCALE as int) * (SCALE as int),
                SCALE as int,
                den as int,
            );
        }
        Fx { raw: q as i64 }
    }
}

/// One stochastic unit update: compares the uniform sample `u` against the
/// acceptance probability and returns one or zero.
pub fn next_value(field: Fx, temperature: Fx, u: Fx) -> (r: Fx)
    requires
        field.wf(),
        temperature.wf(),
        u.wf(),
    ensures
        r.raw == spec_next_value(field.raw as int, temperature.raw as int, u.raw as int),
        r.raw == 0 || r.raw == SCALE,
        r.wf(),
{
    let p: Fx = acceptance_probability(field, temperature);
    if u.raw < p.raw {
        Fx::one()
    } else {
        Fx::zero()
    }
}

proof fn lemma_sat64_monotonic(a: int, b: int)
    requires
        a <= b,
    ensures
        sat64(a) <= sat64(b),
{
}

proof fn lemma_tdiv_monotonic(x1: int, x2: int, d: int)
    requires
        x1 <= x2,
        0 < d,
    ensures
        tdiv(x1, d) <= tdiv(x2, d),
{
    if x1 >= 0 {
        lemma_div_is_ordered(x1, x2, d);
    } else if x2 < 0 {
        lemma_div_is_ordered(-x2, -x1, d);
    } else {
        vstd::arithmetic::div_mod::lemma_div_pos_is_pos(-x1, d);
        vstd::arithmetic::div_mod::lemma_div_pos_is_pos(x2, d);
    }
}

proof fn lemma_sat_div_monotonic(a1: int, a2: int, t: int)
    requires
        a1 <= a2,
        0 < t,
    ensures
        sat_div(a1, t) <= sat_div(a2, t),
{
    lemma_mul_inequality(a1, a2, SCALE as int);
    lemma_tdiv_monotonic(a1 * (SCALE as int), a2 * (SCALE as int), t);
    lemma_sat64_monotonic(tdiv(a1 * (SCALE as int), t), tdiv(a2 * (SCALE as int), t));
}

proof fn lemma_exp_term_monotonic(f1: int, f2: int, j: nat)
    requires
        0 <= f1 <= f2 < SCALE as int,
    ensures
        exp_term(f1, j) <= exp_term(f2, j),
    decreases j,
{
    lemma_exp_term_bounds(f1, j);
    lemma_exp_term_bounds(f2, j);
    if j > 0 {
        lemma_exp_term_monotonic(f1, f2, (j - 1) as nat);
        lemma_exp_term_bounds(f1, (j - 1) as nat);
        lemma_exp_term_bounds(f2, (j - 1) as nat);
        let t1 = exp_term(f1, (j - 1) as nat);
        let t2 = exp_term(f2, (j - 1) as nat);
        assert(t1 * f1 <= t2 * f2) by (nonlinear_arith)
            requires
                0 <= t1 <= t2,
                0 <= f1 <= f2,
        ;
        assert((SCALE as int) * j >= 1) by (nonlinear_arith)
            requires
                j >= 1,
        ;
        lemma_div_is_ordered(t1 * f1, t2 * f2, (SCALE as int) * j);
    }
}

proof fn lemma_exp_frac_sum_monotonic(f1: int, f2: int, k: nat)
    requires
        0 <= f1 <= f2 < SCALE as int,
    ensures
        exp_frac_sum(f1, k) <= exp_frac_sum(f2, k),
    decreases k,
{
    lemma_exp_term_monotonic(f1, f2, k);
    if k > 0 {
        lemma_exp_frac_sum_monotonic(f1, f2, (k - 1) as nat);
    }
}

proof fn lemma_exp_frac_sum_cap(f: int)
    requires
        0 <= f < SCALE as int,
    ensures
        exp_frac_sum(f, 8) <= EXP_BASE as int,
{
    lemma_exp_frac_sum_monotonic(f, (SCALE - 1) as int, 8);
    reveal_with_fuel(exp_frac_sum, 10);
    reveal_with_fuel(exp_term, 10);
    assert(exp_term(65535, 0) == 65536);
    assert(exp_term(65535, 1) == 65535);
    assert(exp_term(65535, 2) == 32767);
    assert(exp_term(65535, 3) == 10922);
    assert(exp_term(65535, 4) == 2730);
    assert(exp_term(65535, 5) == 545);
    assert(exp_term(65535, 6) == 90);
    assert(exp_term(65535, 7) == 12);
    assert(exp_term(65535, 8) == 1);
    assert(exp_frac_sum(65535, 8) == 178138);
}

proof fn lemma_exp_int_pow_monotonic(a: nat, b: nat)
    requires
        a <= b,
    ensures
        exp_int_pow(a) <= exp_int_pow(b),
    decreases b,
{
    if a < b {
        lemma_exp_int_pow_monotonic(a, (b - 1) as nat);
        lemma_exp_int_pow_bounds((b - 1) as nat);
        let prev = exp_int_pow((b - 1) as nat);
        assert(prev * (SCALE as int) <= prev * (EXP_BASE as int)) by (nonlinear_arith)
            requires
                0 <= prev,
        ;
        lemma_div_is_ordered(prev * (SCALE as int), prev * (EXP_BASE as int), SCALE as int);
        vstd::arithmetic::div_mod::lemma_div_by_multiple(prev, SCALE as int);
    }
}

proof fn lemma_exp_pos_bounds(w: int)
    requires
        0 <= w,
    ensures
        SCALE as int <= exp_pos(w) <= RAW_MAX as int,
{
    let s = SCALE as int;
    let n = w / s;
    let f = w % s;
    vstd::arithmetic::div_mod::lemma_div_pos_is_pos(w, s);
    lemma_exp_int_pow_bounds(n as nat);
    lemma_exp_frac_sum_bounds(f, 8);
    assert(exp_int_pow(n as nat) * exp_frac_sum(f, 8) >= s * s) by (nonlinear_arith)
        requires
            s == SCALE as int,
            exp_int_pow(n as nat) >= s,
            exp_frac_sum(f, 8) >= s,
    ;
    lemma_div_is_ordered(s * s, exp_int_pow(n as nat) * exp_frac_sum(f, 8), s);
    lemma_div_multiples_vanish(s, s);
}

proof fn lemma_exp_pos_monotonic(w1: int, w2: int)
    requires
        0 <= w1 <= w2,
    ensures
        exp_pos(w1) <= exp_pos(w2),
{
    let s = SCALE as int;
    let n1 = w1 / s;
    let f1 = w1 % s;
    let n2 = w2 / s;
    let f2 = w2 % s;
    vstd::arithmetic::div_mod::lemma_div_pos_is_pos(w1, s);
    lemma_div_is_ordered(w1, w2, s);
    lemma_exp_int_pow_bounds(n1 as nat);
    lemma_exp_int_pow_bounds(n2 as nat);
    lemma_exp_frac_sum_bounds(f1, 8);
    lemma_exp_frac_sum_bounds(f2, 8);
    let e1 = exp_int_pow(n1 as nat);
    let e2 = exp_int_pow(n2 as nat);
    let sum1 = exp_frac_sum(f1, 8);
    let sum2 = exp_frac_sum(f2, 8);
    if n1 == n2 {
        vstd::arithmetic::div_mod::lemma_fundamental_div_mod(w1, s);
        vstd::arithmetic::div_mod::lemma_fundamental_div_mod(w2, s);
        assert(f1 <= f2);
        lemma_exp_frac_sum_monotonic(f1, f2, 8);
        assert(e1 * sum1 <= e1 * sum2) by (nonlinear_arith)
            requires
                0 <= e1,
                sum1 <= sum2,
        ;
        lemma_div_is_ordered(e1 * sum1, e1 * sum2, s);
        lemma_sat64_monotonic(e1 * sum1 / s, e2 * sum2 / s);
    } else {
        // step from block `n1` up: the fractional factor never exceeds
        // `EXP_BASE`, so one whole multiplier step dominates it
        lemma_exp_frac_sum_cap(f1);
        assert(e1 * sum1 <= e1 * (EXP_BASE as int)) by (nonlinear_arith)
            requires
                0 <= e1,
                sum1 <= EXP_BASE as int,
        ;
        lemma_div_is_ordered(e1 * sum1, e1 * (EXP_BASE as int), s);
        lemma_sat64_monotonic(e1 * sum1 / s, e1 * (EXP_BASE as int) / s);
        assert(exp_int_pow((n1 + 1) as nat) == sat64(e1 * (EXP_BASE as int) / s));
        lemma_exp_int_pow_monotonic((n1 + 1) as nat, n2 as nat);
        // and the upper block's value is at least its integer factor
        assert(e2 * s <= e2 * sum2) by (nonlinear_arith)
            requires
                0 <= e2,
                s <= sum2,
        ;
        lemma_div_is_ordered(e2 * s, e2 * sum2, s);
        vstd::arithmetic::div_mod::lemma_div_by_multiple(e2, s);
        lemma_sat64_monotonic(e2, e2 * sum2 / s);
    }
}

proof fn lemma_spec_exp_bounds(v: int)
    ensures
        0 <= spec_exp(v) <= RAW_MAX as int,
{
    if v <= -(EXP_CLAMP as int) {
    } else if v >= EXP_CLAMP as int {
    } else if v >= 0 {
        lemma_exp_pos_bounds(v);
    } else {
        let s = SCALE as int;
        lemma_exp_pos_bounds(-v);
        vstd::arithmetic::div_mod::lemma_div_pos_is_pos(s * s, exp_pos(-v));
        lemma_div_is_ordered_by_denominator(s * s, s, exp_pos(-v));
        lemma_div_multiples_vanish(s, s);
    }
}

proof fn lemma_spec_exp_monotonic(v1: int, v2: int)
    requires
        v1 <= v2,
    ensures
        spec_exp(v1) <= spec_exp(v2),
{
    let s = SCALE as int;
    let c = EXP_CLAMP as int;
    lemma_spec_exp_bounds(v1);
    lemma_spec_exp_bounds(v2);
    if v1 <= -c || v2 >= c {
        // the outer branches are the extreme values, which the bounds cover
    } else if 0 <= v1 {
        lemma_exp_pos_monotonic(v1, v2);
    } else if v2 < 0 {
        lemma_exp_pos_monotonic(-v2, -v1);
        lemma_exp_pos_bounds(-v2);
        lemma_div_is_ordered_by_denominator(s * s, exp_pos(-v2), exp_pos(-v1));
    } else {
        // across zero: the reciprocal side stays at or below one, the
        // direct side at or above it
        lemma_exp_pos_bounds(-v1);
        lemma_exp_pos_bounds(v2);
        lemma_div_is_ordered_by_denominator(s * s, s, exp_pos(-v1));
        lemma_div_multiples_vanish(s, s);
    }
}

/// A zero local field is accepted with probability exactly one half, at
/// every temperature: the logistic rule is balanced at its midpoint.
pub proof fn lemma_zero_field_half(t: int)
    ensures
        spec_acceptance(0, t) == (SCALE as int) / 2,
{
    if t != 0 {
        let s = SCALE as int;
        vstd::arithmetic::div_mod::lemma_div_of0(t);
        vstd::arithmetic::div_mod::lemma_div_of0(-t);
        assert(sat_div(0, t) == 0);
        reveal_with_fuel(exp_frac_sum, 10);
        reveal_with_fuel(exp_term, 10);
        assert(exp_frac_sum(0, 8) == s);
        lemma_div_multiples_vanish(s, s);
        assert(spec_exp(0) == s);
        assert(spec_acceptance(0, t) == s * s / (s + s));
        assert(s * s / (s + s) == s / 2);
    }
}

/// A stronger local field never lowers the acceptance probability: at any
/// positive temperature the logistic rule is monotone in the field, so a
/// unit with more net excitatory input is at least as likely to turn on.
pub proof fn lemma_acceptance_monotone(field1: int, field2: int, t: int)
    requires
        0 < t,
        field1 <= field2,
    ensures
        spec_acceptance(field1, t) <= spec_acceptance(field2, t),
        forall|u: int|
            spec_next_value(field1, t, u) == SCALE as int ==> spec_next_value(field2, t, u)
                == SCALE as int,
{
    let s = SCALE as int;
    lemma_sat_div_monotonic(-field2, -field1, t);
    let v1 = sat_div(-field1, t);
    let v2 = sat_div(-field2, t);
    lemma_spec_exp_monotonic(v2, v1);
    lemma_spec_exp_bounds(v2);
    lemma_div_is_ordered_by_denominator(s * s, s + spec_exp(v2), s + spec_exp(v1));
}

/// At a low positive temperature a strongly positive local field is always
/// accepted: whenever `field >= 30 * t`, the exponent saturates and the
/// acceptance probability is exactly one, so every uniform sample below one
/// turns the unit on.
pub proof fn lemma_cold_activation(field: int, t: int)
    requires
        0 < t,
        30 * t <= field,
    ensures
        spec_acceptance(field, t) == SCALE as int,
        forall|u: int| 0 <= u < SCALE as int ==> spec_next_value(field, t, u) == SCALE as int,
{
    let s = SCALE as int;
    assert(field * s >= (30 * t) * s) by (nonlinear_arith)
        requires
            30 * t <= field,
            s > 0,
    ;
    assert((30 * t) * s == (30 * s) * t) by (nonlinear_arith);
    lemma_div_is_ordered((30 * s) * t, field * s, t);
    lemma_div_multiples_vanish(30 * s, t);
    assert((t * (30 * s)) == ((30 * s) * t)) by (nonlinear_arith);
    assert(field * s / t >= 30 * s);
    assert(sat_div(-field, t) <= -(EXP_CLAMP as int));
    assert(spec_exp(sat_div(-field, t)) == 0);
}

/// At a low positive temperature a strongly negative local field is never
/// accepted: whenever `field <= -30 * t`, the exponent saturates the other
/// way and the acceptance probability is exactly zero, so no uniform sample
/// turns the unit on.
pub proof fn lemma_cold_suppression(field: int, t: int)
    requires
        0 < t,
        field <= -30 * t,
    ensures
        spec_acceptance(field, t) == 0,
        forall|u: int| 0 <= u ==> spec_next_value(field, t, u) == 0,
{
    let s = SCALE as int;
    assert((-field) * s >= (30 * t) * s) by (nonlinear_arith)
        requires
            30 * t <= -field,
            s > 0,
    ;
    assert((30 * t) * s == (30 * s) * t) by (nonlinear_arith);
    lemma_div_is_ordered((30 * s) * t, (-field) * s, t);
    lemma_div_multiples_vanish(30 * s, t);
    assert((t * (30 * s)) == ((30 * s) * t)) by (nonlinear_arith);
    assert((-field) * s / t >= 30 * s);
    assert(-(field * s) == (-field) * s) by (nonlinear_arith);
    assert(sat_div(-field, t) >= EXP_CLAMP as int);
    assert(spec_exp(sat_div(-field, t)) == RAW_MAX as int);
    lemma_basic_div(s * s, s + RAW_MAX as int);
}

} // verus!
