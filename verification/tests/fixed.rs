use silinapse::fixed::Fx;
use silinapse::fixed::acceptance_probability;
use silinapse::fixed::next_value;
use silinapse::rng::Sampler;

fn fx(x: f32) -> Fx {
    Fx::from_raw((x * 65536.0).round() as i64)
}

#[test]
fn exact_arithmetic() {
    assert_eq!(fx(1.5).add(fx(2.25)), fx(3.75));
    assert_eq!(fx(1.5).sub(fx(2.0)), fx(-0.5));
    assert_eq!(fx(1.5).mul(fx(2.0)), fx(3.0));
    assert_eq!(fx(-1.5).mul(fx(2.0)), fx(-3.0));
    assert_eq!(fx(3.0).div(fx(2.0)), fx(1.5));
    assert_eq!(fx(-3.0).div(fx(2.0)), fx(-1.5));
    assert_eq!(fx(2.0).neg(), fx(-2.0));
    assert_eq!(Fx::from_int(3), fx(3.0));
    assert_eq!(Fx::one(), fx(1.0));
    assert_eq!(Fx::zero(), fx(0.0));
}

#[test]
fn saturation_at_the_edges() {
    let top = Fx::from_raw(i64::MAX);
    assert_eq!(top.add(Fx::one()).raw, i64::MAX);
    assert_eq!(top.mul(Fx::from_int(2)).raw, i64::MAX);
    let bottom = Fx::from_raw(-i64::MAX);
    assert_eq!(bottom.sub(Fx::one()).raw, -i64::MAX);
    assert_eq!(bottom.mul(Fx::from_int(2)).raw, -i64::MAX);
}

#[test]
fn products_truncate_toward_zero() {
    // one raw step times one raw step is far below resolution
    assert_eq!(Fx::from_raw(1).mul(Fx::from_raw(1)).raw, 0);
    assert_eq!(Fx::from_raw(-1).mul(Fx::from_raw(1)).raw, 0);
    // -3/2 in raw steps truncates toward zero
    assert_eq!(Fx::from_raw(-3).div(Fx::from_int(2)).raw, -1);
}

#[test]
fn exponential_values() {
    assert_eq!(Fx::zero().exp().raw, 65536);
    assert_eq!(Fx::one().exp().raw, 178145);
    assert_eq!(Fx::one().neg().exp().raw, 24109);
    assert_eq!(Fx::from_int(30).exp().raw, i64::MAX);
    assert_eq!(Fx::from_int(-30).exp().raw, 0);
    assert_eq!(Fx::from_int(-100).exp().raw, 0);
}

#[test]
fn acceptance_probability_values() {
    // a zero field is accepted with probability one half
    assert_eq!(acceptance_probability(Fx::zero(), Fx::one()).raw, 32768);
    // strongly positive and negative fields saturate at a cold temperature
    assert_eq!(acceptance_probability(Fx::from_int(10), fx(0.25)).raw, 65536);
    assert_eq!(acceptance_probability(Fx::from_int(-10), fx(0.25)).raw, 0);
    // at temperature zero the rule is the deterministic threshold
    assert_eq!(acceptance_probability(Fx::from_int(10), Fx::zero()).raw, 65536);
    assert_eq!(acceptance_probability(Fx::from_int(-10), Fx::zero()).raw, 0);
    assert_eq!(acceptance_probability(Fx::zero(), Fx::zero()).raw, 32768);
}

#[test]
fn acceptance_probability_grows_with_the_field() {
    let low = acceptance_probability(Fx::from_int(-1), Fx::one());
    let mid = acceptance_probability(Fx::zero(), Fx::one());
    let high = acceptance_probability(Fx::from_int(1), Fx::one());
    assert!(low.raw < mid.raw);
    assert!(mid.raw < high.raw);
}

#[test]
fn next_value_follows_the_sample() {
    // p is one half: a sample below turns the unit on, one above turns it off
    assert_eq!(next_value(Fx::zero(), Fx::one(), fx(0.4)), Fx::one());
    assert_eq!(next_value(Fx::zero(), Fx::one(), fx(0.6)), Fx::zero());
}

#[test]
fn sampler_ranges() {
    let mut rng = Sampler::from_seed(7);
    for _ in 0..100 {
        assert_eq!(rng.below(1), 0);
        assert!(rng.below(5) < 5);
        let u = rng.unit();
        assert!(0 <= u.raw && u.raw < 65536);
    }
}

#[test]
fn sampler_seed_reproducibility() {
    let mut a = Sampler::from_seed(42);
    let mut b = Sampler::from_seed(42);
    for _ in 0..20 {
        assert_eq!(a.below(1000), b.below(1000));
        assert_eq!(a.unit(), b.unit());
    }
}
