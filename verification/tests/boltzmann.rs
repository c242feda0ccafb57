use silinapse::SymmetricMatrix;
use silinapse::boltzmann::BoltzmannMachine;
use silinapse::fixed::Fx;
use silinapse::rng::Sampler;

fn fx(x: f32) -> Fx {
    Fx::from_raw((x * 65536.0).round() as i64)
}

#[test]
fn bias_length_precondition() {
    let coeffs = SymmetricMatrix::zeros(3);
    let short = vec![Fx::zero(), Fx::zero()];
    assert!(BoltzmannMachine::checked_with_biases(coeffs, short).is_none());

    let coeffs = SymmetricMatrix::zeros(3);
    let exact = vec![fx(0.5), fx(-0.5), fx(1.0)];
    let m = BoltzmannMachine::checked_with_biases(coeffs, exact).unwrap();
    for k in 0..3 {
        assert_eq!(m.values()[k], Fx::one());
    }
}

#[test]
fn construction_defaults() {
    let mut coeffs = SymmetricMatrix::zeros(2);
    coeffs.set(0, 1, fx(0.25));
    let m = BoltzmannMachine::new(coeffs);
    assert_eq!(m.values().len(), 2);
    assert_eq!(m.values()[0], Fx::one());
    assert_eq!(m.values()[1], Fx::one());
}

#[test]
fn deterministic_under_fixed_samples() {
    let build = || {
        let mut coeffs = SymmetricMatrix::zeros(3);
        coeffs.set(0, 1, fx(0.5));
        coeffs.set(1, 2, fx(-0.75));
        BoltzmannMachine::with_biases(coeffs, vec![fx(0.25), fx(-0.5), fx(1.5)])
    };
    let samples = vec![fx(0.3), fx(0.6), fx(0.1)];
    let mut m1 = build();
    let mut m2 = build();
    m1.tick_all_with_samples(fx(1.0), &samples);
    m2.tick_all_with_samples(fx(1.0), &samples);
    assert_eq!(m1.values(), m2.values());

    // and again through identically seeded samplers
    let mut m3 = build();
    let mut m4 = build();
    let mut r3 = Sampler::from_seed(99);
    let mut r4 = Sampler::from_seed(99);
    for _ in 0..10 {
        m3.tick_all_sequential(fx(1.0), &mut r3);
        m4.tick_all_sequential(fx(1.0), &mut r4);
    }
    assert_eq!(m3.values(), m4.values());
}

#[test]
fn exclusion_respected() {
    let mut coeffs = SymmetricMatrix::zeros(3);
    coeffs.set(0, 1, fx(0.5));
    coeffs.set(1, 2, fx(0.5));
    let mut m = BoltzmannMachine::with_biases(coeffs, vec![fx(0.1), fx(0.1), fx(0.1)]);
    m.set_value(0, fx(42.0));
    m.set_value(2, fx(-7.0));
    let mut rng = Sampler::from_seed(5);
    let avoid = [0usize, 2usize];
    for _ in 0..200 {
        let picked = m.tick_one_random(fx(1.0), &avoid, &mut rng);
        assert_eq!(picked, Some(1));
    }
    assert_eq!(m.values()[0], fx(42.0));
    assert_eq!(m.values()[2], fx(-7.0));
}

#[test]
fn full_exclusion_reports_and_leaves_state() {
    let coeffs = SymmetricMatrix::zeros(2);
    let mut m = BoltzmannMachine::new(coeffs);
    let mut rng = Sampler::from_seed(1);
    let avoid = [0usize, 1usize];
    let picked = m.tick_one_random(fx(1.0), &avoid, &mut rng);
    assert_eq!(picked, None);
    assert_eq!(m.values()[0], Fx::one());
    assert_eq!(m.values()[1], Fx::one());
}

#[test]
fn temperature_limit_for_isolated_unit() {
    // a lone unit with positive bias is always switched on at a cold
    // temperature, and with negative bias always off
    let mut on = BoltzmannMachine::with_biases(SymmetricMatrix::zeros(1), vec![fx(10.0)]);
    let mut off = BoltzmannMachine::with_biases(SymmetricMatrix::zeros(1), vec![fx(-10.0)]);
    let mut rng = Sampler::from_seed(3);
    for _ in 0..100 {
        on.tick_all_sequential(fx(0.25), &mut rng);
        assert_eq!(on.values()[0], Fx::one());
        off.tick_all_sequential(fx(0.25), &mut rng);
        assert_eq!(off.values()[0], Fx::zero());
    }
}

#[test]
fn zero_temperature_threshold() {
    // at temperature zero the update is the deterministic threshold of the
    // local field; at field zero the tie goes by the sample against one half
    let mut m = BoltzmannMachine::with_biases(SymmetricMatrix::zeros(1), vec![fx(1.0)]);
    m.tick_all_with_samples(Fx::zero(), &vec![fx(0.999)]);
    assert_eq!(m.values()[0], Fx::one());

    let mut m = BoltzmannMachine::with_biases(SymmetricMatrix::zeros(1), vec![fx(-1.0)]);
    m.tick_all_with_samples(Fx::zero(), &vec![fx(0.001)]);
    assert_eq!(m.values()[0], Fx::zero());

    let mut m = BoltzmannMachine::with_biases(SymmetricMatrix::zeros(1), vec![fx(0.0)]);
    m.tick_all_with_samples(Fx::zero(), &vec![fx(0.4)]);
    assert_eq!(m.values()[0], Fx::one());
    m.tick_all_with_samples(Fx::zero(), &vec![fx(0.6)]);
    assert_eq!(m.values()[0], Fx::zero());
}

#[test]
fn concrete_pinned_scenario() {
    // two units, a strongly negative coupling, unit 0 pinned on: unit 1's
    // local field is 10 + 1 * (-100) = -90, so it settles at zero
    let mut coeffs = SymmetricMatrix::zeros(2);
    coeffs.set(0, 1, Fx::from_int(-100));
    let mut m = BoltzmannMachine::with_biases(coeffs, vec![Fx::from_int(10), Fx::from_int(10)]);
    m.set_value(0, Fx::one());
    let avoid = [0usize];
    let mut rng = Sampler::from_seed(1234);
    for _ in 0..200 {
        let picked = m.tick_one_random(fx(1.0), &avoid, &mut rng);
        assert_eq!(picked, Some(1));
    }
    assert_eq!(m.values()[1], Fx::zero());
    assert_eq!(m.values()[0], Fx::one());
}

#[test]
fn local_field_matches_hand_computation() {
    // field of unit 0: bias + value(1) * w(0,1) = 0.5 + 1 * -0.25 = 0.25
    let mut coeffs = SymmetricMatrix::zeros(2);
    coeffs.set(0, 1, fx(-0.25));
    let m = BoltzmannMachine::with_biases(coeffs, vec![fx(0.5), fx(0.0)]);
    assert_eq!(m.local_field(0), fx(0.25));
    // field of unit 1: bias + value(0) * w(1,0) = 0 + 1 * -0.25
    assert_eq!(m.local_field(1), fx(-0.25));
}

#[test]
fn wholesale_value_overwrite() {
    let coeffs = SymmetricMatrix::zeros(3);
    let mut m = BoltzmannMachine::new(coeffs);
    m.set_values(vec![fx(0.0), fx(1.0), fx(0.5)]);
    assert_eq!(m.values()[0], fx(0.0));
    assert_eq!(m.values()[1], fx(1.0));
    assert_eq!(m.values()[2], fx(0.5));
}
