use silinapse::Compute;
use silinapse::fixed::Fx;
use silinapse::util::Chain;
use silinapse::util::FixedOutput;
use silinapse::util::Identity;
use silinapse::util::Parallel;

fn fx(x: f32) -> Fx {
    Fx::from_raw((x * 65536.0).round() as i64)
}

#[test]
fn identity() {
    let id = Identity::new(4);
    assert_eq!(
        id.compute(&[fx(1.0), fx(2.0), fx(3.0), fx(4.0), fx(5.0), fx(6.0)]),
        [fx(1.0), fx(2.0), fx(3.0), fx(4.0)]
    );
    assert_eq!(id.compute(&[fx(1.0), fx(2.0)]), [fx(1.0), fx(2.0), fx(0.0), fx(0.0)]);
}

#[test]
fn chain() {
    let ch = Chain::new(Identity::new(4), Identity::new(6));
    assert_eq!(
        ch.compute(&[fx(1.0), fx(2.0), fx(3.0)]),
        [fx(1.0), fx(2.0), fx(3.0), fx(0.0), fx(0.0), fx(0.0)]
    );
}

#[test]
fn parallel() {
    let ch = Parallel::new(Identity::new(4), Identity::new(2));
    assert_eq!(
        ch.compute(&[fx(1.0), fx(2.0), fx(3.0)]),
        [fx(1.0), fx(2.0), fx(3.0), fx(0.0), fx(1.0), fx(2.0)]
    );
}

#[test]
fn fixed_output() {
    let f = FixedOutput::new(&[fx(2.0), fx(-1.5)]);
    let no_input: [Fx; 0] = [];
    assert_eq!(f.compute(&no_input), [fx(2.0), fx(-1.5)]);
    assert_eq!(f.compute(&[fx(9.0)]), [fx(2.0), fx(-1.5)]);
    assert_eq!(f.output_size(), 2);
    assert_eq!(f.input_size(), 0);
}

#[test]
fn sizes_through_adapters() {
    let ch = Chain::new(Identity::new(4), Identity::new(6));
    assert_eq!(ch.input_size(), 4);
    assert_eq!(ch.output_size(), 6);
    let pa = Parallel::new(Identity::new(4), Identity::new(2));
    assert_eq!(pa.input_size(), 4);
    assert_eq!(pa.output_size(), 6);
}
