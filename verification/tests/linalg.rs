use silinapse::fixed::Fx;
use silinapse::linalg::Matrix;
use silinapse::linalg::Vector;
use silinapse::rng::Sampler;

fn fx(x: f32) -> Fx {
    Fx::from_raw((x * 65536.0).round() as i64)
}

#[test]
fn basic_vector_operations() {
    let a = Vector::from_slice(&[fx(1.0), fx(2.0), fx(3.0), fx(4.0), fx(5.0)]);
    let b = Vector::from_slice(&[fx(0.5), fx(1.0), fx(1.5), fx(2.0), fx(2.5)]);
    assert_eq!(b.scale(fx(2.0)), a);
    assert_eq!(a.div_scalar(fx(2.0)), b);
    assert_eq!(a.sub(&b), b);
    assert_eq!(b.add(&b), a);
}

#[test]
fn vector_product() {
    let a = Vector::from_slice(&[fx(1.0), fx(2.0), fx(3.0), fx(4.0), fx(5.0)]);
    let b = Vector::from_slice(&[fx(0.5), fx(1.0), fx(1.5), fx(2.0), fx(2.5)]);
    assert_eq!(a.dot(&b), fx(27.5));
}

#[test]
fn basic_matrix_operations() {
    let a = Matrix::from_slices(&vec![vec![fx(1.0), fx(2.0)], vec![fx(2.0), fx(3.0)]]);
    let b = Matrix::from_slices(&vec![vec![fx(0.5), fx(1.0)], vec![fx(1.0), fx(1.5)]]);
    assert_eq!(b.scale(fx(2.0)), a);
    assert_eq!(a.div_scalar(fx(2.0)), b);
    assert_eq!(a.sub(&b), b);
    assert_eq!(b.add(&b), a);
}

#[test]
fn matrix_vector_operations() {
    let a = Matrix::from_slices(&vec![
        vec![fx(1.0), fx(2.0), fx(3.0)],
        vec![fx(3.0), fx(4.0), fx(5.0)],
    ]);
    let x = Vector::from_slice(&[fx(0.5), fx(1.0), fx(1.5)]);
    let y = Vector::from_slice(&[fx(0.5), fx(1.0)]);
    assert_eq!(a.mul_vector(&x), Vector::from_slice(&[fx(7.0), fx(13.0)]));
    assert_eq!(y.mul_matrix(&a), Vector::from_slice(&[fx(3.5), fx(5.0), fx(6.5)]));
}

#[test]
fn matrix_product() {
    let a = Matrix::from_slices(&vec![vec![fx(1.0), fx(2.0)], vec![fx(3.0), fx(4.0)]]);
    let b = Matrix::from_slices(&vec![vec![fx(5.0), fx(6.0)], vec![fx(7.0), fx(8.0)]]);
    let c = Matrix::from_slices(&vec![vec![fx(19.0), fx(22.0)], vec![fx(43.0), fx(50.0)]]);
    assert_eq!(a.mul_matrix(&b), c);
}

#[test]
fn matrix_entries_and_dims() {
    let a = Matrix::from_slices(&vec![
        vec![fx(1.0), fx(2.0), fx(3.0)],
        vec![fx(4.0), fx(5.0), fx(6.0)],
    ]);
    assert_eq!(a.dims(), (2, 3));
    assert_eq!(a.get(0, 0), fx(1.0));
    assert_eq!(a.get(1, 2), fx(6.0));
    let mut b = a;
    b.set(1, 0, fx(9.0));
    assert_eq!(b.get(1, 0), fx(9.0));
    assert_eq!(b.get(0, 0), fx(1.0));
}

#[test]
fn vector_structure() {
    let a = Vector::from_slice(&[fx(1.0), fx(2.0), fx(3.0)]);
    assert_eq!(a.dim(), 3);
    assert_eq!(a.get(1), fx(2.0));
    let doubled = a.map(|x| x.add(x));
    assert_eq!(doubled, Vector::from_slice(&[fx(2.0), fx(4.0), fx(6.0)]));
    let row = Vector::from_slice(&[fx(1.0), fx(2.0)]).into_row_matrix();
    assert_eq!(row.dims(), (1, 2));
    let col = Vector::from_slice(&[fx(1.0), fx(2.0)]).into_column_matrix();
    assert_eq!(col.dims(), (2, 1));
    assert_eq!(Vector::zeros(2), Vector::from_slice(&[fx(0.0), fx(0.0)]));
    assert_eq!(Vector::ones(2), Vector::from_slice(&[fx(1.0), fx(1.0)]));
}

#[test]
fn random_fills_stay_in_range() {
    let mut rng = Sampler::from_seed(11);
    let v = Vector::random(32, &mut rng);
    for k in 0..32 {
        let x = v.get(k);
        assert!(0 <= x.raw && x.raw < 65536);
    }
    let m = Matrix::random(5, 7, &mut rng);
    assert_eq!(m.dims(), (5, 7));
    for i in 0..5 {
        for j in 0..7 {
            let x = m.get(i, j);
            assert!(0 <= x.raw && x.raw < 65536);
        }
    }
}
