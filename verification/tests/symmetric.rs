use silinapse::SymmetricMatrix;
use silinapse::fixed::Fx;

#[test]
fn symmetry() {
    let mut matrix = SymmetricMatrix::zeros(8);
    // lower diagonal
    for i in 0..8usize {
        for j in 0..(i + 1) {
            matrix.set(i, j, Fx::from_int((i as i64) * 100 + (j as i64)));
        }
    }
    // check values of upper diagonal
    for i in 0..8usize {
        for j in i..8 {
            assert_eq!(matrix.get(i, j), Fx::from_int((j as i64) * 100 + (i as i64)));
        }
    }
}

#[test]
fn write_through_either_order() {
    let mut m = SymmetricMatrix::zeros(4);
    m.set(1, 2, Fx::from_int(7));
    assert_eq!(m.get(2, 1), Fx::from_int(7));
    assert_eq!(m.get(1, 2), Fx::from_int(7));
    m.set(2, 1, Fx::from_int(-3));
    assert_eq!(m.get(1, 2), Fx::from_int(-3));
    // untouched pairs keep their value
    assert_eq!(m.get(0, 3), Fx::zero());
    assert_eq!(m.get(2, 2), Fx::zero());
}

#[test]
fn packed_size() {
    assert_eq!(SymmetricMatrix::zeros(0).coeff_count(), 0);
    assert_eq!(SymmetricMatrix::zeros(1).coeff_count(), 1);
    assert_eq!(SymmetricMatrix::zeros(8).coeff_count(), 36);
    assert_eq!(SymmetricMatrix::zeros(100).coeff_count(), 5050);
    let mut m = SymmetricMatrix::zeros(8);
    assert_eq!(m.size(), 8);
    m.set(3, 5, Fx::one());
    assert_eq!(m.coeff_count(), 36);
}
