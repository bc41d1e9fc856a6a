use simplepir::element::Element;
use simplepir::matrix::Matrix;

fn gen_q() -> u64 {
    return 101u64;
}

// Tests for the matrix type
fn gen_matrix_3_2() -> Matrix {
    let q = gen_q();
    // 3 rows, 2 cols
    Matrix::from(
        &vec![
            vec![Element::from(q, 1u64), Element::from(q, 2u64), Element::from(q, 3u64)],
            vec![Element::from(q, 4u64), Element::from(q, 5u64), Element::from(q, 6u64)],
        ]
    )
}

fn gen_matrix_2_3() -> Matrix {
    let q = gen_q();
    // 2 rows, 3 cols
    Matrix::from(
        &vec![
            vec![Element::from(q, 1u64), Element::from(q, 4u64)],
            vec![Element::from(q, 2u64), Element::from(q, 5u64)],
            vec![Element::from(q, 3u64), Element::from(q, 6u64)],
        ]
    )
}

fn gen_matrix_2_2() -> Matrix {
    let q = gen_q();
    // 2 rows, 2 cols
    Matrix::from(
        &vec![
            vec![Element::from(q, 14u64), Element::from(q, 32u64)],
            vec![Element::from(q, 32u64), Element::from(q, 77u64)],
        ]
    )
}

fn gen_matrix_1_2() -> Matrix {
    let q = gen_q();
    // 1 rows, 2 cols
    Matrix::from(
        &vec![
            vec![Element::from(q, 14u64)], vec![Element::from(q, 32u64)]
        ]
    )
}

fn gen_vec_3() -> Vec<Element> {
    let q = gen_q();
    vec![
        Element::from(q, 1u64),
        Element::from(q, 2u64),
        Element::from(q, 3u64),
    ]
}

#[test]
fn test_indices() {
    let q = gen_q();
    let mut m = gen_matrix_3_2();
    assert_eq!(m.data[0][0], Element::from(q, 1u64));
    assert_eq!(m.data[0][1], Element::from(q, 2u64));
    assert_eq!(m.data[1][1], Element::from(q, 5u64));

    m.data[1][1] = Element::from(q, 0u64);
    assert_eq!(m.data[1][1], Element::from(q, 0u64));
}

#[test]
fn test_rotation() {
    let m = gen_matrix_3_2();
    let n = gen_matrix_2_3();
    assert_eq!(m.rotated(), n);
}

#[test]
fn matrix_test_mul() {
    // 3 rows, 2 cols
    let m = gen_matrix_3_2();
    // 2 rows, 3 cols
    let n = gen_matrix_2_3();
    // Should have 3 rows and 3 columns
    let o = gen_matrix_2_2();
    assert_eq!(m * n, o);
}

#[test]
fn matrix_test_mul_assign() {
    let mut m = gen_matrix_3_2();
    let n = gen_matrix_2_3();
    let o = gen_matrix_2_2();
    m.mul_assign(n);
    assert_eq!(m, o);
}

#[test]
fn test_mul_vec() {
    let m = gen_matrix_3_2();
    let v = gen_vec_3();
    let r = gen_matrix_1_2();
    assert_eq!(m.mul_vec(&v), r);
}

#[test]
fn matrix_test_add() {
    let m = gen_matrix_3_2();
    let n = gen_matrix_3_2();
    let o = m.clone() + n.clone();

    for (i, row) in o.data.iter().enumerate() {
        for (j, val) in row.iter().enumerate() {
            assert_eq!(*val, m.data[i][j].clone() + n.data[i][j].clone());
        }
    }
}

#[test]
fn matrix_test_add_assign() {
    let mut m = gen_matrix_3_2();
    let n = gen_matrix_3_2();
    let o = m.clone();
    m.add_assign(n.clone());

    for (i, row) in m.data.iter().enumerate() {
        for (j, val) in row.iter().enumerate() {
            assert_eq!(*val, o.data[i][j].clone() + n.data[i][j].clone());
        }
    }
}

#[test]
fn test_rotation_involutive() {
    let m = gen_matrix_3_2();
    assert_eq!(m.clone().rotated().rotated(), m);
    let n = gen_matrix_2_3();
    assert_eq!(n.clone().rotated().rotated(), n);
}

#[test]
fn test_mul_associative() {
    let a = gen_matrix_3_2();
    let b = gen_matrix_2_3();
    let c = gen_matrix_3_2();
    let lhs = (a.clone() * b.clone()) * c.clone();
    let rhs = a * (b * c);
    assert_eq!(lhs, rhs);
}

#[test]
fn test_sub_wraps() {
    let q = gen_q();
    let m = gen_matrix_3_2();
    let n = gen_matrix_2_2();
    // 14 - 1 = 13, 32 - 2 = 30, 32 - 4 = 28, 77 - 5 = 72 (mod 101)
    let d = n - Matrix::from(&vec![
        vec![Element::from(q, 1u64), Element::from(q, 2u64)],
        vec![Element::from(q, 4u64), Element::from(q, 5u64)],
    ]);
    assert_eq!(d.data[0][0].uint, 13u64);
    assert_eq!(d.data[0][1].uint, 30u64);
    assert_eq!(d.data[1][0].uint, 28u64);
    assert_eq!(d.data[1][1].uint, 72u64);
    // wrap-around: 1 - 2 = q - 1
    let w = m.clone() - (m + gen_matrix_3_2());
    assert_eq!(w.data[0][0].uint, 100u64);
}

#[test]
fn test_decompose_recompose_round_trip() {
    let q: u64 = 3329;
    let p: u64 = 2;
    let m = Matrix::from(&vec![
        vec![Element::from(q, 0u64), Element::from(q, 3328u64), Element::from(q, 1664u64)],
        vec![Element::from(q, 1u64), Element::from(q, 2u64), Element::from(q, 3u64)],
    ]);
    let back = m.clone().decomposed(p).recompose(p, q);
    assert_eq!(back, m);

    // a small modulus and base-3 digits
    let q2: u64 = 100;
    let m2 = Matrix::from(&vec![
        vec![Element::from(q2, 99u64), Element::from(q2, 0u64)],
        vec![Element::from(q2, 42u64), Element::from(q2, 7u64)],
    ]);
    let back2 = m2.clone().decomposed(3).recompose(3, q2);
    assert_eq!(back2, m2);
}

#[test]
fn test_decompose_digits() {
    // 13 in base 2 over 4 digits (q = 16 needs exactly 4): 1, 0, 1, 1
    let q: u64 = 16;
    let m = Matrix::from(&vec![vec![Element::from(q, 13u64)]]);
    let d = m.decomposed(2);
    assert_eq!(d.data.len(), 4);
    let digits: Vec<u64> = d.data.iter().map(|col| col[0].uint).collect();
    assert_eq!(digits, vec![1u64, 0u64, 1u64, 1u64]);
}

#[test]
fn test_gen_uniform_rand_shape() {
    let m = Matrix::gen_uniform_rand(5, 3, 4);
    assert_eq!(m.num_cols(), 4);
    assert_eq!(m.num_rows(), 3);
    for col in m.data.iter() {
        for e in col.iter() {
            assert!(e.uint < 5);
            assert_eq!(e.q, 5u64);
        }
    }
}
