use graph_matrix::matrix::Matrix;

#[test]
fn test_mul_identity_1() {
    let a = Matrix::from_vec(
        vec![
            1, 0, 0, //
            0, 1, 0, //
            0, 0, 1,
        ],
        3,
        3,
    );

    let b = Matrix::from_vec(
        vec![
            1, 0, 0, //
            0, 1, 0, //
            0, 0, 1,
        ],
        3,
        3,
    );

    let res = a.mul(&b);
    assert_eq!(res, a);
}

#[test]
fn test_mul_identity_2() {
    let a = Matrix::from_vec(
        vec![
            1, 2, 3, //
            4, 5, 6, //
            7, 8, 9,
        ],
        3,
        3,
    );

    let b = Matrix::from_vec(
        vec![
            1, 0, 0, //
            0, 1, 0, //
            0, 0, 1,
        ],
        3,
        3,
    );

    let res = a.mul(&b);
    assert_eq!(res, a);
}

#[test]
fn test_mul_same() {
    let a = Matrix::from_vec(
        vec![
            1, 2, 3, //
            4, 5, 6, //
            7, 8, 9,
        ],
        3,
        3,
    );

    let res = a.mul(&a);
    assert_eq!(
        res,
        Matrix::from_vec(
            vec![
                30, 36, 42, //
                66, 81, 96, //
                102, 126, 150,
            ],
            3,
            3
        )
    );
}

#[test]
fn test_mul_identity_rectangular() {
    let a = Matrix::from_vec(
        vec![
            1, 2, 3, //
            4, 5, 6,
        ],
        2,
        3,
    );
    let i3 = Matrix::from_vec(
        vec![
            1, 0, 0, //
            0, 1, 0, //
            0, 0, 1,
        ],
        3,
        3,
    );
    let i2 = Matrix::from_vec(
        vec![
            1, 0, //
            0, 1,
        ],
        2,
        2,
    );
    assert_eq!(a.mul(&i3), a);
    assert_eq!(i2.mul(&a), a);
}

#[test]
fn test_mul_associative() {
    let a = Matrix::from_vec(vec![1, 2, 3, 4, 5, 6], 2, 3);
    let b = Matrix::from_vec(vec![7, 8, 9, 10, 11, 12], 3, 2);
    let c = Matrix::from_vec(vec![2, 0, 1, 3], 2, 2);
    assert_eq!(a.mul(&b).mul(&c), a.mul(&b.mul(&c)));
}

#[test]
fn test_pow_one_is_identity_on_the_operand() {
    let a = Matrix::from_vec(vec![3, 1, 4, 1], 2, 2);
    assert_eq!(a.pow(1), a);
}

#[test]
fn test_pow_unfolds_into_mul() {
    let a = Matrix::from_vec(vec![1, 1, 1, 0], 2, 2);
    assert_eq!(a.pow(2), a.mul(&a));
    assert_eq!(a.pow(3), a.mul(&a.pow(2)));
    assert_eq!(a.pow(5), a.mul(&a.pow(4)));
}

#[test]
fn test_pow_exact_values() {
    // Powers of the adjacency matrix of a two-vertex cycle alternate between
    // the identity and the swap matrix.
    let swap = Matrix::from_vec(vec![0, 1, 1, 0], 2, 2);
    assert_eq!(swap.pow(2), Matrix::from_vec(vec![1, 0, 0, 1], 2, 2));
    assert_eq!(swap.pow(3), swap);
}

#[test]
fn test_from_vec_round_trip() {
    let flat: Vec<i64> = vec![10, -20, 30, 40, -50, 60];
    let m = Matrix::from_vec(flat.clone(), 2, 3);
    assert_eq!(m.num_rows(), 2);
    assert_eq!(m.num_cols(), 3);
    for i in 0..2 {
        for j in 0..3 {
            assert_eq!(m.get(i, j), flat[i * 3 + j]);
        }
    }
}

#[test]
fn test_new_fills_every_cell() {
    let m = Matrix::new(7, 2, 3);
    assert_eq!(m.num_rows(), 2);
    assert_eq!(m.num_cols(), 3);
    for i in 0..2 {
        for j in 0..3 {
            assert_eq!(m.get(i, j), 7);
        }
    }
}

#[test]
fn test_set_then_get() {
    let mut m = Matrix::new(0, 2, 2);
    m.set(0, 1, 42);
    m.set(1, 0, -5);
    assert_eq!(m.get(0, 0), 0);
    assert_eq!(m.get(0, 1), 42);
    assert_eq!(m.get(1, 0), -5);
    assert_eq!(m.get(1, 1), 0);
}

#[test]
fn test_accumulate_adds_in_place() {
    let mut a = Matrix::from_vec(vec![1, 2, 3, 4], 2, 2);
    let b = Matrix::from_vec(vec![10, -20, 30, -40], 2, 2);
    a.accumulate(&b);
    assert_eq!(a, Matrix::from_vec(vec![11, -18, 33, -36], 2, 2));
}
