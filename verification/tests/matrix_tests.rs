use matrix_multiply::{BackendFailure, CPUBlocked, CPUNaive, Dot, GpuContext, Matrix, MatrixError, CPU, GPU};

fn cpu_matrix(rows: Vec<Vec<i32>>) -> Matrix<CPU> {
    Matrix::<CPU>::try_from(rows).unwrap()
}

#[test]
fn test_mul_cpu() {
    let matrix_a = cpu_matrix(vec![vec![1, 2], vec![3, 4]]);
    let matrix_b = cpu_matrix(vec![vec![5, 6], vec![7, 8]]);
    let expected = cpu_matrix(vec![vec![19, 22], vec![43, 50]]);

    let result = matrix_a.dot(&(), &matrix_b).unwrap();

    assert!(result == expected)
}

#[test]
fn worked_example_simd_kernel() {
    let a = cpu_matrix(vec![vec![1, 2], vec![3, 4]]);
    let b = cpu_matrix(vec![vec![5, 6], vec![7, 8]]);
    let c = a.dot(&(), &b).unwrap();
    assert_eq!(c.shape(), (2, 2));
    assert_eq!(c.to_host(&()).unwrap(), vec![19, 22, 43, 50]);
}

#[test]
fn worked_example_naive_kernel() {
    let a = Matrix::<CPUNaive>::from_host(&(), 2, 2, &[1, 2, 3, 4]).unwrap();
    let b = Matrix::<CPUNaive>::from_host(&(), 2, 2, &[5, 6, 7, 8]).unwrap();
    let c = a.dot(&(), &b).unwrap();
    assert_eq!(c.shape(), (2, 2));
    assert_eq!(c.to_host(&()).unwrap(), vec![19, 22, 43, 50]);
}

#[test]
fn worked_example_blocked_kernel() {
    let a = Matrix::<CPUBlocked>::from_host(&(), 2, 2, &[1, 2, 3, 4]).unwrap();
    let b = Matrix::<CPUBlocked>::from_host(&(), 2, 2, &[5, 6, 7, 8]).unwrap();
    let c = a.dot(&(), &b).unwrap();
    assert_eq!(c.shape(), (2, 2));
    assert_eq!(c.to_host(&()).unwrap(), vec![19, 22, 43, 50]);
}

/// A small deterministic pseudo-random stream for cross-kernel runs.
fn next_value(state: &mut u64) -> i32 {
    *state = state.wrapping_mul(6364136223846793005).wrapping_add(1442695040888963407);
    ((*state >> 33) as i32) % 1000 - 500
}

fn random_data(seed: u64, len: usize) -> Vec<i32> {
    let mut state = seed;
    (0..len).map(|_| next_value(&mut state)).collect()
}

#[test]
fn cross_kernel_equivalence() {
    // inner dimensions around and away from the vector width
    for &(m, k, n) in &[
        (3usize, 1usize, 4usize),
        (2, 7, 3),
        (2, 8, 3),
        (2, 9, 3),
        (4, 13, 5),
        (1, 16, 1),
        (5, 3, 5),
    ] {
        let data_a = random_data(k as u64 * 31 + m as u64, m * k);
        let data_b = random_data(n as u64 * 17 + k as u64, k * n);

        let a0 = Matrix::<CPUNaive>::from_host(&(), m, k, &data_a).unwrap();
        let b0 = Matrix::<CPUNaive>::from_host(&(), k, n, &data_b).unwrap();
        let c0 = a0.dot(&(), &b0).unwrap().to_host(&()).unwrap();

        let a1 = Matrix::<CPUBlocked>::from_host(&(), m, k, &data_a).unwrap();
        let b1 = Matrix::<CPUBlocked>::from_host(&(), k, n, &data_b).unwrap();
        let c1 = a1.dot(&(), &b1).unwrap().to_host(&()).unwrap();

        let a2 = Matrix::<CPU>::from_host(&(), m, k, &data_a).unwrap();
        let b2 = Matrix::<CPU>::from_host(&(), k, n, &data_b).unwrap();
        let c2 = a2.dot(&(), &b2).unwrap().to_host(&()).unwrap();

        assert_eq!(c0, c1);
        assert_eq!(c0, c2);
    }
}

#[test]
fn dot_shape_mismatch_fails_with_shape_error() {
    let a = cpu_matrix(vec![vec![1, 2, 3], vec![4, 5, 6]]);
    let b = cpu_matrix(vec![vec![1, 2], vec![3, 4]]);
    let r = a.dot(&(), &b);
    assert!(matches!(r, Err(MatrixError::Shape)));
}

#[test]
fn dot_output_shape_is_m_by_n() {
    let a = cpu_matrix(vec![vec![1, 2, 3], vec![4, 5, 6]]);
    let b = cpu_matrix(vec![vec![1, 0, 0, 1], vec![0, 1, 1, 0], vec![1, 1, 0, 0]]);
    let c = a.dot(&(), &b).unwrap();
    assert_eq!(c.shape(), (2, 4));
}

#[test]
fn construction_rejects_jagged_rows() {
    let r = Matrix::<CPU>::try_from(vec![vec![1, 2], vec![3]]);
    assert!(matches!(r, Err(MatrixError::Shape)));
}

#[test]
fn construction_rejects_zero_rows() {
    let r = Matrix::<CPU>::try_from(vec![]);
    assert!(matches!(r, Err(MatrixError::Shape)));
    let r2 = Matrix::<CPU>::try_from(vec![vec![], vec![]]);
    assert!(matches!(r2, Err(MatrixError::Shape)));
    let r3 = Matrix::<CPU>::new(0, 3);
    assert!(matches!(r3, Err(MatrixError::Shape)));
    let r4 = Matrix::<CPU>::new(3, 0);
    assert!(matches!(r4, Err(MatrixError::Shape)));
}

#[test]
fn new_zeros_is_zero_filled() {
    let m = Matrix::<CPU>::new(2, 3).unwrap();
    assert_eq!(m.shape(), (2, 3));
    assert_eq!(m.to_host(&()).unwrap(), vec![0; 6]);
}

#[test]
fn gpu_backend_reports_unsupported() {
    let r = Matrix::<GPU>::new_zeros(&GpuContext, 2, 2);
    assert!(matches!(r, Err(MatrixError::Backend(BackendFailure::Unsupported))));
    let r2 = Matrix::<GPU>::from_host(&GpuContext, 1, 1, &[7]);
    assert!(matches!(r2, Err(MatrixError::Backend(BackendFailure::Unsupported))));
}

#[test]
fn equality_compares_contents() {
    let a = cpu_matrix(vec![vec![1, 2], vec![3, 4]]);
    let b = cpu_matrix(vec![vec![1, 2], vec![3, 4]]);
    let c = cpu_matrix(vec![vec![1, 2], vec![3, 5]]);
    assert!(a == b);
    assert!(!(a == c));
}

#[test]
fn equality_compares_shape() {
    let a = cpu_matrix(vec![vec![1, 2], vec![3, 4]]);
    let b = cpu_matrix(vec![vec![1, 2, 3, 4]]);
    assert!(!(a == b));
}

#[test]
fn to_device_is_a_no_op() {
    let a = cpu_matrix(vec![vec![1]]);
    a.to_device();
    assert_eq!(a.to_host(&()).unwrap(), vec![1]);
}
