use sim::matmul::{serial_matmul, MatMul, Multiplicable, ProbeMatMul};
use sim::matmul::comm_method::{Cannon, CommMethod, FoxOtto, PipeFoxOtto};
use sim::processor::taurus::TimeTaurusNetworkBuilder;
use sim::types::{Matrix, Msg};

#[test]
fn test_serial_matrix_multiplication_square() {
    let matrix_a: Matrix<i64> = vec![vec![1, 2], vec![3, 4]];
    let matrix_b: Matrix<i64> = vec![vec![1, 2], vec![3, 4]];
    let matrix_c: Matrix<i64> = <i64 as Multiplicable>::initial_c(&matrix_a, &matrix_b);
    let result = serial_matmul(&matrix_a, &matrix_b, &matrix_c);
    assert_eq!(result, vec![vec![7, 10], vec![15, 22]]);
}

#[test]
fn test_serial_matrix_multiplication_non_square() {
    let matrix_a: Matrix<i64> = vec![vec![1, 2], vec![3, 4], vec![5, 6]];
    let matrix_b: Matrix<i64> = vec![vec![1, 2], vec![3, 4]];
    let matrix_c: Matrix<i64> = <i64 as Multiplicable>::initial_c(&matrix_a, &matrix_b);
    let result = serial_matmul(&matrix_a, &matrix_b, &matrix_c);
    assert_eq!(result, vec![vec![7, 10], vec![15, 22], vec![23, 34]]);
}

#[test]
fn tests_test_serial_matrix_multiplication_square() {
    let matrix_a: Matrix<i64> = vec![vec![1, 2], vec![3, 4]];
    let matrix_b: Matrix<i64> = vec![vec![1, 2], vec![3, 4]];
    let matrix_c: Matrix<i64> = <i64 as Multiplicable>::initial_c(&matrix_a, &matrix_b);
    let result = serial_matmul(&matrix_a, &matrix_b, &matrix_c);
    assert_eq!(result, vec![vec![7, 10], vec![15, 22]]);
}

#[test]
fn tests_test_serial_matrix_multiplication_non_square() {
    let matrix_a: Matrix<i64> = vec![vec![1, 2], vec![3, 4], vec![5, 6]];
    let matrix_b: Matrix<i64> = vec![vec![1, 2], vec![3, 4]];
    let matrix_c: Matrix<i64> = <i64 as Multiplicable>::initial_c(&matrix_a, &matrix_b);
    let result = serial_matmul(&matrix_a, &matrix_b, &matrix_c);
    assert_eq!(result, vec![vec![7, 10], vec![15, 22], vec![23, 34]]);
}

#[test]
fn test_cannon_shift_a() {
    let matrix_a: Matrix<i64> = vec![vec![0, 1, 2], vec![3, 4, 5], vec![6, 7, 8]];
    let correct: Vec<Matrix<i64>> = vec![
        vec![vec![0]],
        vec![vec![1]],
        vec![vec![2]],
        vec![vec![4]],
        vec![vec![5]],
        vec![vec![3]],
        vec![vec![8]],
        vec![vec![6]],
        vec![vec![7]],
    ];
    let result = <Cannon as CommMethod<i64>>::outer_setup_a(3, 3, &matrix_a);
    assert_eq!(result, correct);
}

#[test]
fn test_cannon_shift_b() {
    let matrix_b: Matrix<i64> = vec![vec![0, 1, 2], vec![3, 4, 5], vec![6, 7, 8]];
    let correct: Vec<Matrix<i64>> = vec![
        vec![vec![0]],
        vec![vec![4]],
        vec![vec![8]],
        vec![vec![3]],
        vec![vec![7]],
        vec![vec![2]],
        vec![vec![6]],
        vec![vec![1]],
        vec![vec![5]],
    ];
    let result = <Cannon as CommMethod<i64>>::outer_setup_b(3, 3, &matrix_b);
    assert_eq!(result, correct);
}

#[test]
fn test_hash_matrix_mult_api() {
    let mut p = MatMul::new(2, 2);
    let matrix_a: Matrix<i64> = vec![vec![1, 2, 3], vec![4, 5, 6], vec![7, 8, 9]];
    let matrix_b: Matrix<i64> = vec![vec![9, 8, 7], vec![6, 5, 4], vec![3, 2, 1]];
    let c = p
        .parallel_mult::<i64, sim::matmul::comm_method::Hash>(matrix_a, matrix_b)
        .unwrap();
    assert_eq!(c, vec![vec![30, 24, 18], vec![84, 69, 54], vec![138, 114, 90]]);
}

#[test]
fn test_fox_otto_matrix_mult() {
    let network_builder = TimeTaurusNetworkBuilder::new(0, 1, 0);
    let mut p = ProbeMatMul::new(2, 2, network_builder);
    let matrix_a: Matrix<i64> = vec![vec![1, 2, 3], vec![4, 5, 6], vec![7, 8, 9]];
    let matrix_b: Matrix<i64> = vec![vec![9, 8, 7], vec![6, 5, 4], vec![3, 2, 1]];
    let c = p.parallel_mult::<i64, FoxOtto>(matrix_a, matrix_b).unwrap();
    assert_eq!(c, vec![vec![30, 24, 18], vec![84, 69, 54], vec![138, 114, 90]]);
    assert_eq!(p.debug_stats().len(), 4);
    assert!(p.max_debug_time().is_some());
}

#[test]
fn test_cannon_matrix_mult() {
    let mut p = MatMul::new(2, 2);
    let matrix_a: Matrix<i64> = vec![vec![1, 2, 3], vec![4, 5, 6], vec![7, 8, 9]];
    let matrix_b: Matrix<i64> = vec![vec![9, 8, 7], vec![6, 5, 4], vec![3, 2, 1]];
    let c = p.parallel_mult::<i64, Cannon>(matrix_a, matrix_b).unwrap();
    assert_eq!(c, vec![vec![30, 24, 18], vec![84, 69, 54], vec![138, 114, 90]]);
}

#[test]
fn test_pipefoxotto_matrix_mult() {
    let network_builder = TimeTaurusNetworkBuilder::new(0, 1, 0);
    let mut p = ProbeMatMul::new(2, 2, network_builder);
    let matrix_a: Matrix<i64> = vec![vec![1, 2, 3], vec![4, 5, 6], vec![7, 8, 9]];
    let matrix_b: Matrix<i64> = vec![vec![9, 8, 7], vec![6, 5, 4], vec![3, 2, 1]];
    let c = p.parallel_mult::<i64, PipeFoxOtto>(matrix_a, matrix_b).unwrap();
    assert_eq!(c, vec![vec![30, 24, 18], vec![84, 69, 54], vec![138, 114, 90]]);
}

#[test]
fn test_pipefoxotto_matrix_mult2() {
    let mut p = MatMul::new(2, 2);
    let matrix_a: Matrix<i64> = vec![vec![2, 4, 1], vec![3, 5, 2], vec![6, 7, 3]];
    let matrix_b: Matrix<i64> = vec![vec![1, 3, 2], vec![4, 2, 5], vec![6, 1, 3]];
    let c = p.parallel_mult::<i64, PipeFoxOtto>(matrix_a, matrix_b).unwrap();
    assert_eq!(c, vec![vec![24, 15, 27], vec![35, 21, 37], vec![52, 35, 56]]);
}

#[test]
fn test_fox_otto_matrix_mult_with_reduction() {
    let mut p = MatMul::new(2, 2);
    let p_matrix: Matrix<usize> = vec![
        vec![0, 0, 0, 0, 4, 5, 6],
        vec![0, 1, 2, 3, 1, 5, 6],
        vec![0, 1, 2, 3, 4, 2, 2],
        vec![0, 1, 2, 3, 4, 5, 3],
        vec![0, 1, 2, 3, 4, 5, 6],
        vec![0, 5, 2, 3, 4, 5, 6],
        vec![0, 1, 2, 3, 4, 5, 6],
    ];
    let w_matrix: Matrix<i64> = vec![
        vec![0, 6, 2, 3, -1, -1, -1],
        vec![-1, 0, -1, -1, 1, -1, -1],
        vec![-1, -1, 0, -1, -1, 2, 1],
        vec![-1, -1, -1, 0, -1, -1, 2],
        vec![-1, -1, -1, -1, 0, -1, -1],
        vec![-1, 1, -1, -1, -1, 0, -1],
        vec![-1, -1, -1, -1, -1, -1, 0],
    ];
    let matrix_m = Msg::zip(&w_matrix, &p_matrix);
    let iterations = 3;
    let c = p.parallel_square::<Msg, FoxOtto>(matrix_m, iterations).unwrap();
    let (result_w, result_p) = Msg::unzip(&c);
    assert_eq!(
        result_p,
        vec![
            vec![0, 5, 0, 0, 1, 2, 2],
            vec![0, 1, 2, 3, 1, 5, 6],
            vec![0, 5, 2, 3, 1, 2, 2],
            vec![0, 1, 2, 3, 4, 5, 3],
            vec![0, 1, 2, 3, 4, 5, 6],
            vec![0, 5, 2, 3, 1, 5, 6],
            vec![0, 1, 2, 3, 4, 5, 6],
        ]
    );
    assert_eq!(
        result_w,
        vec![
            vec![0, 5, 2, 3, 6, 4, 3],
            vec![-1, 0, -1, -1, 1, -1, -1],
            vec![-1, 3, 0, -1, 4, 2, 1],
            vec![-1, -1, -1, 0, -1, -1, 2],
            vec![-1, -1, -1, -1, 0, -1, -1],
            vec![-1, 1, -1, -1, 2, 0, -1],
            vec![-1, -1, -1, -1, -1, -1, 0],
        ]
    );
}

#[test]
fn parallel_mult_rejects_mismatched_operands() {
    let mut p = MatMul::new(2, 2);
    let matrix_a: Matrix<i64> = vec![vec![1, 2], vec![3, 4]];
    let matrix_b: Matrix<i64> = vec![vec![1, 2], vec![3, 4], vec![5, 6]];
    let r = p.parallel_mult::<i64, FoxOtto>(matrix_a, matrix_b);
    assert_eq!(r, Err(sim::matmul::MatMulError::DimensionMismatch));
}

#[test]
fn parallel_mult_rejects_non_square_grid() {
    let mut p = MatMul::new(2, 3);
    let matrix_a: Matrix<i64> = vec![vec![1, 2], vec![3, 4]];
    let matrix_b: Matrix<i64> = vec![vec![1, 2], vec![3, 4]];
    let r = p.parallel_mult::<i64, Cannon>(matrix_a, matrix_b);
    assert_eq!(r, Err(sim::matmul::MatMulError::DimensionMismatch));
}

#[test]
fn parallel_square_matches_repeated_serial_squaring() {
    let mut p = MatMul::new(2, 2);
    let a: Matrix<i64> = vec![vec![1, 1, 0], vec![0, 1, 1], vec![1, 0, 1]];
    let zero: Matrix<i64> = vec![vec![0, 0, 0], vec![0, 0, 0], vec![0, 0, 0]];
    let s1 = serial_matmul(&a, &a, &zero);
    let expected = serial_matmul(&s1, &s1, &s1);
    let got = p.parallel_square::<i64, Cannon>(a, 2).unwrap();
    assert_eq!(got, expected);
}

#[test]
fn parallel_mult_one_by_one_grid() {
    let mut p = MatMul::new(1, 1);
    let matrix_a: Matrix<i64> = vec![vec![2, 0], vec![1, 3]];
    let matrix_b: Matrix<i64> = vec![vec![1, 4], vec![2, 5]];
    let c = p
        .parallel_mult::<i64, sim::matmul::comm_method::Hash>(matrix_a, matrix_b)
        .unwrap();
    assert_eq!(c, vec![vec![2, 8], vec![7, 19]]);
}

#[test]
fn msg_zip_unzip_round_trip() {
    let w: Matrix<i64> = vec![vec![0, 5], vec![-1, 0]];
    let p: Matrix<usize> = vec![vec![0, 0], vec![0, 1]];
    let m = Msg::zip(&w, &p);
    assert_eq!(m[0][1].get_w(), 5);
    assert_eq!(m[0][1].get_p(), 0);
    let (w2, p2) = Msg::unzip(&m);
    assert_eq!(w2, w);
    assert_eq!(p2, p);
}
