use gauss_elim::eliminate::{compute_gauss, compute_gauss_parallel, pivot, SolveError};
use gauss_elim::rational::Rat;
use gauss_elim::substitute::solve_gauss;
use gauss_elim::system::{init, init_allocate, init_fill_rows, Data, Message};
use gauss_elim::validate::verify;

fn empty_data(nsize: usize, num_threads: usize) -> Data {
    Data {
        nsize,
        matrix: Vec::with_capacity(nsize),
        b: Vec::with_capacity(nsize),
        c: Vec::with_capacity(nsize),
        v: Vec::with_capacity(nsize),
        swap: Vec::with_capacity(nsize),
        num_threads,
    }
}

fn built_data(nsize: usize, num_threads: usize) -> Data {
    let mut data = empty_data(nsize, num_threads);
    init(&mut data);
    data
}

/// A 2x2 system whose first column is entirely zero: singular.
fn singular_data() -> Data {
    let mut data = built_data(2, 1);
    data.matrix[0][0] = Rat::from_i64(0);
    data.matrix[1][0] = Rat::from_i64(0);
    data
}

fn assert_matrix_values(data: &Data, expected: &[&[i64]]) {
    assert_eq!(data.matrix.len(), expected.len());
    for (i, row) in expected.iter().enumerate() {
        assert_eq!(data.matrix[i].len(), row.len());
        for (j, want) in row.iter().enumerate() {
            assert!(
                data.matrix[i][j].has_value(*want, 1),
                "matrix[{}][{}] = {}/{}, expected {}",
                i,
                j,
                data.matrix[i][j].num(),
                data.matrix[i][j].den(),
                want
            );
        }
    }
}

fn assert_halves(values: &[Rat], expected: &[(i64, i64)]) {
    assert_eq!(values.len(), expected.len());
    for (i, (num, den)) in expected.iter().enumerate() {
        assert!(
            values[i].has_value(*num, *den),
            "entry {} = {}/{}, expected {}/{}",
            i,
            values[i].num(),
            values[i].den(),
            num,
            den
        );
    }
}

#[test]
fn init_matrix_test() {
    let nsize = 3;
    let matrix: Vec<Vec<Rat>> = Vec::with_capacity(nsize);
    let b: Vec<Rat> = Vec::with_capacity(nsize);
    let c: Vec<Rat> = Vec::with_capacity(nsize);
    let v: Vec<Rat> = Vec::with_capacity(nsize);
    let swap: Vec<u64> = Vec::with_capacity(nsize);
    let mut data = Data {
        nsize: nsize,
        matrix: matrix,
        b: b,
        c: c,
        v: v,
        swap: swap,
        num_threads: 1,
    };
    init(&mut data);
    assert_matrix_values(&data, &[&[2, 2, 2], &[2, 4, 4], &[2, 4, 6]]);
}

#[test]
fn compute_gauss_test() {
    let nsize = 3;
    let matrix: Vec<Vec<Rat>> = Vec::with_capacity(nsize);
    let b: Vec<Rat> = Vec::with_capacity(nsize);
    let c: Vec<Rat> = Vec::with_capacity(nsize);
    let v: Vec<Rat> = Vec::with_capacity(nsize);
    let swap: Vec<u64> = Vec::with_capacity(nsize);
    let mut data = Data {
        nsize: nsize,
        matrix: matrix,
        b: b,
        c: c,
        v: v,
        swap: swap,
        num_threads: 1,
    };
    init(&mut data);
    assert!(compute_gauss(&mut data).is_ok());
    assert_matrix_values(&data, &[&[1, 1, 1], &[0, 1, 1], &[0, 0, 1]]);
}

#[test]
fn solve_gauss_test() {
    let nsize = 3;
    let matrix: Vec<Vec<Rat>> = Vec::with_capacity(nsize);
    let b: Vec<Rat> = Vec::with_capacity(nsize);
    let c: Vec<Rat> = Vec::with_capacity(nsize);
    let v: Vec<Rat> = Vec::with_capacity(nsize);
    let swap: Vec<u64> = Vec::with_capacity(nsize);
    let mut data = Data {
        nsize: nsize,
        matrix: matrix,
        b: b,
        c: c,
        v: v,
        swap: swap,
        num_threads: 1,
    };
    init(&mut data);
    assert!(compute_gauss(&mut data).is_ok());
    assert!(solve_gauss(&mut data).is_ok());
    assert!(verify(&data));
    assert!(true);
}

#[test]
fn builder_matrix_is_symmetric_with_even_diagonal() {
    let data = built_data(4, 1);
    for i in 0..4 {
        assert!(data.matrix[i][i].has_value(2 * (i as i64 + 1), 1));
        for j in 0..4 {
            assert!(data.matrix[i][j].eq_value(&data.matrix[j][i]));
        }
    }
    for i in 0..4 {
        assert!(data.b[i].has_value(i as i64, 1));
        assert_eq!(data.swap[i], i as u64);
        assert!(data.c[i].has_value(0, 1));
        assert!(data.v[i].has_value(0, 1));
    }
}

#[test]
fn elimination_leaves_unit_diagonal_and_exact_zeros_below() {
    let mut data = built_data(6, 1);
    assert!(compute_gauss(&mut data).is_ok());
    for i in 0..6 {
        assert!(data.matrix[i][i].has_value(1, 1));
        for j in 0..i {
            assert_eq!(data.matrix[i][j].num(), 0);
        }
    }
}

#[test]
fn size_two_scenario() {
    let mut data = built_data(2, 1);
    assert!(compute_gauss(&mut data).is_ok());
    assert_halves(&data.b, &[(0, 1), (1, 2)]);
    assert!(solve_gauss(&mut data).is_ok());
    assert_halves(&data.c, &[(0, 1), (1, 2)]);
    assert!(verify(&data));
}

#[test]
fn size_three_scenario() {
    let mut data = built_data(3, 1);
    assert!(compute_gauss(&mut data).is_ok());
    assert_halves(&data.b, &[(0, 1), (1, 2), (1, 2)]);
    assert!(solve_gauss(&mut data).is_ok());
    assert_halves(&data.c, &[(0, 1), (0, 1), (1, 2)]);
    assert!(verify(&data));
}

#[test]
fn size_five_scenario() {
    let mut data = built_data(5, 1);
    assert!(compute_gauss(&mut data).is_ok());
    assert!(solve_gauss(&mut data).is_ok());
    assert_halves(&data.c, &[(-1, 2), (0, 1), (1, 2), (0, 1), (1, 2)]);
    assert!(verify(&data));
}

#[test]
fn parallel_matches_sequential_for_common_worker_counts() {
    for &workers in &[1usize, 2, 4, 8] {
        let mut seq = built_data(7, 1);
        assert!(compute_gauss(&mut seq).is_ok());
        let mut par = built_data(7, workers);
        assert!(compute_gauss_parallel(&mut par).is_ok());
        for i in 0..7 {
            assert!(par.b[i].eq_value(&seq.b[i]), "workers {} b[{}]", workers, i);
            for j in 0..7 {
                assert!(
                    par.matrix[i][j].eq_value(&seq.matrix[i][j]),
                    "workers {} cell {} {}",
                    workers,
                    i,
                    j
                );
            }
        }
    }
}

#[test]
fn zero_worker_count_behaves_like_sequential() {
    let mut seq = built_data(4, 1);
    assert!(compute_gauss(&mut seq).is_ok());
    let mut par = built_data(4, 0);
    assert!(compute_gauss_parallel(&mut par).is_ok());
    for i in 0..4 {
        for j in 0..4 {
            assert!(par.matrix[i][j].eq_value(&seq.matrix[i][j]));
        }
    }
}

#[test]
fn singular_matrix_fails_sequentially() {
    let mut data = singular_data();
    assert_eq!(compute_gauss(&mut data), Err(SolveError::SingularMatrix));
}

#[test]
fn singular_matrix_fails_for_every_worker_count() {
    for &workers in &[1usize, 2, 4, 8] {
        let mut data = singular_data();
        data.num_threads = workers;
        assert_eq!(
            compute_gauss_parallel(&mut data),
            Err(SolveError::SingularMatrix)
        );
    }
}

#[test]
fn pivot_swaps_rows_and_permutation_together() {
    let mut data = built_data(2, 1);
    data.matrix[0][0] = Rat::from_i64(0);
    data.matrix[0][1] = Rat::from_i64(5);
    assert!(pivot(&mut data, 0).is_ok());
    // Rows exchanged: the non-zero pivot candidate moved up and was
    // normalized, and the permutation log records the exchange.
    assert_eq!(data.swap[0], 1);
    assert_eq!(data.swap[1], 0);
    assert!(data.matrix[0][0].has_value(1, 1));
    assert!(data.b[0].has_value(1, 2));
    assert!(data.b[1].has_value(0, 1));
}

#[test]
fn overflow_is_reported_not_wrapped() {
    let mut data = built_data(2, 1);
    let big: i64 = 1 << 32;
    data.matrix[0][0] = Rat::from_i64(1);
    data.matrix[0][1] = Rat::from_i64(big);
    data.matrix[1][0] = Rat::from_i64(big);
    data.matrix[1][1] = Rat::from_i64(1);
    assert_eq!(
        compute_gauss(&mut data),
        Err(SolveError::ArithmeticOverflow)
    );
}

#[test]
fn verifier_rejects_wrong_results() {
    let mut data = built_data(2, 1);
    assert!(compute_gauss(&mut data).is_ok());
    assert!(solve_gauss(&mut data).is_ok());
    data.c[1] = Rat::from_i64(3);
    assert!(!verify(&data));
}

#[test]
fn verifier_is_idempotent() {
    let mut data = built_data(3, 1);
    assert!(compute_gauss(&mut data).is_ok());
    assert!(solve_gauss(&mut data).is_ok());
    let first = verify(&data);
    let second = verify(&data);
    assert!(first);
    assert_eq!(first, second);
    // The system is unchanged by verification.
    assert_halves(&data.b, &[(0, 1), (1, 2), (1, 2)]);
    assert_halves(&data.c, &[(0, 1), (0, 1), (1, 2)]);
}

#[test]
fn worker_fill_covers_disjoint_rows() {
    let mut data = empty_data(5, 2);
    init_allocate(&mut data);
    init_fill_rows(&mut data, 0, 2);
    init_fill_rows(&mut data, 1, 2);
    let whole = built_data(5, 1);
    for i in 0..5 {
        for j in 0..5 {
            assert!(data.matrix[i][j].eq_value(&whole.matrix[i][j]));
        }
    }
}

#[test]
fn message_describes_a_step() {
    let msg = Message { nsize: 8, index: 3 };
    assert_eq!(msg.nsize, 8);
    assert_eq!(msg.index, 3);
}

#[test]
fn rational_constructors_reduce_and_reject_zero_denominators() {
    let r = Rat::new_frac(2, 4).unwrap();
    assert_eq!(r.num(), 1);
    assert_eq!(r.den(), 2);
    assert!(r.has_value(1, 2));
    let s = Rat::new_frac(3, -6).unwrap();
    assert_eq!(s.num(), -1);
    assert_eq!(s.den(), 2);
    assert!(Rat::new_frac(1, 0).is_none());
    assert!(Rat::from_i64(5).has_value(5, 1));
}

#[test]
fn rational_checked_arithmetic() {
    let half = Rat::new_frac(1, 2).unwrap();
    let third = Rat::new_frac(1, 3).unwrap();
    let p = half.checked_mul(&third).unwrap();
    assert!(p.has_value(1, 6));
    let d = half.checked_sub(&third).unwrap();
    assert!(d.has_value(1, 6));
    let q = half.checked_div(&third).unwrap();
    assert!(q.has_value(3, 2));
    let big = Rat::from_i64(i64::MAX);
    let three = Rat::new_frac(2, 3).unwrap();
    assert!(big.checked_mul(&three).is_none());
}

#[test]
fn parallel_init_matches_sequential_init() {
    let whole = built_data(6, 1);
    for &workers in &[1usize, 2, 4, 8] {
        let mut data = empty_data(6, workers);
        gauss_elim::system::init_parallel(&mut data, workers);
        for i in 0..6 {
            assert!(data.b[i].eq_value(&whole.b[i]));
            assert_eq!(data.swap[i], whole.swap[i]);
            for j in 0..6 {
                assert!(data.matrix[i][j].eq_value(&whole.matrix[i][j]));
            }
        }
    }
}
