use dm_simu_rs::density_matrix::{
    agreement_within, count_axes, exact_log2, restore_axes, shift_axes, trace_bound,
    trace_outcome, DensityMatrix, State,
};
use dm_simu_rs::operators::{OneQubitOp, Operator, TwoQubitsOp};
use dm_simu_rs::scalar::complex_count;
use dm_simu_rs::tools::{
    bitwise_int_to_bin_vec, complex_approx_eq, modulus_below, tensor_to_dm, two_to, twos_shape,
};
use num_complex::Complex;

const ZERO: Complex<f64> = Complex::new(0., 0.);
const ONE: Complex<f64> = Complex::new(1., 0.);

fn tol(t: f64) -> Complex<f64> {
    Complex::new(t, 0.)
}

fn copy_of(dm: &DensityMatrix) -> DensityMatrix {
    DensityMatrix { data: dm.data.clone(), size: dm.size, nqubits: dm.nqubits }
}

fn mixed_state(nqubits: usize) -> DensityMatrix {
    let size = 1usize << nqubits;
    let mut amplitudes = Vec::new();
    let mut norm = 0.;
    for i in 0..size {
        let a = Complex::new(1. + i as f64, 0.5 * i as f64 - 1.);
        norm += a.norm_sqr();
        amplitudes.push(a);
    }
    let scale = norm.sqrt();
    let amplitudes = amplitudes.iter().map(|a| a / scale).collect();
    DensityMatrix::from_statevec(amplitudes).unwrap()
}

#[test]
fn new_zero_state_has_single_one() {
    for n in 0..5 {
        let dm = DensityMatrix::new(n, Some(State::ZERO));
        assert_eq!(dm.nqubits, n);
        assert_eq!(dm.size, 1 << n);
        assert_eq!(dm.data.len(), dm.size * dm.size);
        assert_eq!(dm.data[0], ONE);
        assert!(dm.data[1..].iter().all(|c| *c == ZERO));
    }
}

#[test]
fn new_plus_state_is_uniform() {
    for n in 0..5 {
        let dm = DensityMatrix::new(n, Some(State::PLUS));
        let want = Complex::new(1. / (1u64 << n) as f64, 0.);
        assert_eq!(dm.data.len(), dm.size * dm.size);
        assert!(dm.data.iter().all(|c| *c == want));
    }
    let dm = DensityMatrix::new(2, Some(State::PLUS));
    assert_eq!(dm.data[7], Complex::new(0.25, 0.));
}

#[test]
fn new_without_state_is_all_zero() {
    let dm = DensityMatrix::new(3, None);
    assert_eq!(dm.size, 8);
    assert_eq!(dm.data, vec![ZERO; 64]);
}

#[test]
fn from_statevec_takes_outer_product_with_conjugate() {
    let a = Complex::new(1., 2.);
    let b = Complex::new(3., -1.);
    let dm = DensityMatrix::from_statevec(vec![a, b]).unwrap();
    assert_eq!(dm.data, vec![a * a.conj(), a * b.conj(), b * a.conj(), b * b.conj()]);
    assert_eq!(dm.data[1], Complex::new(1., 7.));
    assert_eq!(dm.data[2], Complex::new(1., -7.));
}

#[test]
fn from_statevec_rejects_other_lengths() {
    let err = DensityMatrix::from_statevec(vec![ONE, ZERO, ZERO]).err();
    assert_eq!(err, Some("The size of the statevec is not a power of two"));
    assert!(DensityMatrix::from_statevec(vec![]).is_err());
    assert!(DensityMatrix::from_statevec(vec![ONE; 6]).is_err());
    let single = DensityMatrix::from_statevec(vec![ONE]).unwrap();
    assert_eq!(single.nqubits, 0);
    assert_eq!(single.size, 1);
}

#[test]
fn exact_log2_finds_exponent() {
    assert_eq!(exact_log2(1), Some(0));
    assert_eq!(exact_log2(2), Some(1));
    assert_eq!(exact_log2(1024), Some(10));
    assert_eq!(exact_log2(0), None);
    assert_eq!(exact_log2(3), None);
    assert_eq!(exact_log2(1023), None);
    assert_eq!(exact_log2(usize::MAX), None);
    assert_eq!(exact_log2(1 << (usize::BITS - 1)), Some((usize::BITS - 1) as usize));
}

#[test]
fn normalized_statevec_has_unit_trace() {
    let h = std::f64::consts::FRAC_1_SQRT_2;
    let dm = DensityMatrix::from_statevec(vec![Complex::new(h, 0.), Complex::new(0., h)]).unwrap();
    assert_eq!(dm.trace(), Ok(1));
    assert_eq!(mixed_state(3).trace(), Ok(1));
}

#[test]
fn trace_fails_away_from_one() {
    let dm = DensityMatrix::new(2, None);
    assert_eq!(dm.trace(), Err("The sum over the diagonal elements do not make 1"));
    let doubled = DensityMatrix::from_statevec(vec![Complex::new(1., 1.), ZERO]).unwrap();
    assert!(doubled.trace().is_err());
}

#[test]
fn trace_tolerance_is_one_part_in_ten_billion() {
    let mut dm = DensityMatrix::new(1, Some(State::ZERO));
    dm.set(1, 1, Complex::new(0.9e-10, 0.));
    assert_eq!(dm.trace(), Ok(1));
    dm.set(1, 1, Complex::new(1.1e-10, 0.));
    assert!(dm.trace().is_err());
    dm.set(1, 1, Complex::new(0., 0.9e-10));
    assert_eq!(dm.trace(), Ok(1));
    dm.set(1, 1, Complex::new(0., 1.1e-10));
    assert!(dm.trace().is_err());
}

#[test]
fn trace_reads_the_diagonal_only() {
    let mut dm = DensityMatrix::new(1, Some(State::ZERO));
    dm.set(0, 1, Complex::new(5., 5.));
    dm.set(1, 0, Complex::new(-5., 5.));
    assert_eq!(dm.trace(), Ok(1));
    dm.set(0, 0, Complex::new(0.25, 0.));
    dm.set(1, 1, Complex::new(0.75, 0.));
    assert_eq!(dm.trace(), Ok(1));
}

#[test]
fn normalize_divides_by_the_diagonal_sum() {
    let mut dm = mixed_state(2);
    let before = dm.data.clone();
    let mut sum = ZERO;
    for i in 0..4 {
        sum += before[i * 4 + i];
    }
    assert_eq!(dm.diagonal(), sum);
    assert_eq!(dm.normalize(), Ok(()));
    let want: Vec<Complex<f64>> = before.iter().map(|c| c / sum).collect();
    assert_eq!(dm.data, want);
    assert_eq!(dm.size, 4);
    assert_eq!(dm.nqubits, 2);
}

#[test]
fn normalize_divides_by_a_trace_that_is_not_exactly_one() {
    let mut dm = DensityMatrix::new(1, None);
    dm.set(0, 0, Complex::new(0.5, 0.));
    dm.set(0, 1, Complex::new(0.25, -0.5));
    dm.set(1, 1, Complex::new(0.5 + 3e-11, 2e-11));
    let sum = Complex::new(0., 0.) + Complex::new(0.5, 0.) + Complex::new(0.5 + 3e-11, 2e-11);
    assert_ne!(sum, ONE);
    assert_eq!(dm.normalize(), Ok(()));
    assert_eq!(dm.data[0], Complex::new(0.5, 0.) / sum);
    assert_eq!(dm.data[1], Complex::new(0.25, -0.5) / sum);
    assert_eq!(dm.data[2], ZERO / sum);
    assert_eq!(dm.data[3], Complex::new(0.5 + 3e-11, 2e-11) / sum);
    assert_ne!(dm.data[1], Complex::new(0.25, -0.5));
}

#[test]
fn normalize_leaves_a_matrix_that_fails_the_check() {
    let mut dm = DensityMatrix::new(1, None);
    dm.set(0, 0, Complex::new(2., 0.));
    dm.set(1, 0, Complex::new(1., 1.));
    let before = dm.data.clone();
    assert_eq!(dm.normalize(), Err("The sum over the diagonal elements do not make 1"));
    assert_eq!(dm.data, before);
    assert_eq!(dm.size, 2);
    assert_eq!(dm.nqubits, 1);
}

#[test]
fn normalize_after_follows_the_check_it_is_given() {
    let mut dm = DensityMatrix::new(1, None);
    dm.set(0, 0, Complex::new(2., 0.));
    dm.set(1, 1, Complex::new(0., 2.));
    let before = dm.data.clone();
    assert_eq!(dm.normalize_after(Err("no")), Err("no"));
    assert_eq!(dm.data, before);
    assert_eq!(dm.normalize_after(Ok(1)), Ok(()));
    let sum = Complex::new(2., 2.);
    assert_eq!(dm.data, vec![Complex::new(2., 0.) / sum, ZERO / sum, ZERO / sum, Complex::new(0., 2.) / sum]);
    assert_eq!(dm.data[0], Complex::new(0.5, -0.5));
}

#[test]
fn diagonal_adds_the_diagonal_entries_in_order() {
    let dm = DensityMatrix {
        data: vec![
            Complex::new(1., 2.),
            Complex::new(100., 0.),
            Complex::new(0., 100.),
            Complex::new(3., -5.),
        ],
        size: 2,
        nqubits: 1,
    };
    assert_eq!(dm.diagonal(), Complex::new(4., -3.));
    assert_eq!(DensityMatrix::new(3, Some(State::PLUS)).diagonal(), ONE);
    assert_eq!(DensityMatrix::new(0, None).diagonal(), ZERO);
}

#[test]
fn trace_outcome_compares_the_modulus_with_the_tolerance() {
    let complaint = Err("The sum over the diagonal elements do not make 1");
    assert_eq!(trace_outcome(Complex::new(0., 0.)), Ok(1));
    assert_eq!(trace_outcome(Complex::new(0.9e-10, 0.)), Ok(1));
    assert_eq!(trace_outcome(Complex::new(1e-10, 0.)), complaint);
    assert_eq!(trace_outcome(Complex::new(1.1e-10, 0.)), complaint);
    assert_eq!(trace_outcome(Complex::new(1., 0.)), complaint);
    assert_eq!(trace_outcome(Complex::new(0.5e-10, 7.)), Ok(1));
    assert_eq!(trace_bound(), Complex::new(1e-10, 0.));
}

#[test]
fn trace_gap_is_the_diagonal_sum_less_one() {
    let dm = DensityMatrix {
        data: vec![
            Complex::new(1., 2.),
            Complex::new(100., 0.),
            Complex::new(0., 100.),
            Complex::new(3., -5.),
        ],
        size: 2,
        nqubits: 1,
    };
    assert_eq!(dm.trace_gap(), Complex::new(3., -3.));
    assert_eq!(DensityMatrix::new(2, Some(State::ZERO)).trace_gap(), ZERO);
    assert_eq!(DensityMatrix::new(2, None).trace_gap(), Complex::new(-1., 0.));
}

#[test]
fn agreement_within_needs_equal_lengths_and_every_modulus_below() {
    let bound = Complex::new(0.5, 0.);
    let small = Complex::new(0.25, 0.);
    let large = Complex::new(0.75, 0.);
    assert!(agreement_within(true, &[], bound));
    assert!(agreement_within(true, &[small, ZERO, small], bound));
    assert!(!agreement_within(true, &[small, large, small], bound));
    assert!(!agreement_within(true, &[bound], bound));
    assert!(!agreement_within(true, &[small, small, large], bound));
    assert!(!agreement_within(false, &[], bound));
    assert!(!agreement_within(false, &[small, small], bound));
    assert!(agreement_within(true, &[Complex::new(0.25, 9.)], bound));
}

#[test]
fn differences_subtract_entry_by_entry() {
    let a = DensityMatrix::from_statevec(vec![Complex::new(1., 2.), Complex::new(0., 1.)]).unwrap();
    let b = DensityMatrix::new(1, Some(State::PLUS));
    let gaps = a.differences(&b);
    assert_eq!(gaps.len(), 4);
    for i in 0..4 {
        assert_eq!(gaps[i], a.data[i] - b.data[i]);
    }
    assert_eq!(gaps[0], Complex::new(4.5, 0.));
    assert_eq!(gaps[1], Complex::new(1.5, -1.));
}

#[test]
fn modulus_below_compares_with_the_real_part_of_the_bound() {
    assert!(modulus_below(Complex::new(3., 4.), Complex::new(5.5, 0.)));
    assert!(!modulus_below(Complex::new(3., 4.), Complex::new(5., 100.)));
    assert!(!modulus_below(Complex::new(3., 4.), Complex::new(4.5, 0.)));
    assert!(modulus_below(ZERO, Complex::new(1e-300, 0.)));
    assert!(!modulus_below(ZERO, ZERO));
}

#[test]
fn rows_and_columns_are_checked_at_run_time() {
    let dm = DensityMatrix::new(1, Some(State::ZERO));
    assert!(dm.holds(0, 0));
    assert!(dm.holds(1, 1));
    assert!(!dm.holds(0, 2));
    assert!(!dm.holds(2, 0));
    assert!(!DensityMatrix { data: vec![ZERO; 3], size: 2, nqubits: 1 }.holds(0, 0));
    assert!(!DensityMatrix { data: vec![], size: usize::MAX, nqubits: 1 }.holds(0, 0));
}

#[test]
fn get_and_set_use_row_major_position() {
    let mut dm = DensityMatrix::new(2, None);
    dm.set(2, 3, Complex::new(4., -4.));
    assert_eq!(dm.data[11], Complex::new(4., -4.));
    assert_eq!(dm.get(2, 3), Complex::new(4., -4.));
    assert_eq!(dm.get(3, 2), ZERO);
    assert_eq!(dm.size, 4);
    assert_eq!(dm.nqubits, 2);
}

#[test]
fn equals_compares_within_tolerance() {
    let a = DensityMatrix::new(1, Some(State::ZERO));
    let mut b = DensityMatrix::new(1, Some(State::ZERO));
    b.set(1, 0, Complex::new(3e-6, 4e-6));
    assert!(a.equals(copy_of(&b), tol(6e-6)));
    assert!(!a.equals(copy_of(&b), tol(4e-6)));
    assert!(!a.equals(copy_of(&b), tol(5e-6 - 1e-12)));
    assert!(a.equals(copy_of(&a), tol(1e-300)));
    assert!(!a.equals(copy_of(&a), tol(0.)));
}

#[test]
fn equals_is_false_for_different_lengths() {
    let a = DensityMatrix::new(1, Some(State::ZERO));
    let b = DensityMatrix::new(2, Some(State::ZERO));
    assert!(!a.equals(b, tol(10.)));
}

#[test]
fn complex_approx_eq_uses_the_modulus() {
    assert!(complex_approx_eq(Complex::new(1., 1.), Complex::new(4., 5.), tol(5.5)));
    assert!(!complex_approx_eq(Complex::new(1., 1.), Complex::new(4., 5.), tol(5.)));
    assert!(!complex_approx_eq(Complex::new(1., 1.), Complex::new(4., 5.), tol(4.5)));
}

#[test]
fn to_tensor_and_back_round_trips() {
    let dm = mixed_state(2);
    let t = dm.to_tensor();
    assert_eq!(t.shape, vec![2, 2, 2, 2]);
    assert_eq!(t.data, dm.data);
    assert_eq!(t.get(&[1, 0, 1, 1]), dm.get(2, 3));
    let back = tensor_to_dm(t);
    assert_eq!(back.nqubits, 2);
    assert_eq!(back.size, 4);
    assert_eq!(back.data, dm.data);
}

#[test]
fn bits_are_big_endian() {
    assert_eq!(bitwise_int_to_bin_vec(5, 4), vec![0, 1, 0, 1]);
    assert_eq!(bitwise_int_to_bin_vec(6, 3), vec![1, 1, 0]);
    assert_eq!(bitwise_int_to_bin_vec(0, 2), vec![0, 0]);
    assert_eq!(bitwise_int_to_bin_vec(13, 2), vec![0, 1]);
    assert_eq!(bitwise_int_to_bin_vec(7, 0), Vec::<usize>::new());
}

#[test]
fn powers_and_shapes_of_two() {
    assert_eq!(two_to(0), 1);
    assert_eq!(two_to(10), 1024);
    assert_eq!(twos_shape(3), vec![2, 2, 2]);
    assert_eq!(complex_count(8), Complex::new(8., 0.));
    assert_eq!(complex_count(10_000_000_000), Complex::new(1e10, 0.));
}

#[test]
fn axis_helpers_for_evolution() {
    assert_eq!(count_axes(2, 3), vec![2, 3, 4]);
    assert_eq!(count_axes(0, 0), Vec::<usize>::new());
    assert_eq!(shift_axes(&[2, 0], 3), vec![5, 3]);
}

#[test]
fn restore_axes_reverses_the_column_block() {
    let (src, dst) = restore_axes(3, &[2, 0]);
    assert_eq!(src, vec![0, 1, -1, -2]);
    assert_eq!(dst, vec![2, 0, 3, 5]);
    let (src, dst) = restore_axes(2, &[1]);
    assert_eq!(src, vec![0, -1]);
    assert_eq!(dst, vec![1, 3]);
    let (src, dst) = restore_axes(4, &[]);
    assert_eq!(src, Vec::<i32>::new());
    assert_eq!(dst, Vec::<i32>::new());
}

#[test]
fn catalogue_holds_the_standard_matrices() {
    let i = Complex::new(0., 1.);
    let h = std::f64::consts::FRAC_1_SQRT_2;
    assert_eq!(Operator::one_qubit(OneQubitOp::I).data, vec![ONE, ZERO, ZERO, ONE]);
    assert_eq!(Operator::one_qubit(OneQubitOp::X).data, vec![ZERO, ONE, ONE, ZERO]);
    assert_eq!(Operator::one_qubit(OneQubitOp::Y).data, vec![ZERO, -i, i, ZERO]);
    assert_eq!(Operator::one_qubit(OneQubitOp::Z).data, vec![ONE, ZERO, ZERO, -ONE]);
    let hadamard = Operator::one_qubit(OneQubitOp::H);
    assert_eq!(hadamard.nqubits, 1);
    assert_eq!(
        hadamard.data,
        vec![Complex::new(h, 0.), Complex::new(h, 0.), Complex::new(h, 0.), Complex::new(-h, 0.)]
    );
    let cx = Operator::two_qubits(TwoQubitsOp::CX);
    assert_eq!(cx.nqubits, 2);
    assert_eq!(cx.data.len(), 16);
    assert_eq!(cx.data[0], ONE);
    assert_eq!(cx.data[5], ONE);
    assert_eq!(cx.data[11], ONE);
    assert_eq!(cx.data[14], ONE);
    assert_eq!(cx.data.iter().filter(|c| **c != ZERO).count(), 4);
    let cz = Operator::two_qubits(TwoQubitsOp::CZ);
    assert_eq!(cz.data[15], -ONE);
    assert_eq!(cz.data[10], ONE);
    let swap = Operator::two_qubits(TwoQubitsOp::SWAP);
    assert_eq!(swap.data[6], ONE);
    assert_eq!(swap.data[9], ONE);
    assert_eq!(swap.data[5], ZERO);
}

#[test]
fn transconj_conjugates_and_transposes() {
    let op = Operator {
        nqubits: 1,
        data: vec![Complex::new(1., 1.), Complex::new(2., -3.), Complex::new(0., 4.), Complex::new(5., 0.)],
    };
    let dagger = op.transconj();
    assert_eq!(dagger.nqubits, 1);
    assert_eq!(
        dagger.data,
        vec![Complex::new(1., -1.), Complex::new(0., -4.), Complex::new(2., 3.), Complex::new(5., 0.)]
    );
    let y = Operator::one_qubit(OneQubitOp::Y);
    assert_eq!(y.transconj().data, y.data);
    let t = op.to_tensor();
    assert_eq!(t.shape, vec![2, 2]);
    assert_eq!(t.data, op.data);
}

#[test]
fn identity_leaves_every_state_unchanged() {
    for n in 1..4 {
        for t in 0..n {
            let mut dm = mixed_state(n);
            let before = copy_of(&dm);
            dm.evolve_single(&Operator::one_qubit(OneQubitOp::I), t);
            assert!(dm.equals(before, tol(1e-12)));
        }
    }
}

#[test]
fn gates_preserve_the_trace() {
    let mut dm = mixed_state(3);
    assert_eq!(dm.trace(), Ok(1));
    dm.evolve_single(&Operator::one_qubit(OneQubitOp::H), 1);
    assert_eq!(dm.trace(), Ok(1));
    dm.evolve_single(&Operator::one_qubit(OneQubitOp::Y), 2);
    assert_eq!(dm.trace(), Ok(1));
    dm.evolve(&Operator::two_qubits(TwoQubitsOp::CX), &[2, 0]);
    assert_eq!(dm.trace(), Ok(1));
    dm.evolve(&Operator::two_qubits(TwoQubitsOp::CZ), &[0, 1]);
    assert_eq!(dm.trace(), Ok(1));
    dm.evolve(&Operator::two_qubits(TwoQubitsOp::SWAP), &[1, 2]);
    assert_eq!(dm.trace(), Ok(1));
}

#[test]
fn bit_flip_moves_the_one_to_the_last_entry() {
    let mut dm = DensityMatrix::new(1, Some(State::ZERO));
    dm.evolve_single(&Operator::one_qubit(OneQubitOp::X), 0);
    assert_eq!(dm.data, vec![ZERO, ZERO, ZERO, ONE]);
}

#[test]
fn swap_twice_is_the_identity() {
    for (a, b) in [(0, 1), (1, 0), (0, 2), (2, 0), (1, 2), (2, 1)] {
        let mut dm = mixed_state(3);
        let before = copy_of(&dm);
        let swap = Operator::two_qubits(TwoQubitsOp::SWAP);
        dm.evolve(&swap, &[a, b]);
        assert!(!dm.equals(copy_of(&before), tol(1e-3)));
        dm.evolve(&swap, &[a, b]);
        assert!(dm.equals(before, tol(1e-12)));
    }
}

#[test]
fn controlled_not_flips_the_target() {
    let mut dm = DensityMatrix::from_statevec(vec![ZERO, ZERO, ONE, ZERO]).unwrap();
    dm.evolve(&Operator::two_qubits(TwoQubitsOp::CX), &[0, 1]);
    let mut want = vec![ZERO; 16];
    want[15] = ONE;
    assert_eq!(dm.data, want);
}

#[test]
fn x_on_each_qubit_flips_its_bit() {
    for n in 1..4usize {
        for t in 0..n {
            let mut dm = DensityMatrix::new(n, Some(State::ZERO));
            dm.evolve_single(&Operator::one_qubit(OneQubitOp::X), t);
            let flipped = 1usize << (n - 1 - t);
            let mut want = vec![ZERO; dm.size * dm.size];
            want[flipped * dm.size + flipped] = ONE;
            assert_eq!(dm.data, want);
        }
    }
}

#[test]
fn evolve_single_agrees_with_evolve_on_one_index() {
    for op in [OneQubitOp::X, OneQubitOp::Y, OneQubitOp::Z, OneQubitOp::H] {
        for t in 0..3 {
            let mut a = mixed_state(3);
            let mut b = mixed_state(3);
            a.evolve_single(&Operator::one_qubit(op), t);
            b.evolve(&Operator::one_qubit(op), &[t]);
            assert_eq!(a.data, b.data);
        }
    }
}

#[test]
fn evolve_conjugates_by_the_operator() {
    let mut dm = mixed_state(1);
    let rho = dm.data.clone();
    let u = Operator::one_qubit(OneQubitOp::H).data;
    dm.evolve_single(&Operator::one_qubit(OneQubitOp::H), 0);
    for r in 0..2 {
        for c in 0..2 {
            let mut want = ZERO;
            for a in 0..2 {
                for b in 0..2 {
                    want += u[r * 2 + a] * rho[a * 2 + b] * u[c * 2 + b].conj();
                }
            }
            assert!((dm.data[r * 2 + c] - want).norm() < 1e-12);
        }
    }
}

#[test]
fn hadamard_then_controlled_not_makes_a_bell_state() {
    let mut dm = DensityMatrix::new(2, Some(State::ZERO));
    dm.evolve_single(&Operator::one_qubit(OneQubitOp::H), 0);
    dm.evolve(&Operator::two_qubits(TwoQubitsOp::CX), &[0, 1]);
    let half = Complex::new(0.5, 0.);
    let mut want = vec![ZERO; 16];
    want[0] = half;
    want[3] = half;
    want[12] = half;
    want[15] = half;
    let want = DensityMatrix { data: want, size: 4, nqubits: 2 };
    assert!(dm.equals(want, tol(1e-12)));
}

#[test]
fn controlled_not_uses_the_first_index_as_control() {
    let mut dm = DensityMatrix::from_statevec(vec![ZERO, ZERO, ZERO, ZERO, ZERO, ONE, ZERO, ZERO]).unwrap();
    dm.evolve(&Operator::two_qubits(TwoQubitsOp::CX), &[2, 0]);
    let mut want = vec![ZERO; 64];
    want[1 * 8 + 1] = ONE;
    assert_eq!(dm.data, want);
    let mut dm = DensityMatrix::from_statevec(vec![ZERO, ZERO, ZERO, ZERO, ZERO, ONE, ZERO, ZERO]).unwrap();
    dm.evolve(&Operator::two_qubits(TwoQubitsOp::CX), &[1, 0]);
    let mut want = vec![ZERO; 64];
    want[5 * 8 + 5] = ONE;
    assert_eq!(dm.data, want);
}

#[test]
fn controlled_z_changes_the_sign_of_coherences() {
    let h = 0.5;
    let mut dm = DensityMatrix::from_statevec(vec![Complex::new(h, 0.); 4]).unwrap();
    dm.evolve(&Operator::two_qubits(TwoQubitsOp::CZ), &[0, 1]);
    for r in 0..4 {
        for c in 0..4 {
            let sign = if (r == 3) != (c == 3) { -1. } else { 1. };
            assert_eq!(dm.get(r, c), Complex::new(sign * 0.25, 0.));
        }
    }
}

#[test]
fn print_writes_one_row_per_line() {
    let dm = DensityMatrix::new(1, Some(State::ZERO));
    assert_eq!(dm.print(), "[[1+0i, 0+0i]\n[0+0i, 0+0i]]\n\n\n");
    let mut single = DensityMatrix::new(0, Some(State::ZERO));
    single.set(0, 0, Complex::new(0.5, -2.));
    assert_eq!(single.print(), "[[0.5-2i]]\n\n\n");
}

fn arbitrary_operator(nqubits: usize) -> Operator {
    let dim = 1usize << nqubits;
    let mut data = Vec::new();
    for f in 0..dim * dim {
        data.push(Complex::new(0.25 * (f as f64) - 1., 0.5 - 0.125 * ((f * f) % 7) as f64));
    }
    Operator { nqubits, data }
}

fn bits_at(value: usize, nqubits: usize, indices: &[usize]) -> usize {
    let mut out = 0;
    for q in indices {
        out = (out << 1) | ((value >> (nqubits - 1 - q)) & 1);
    }
    out
}

fn same_elsewhere(a: usize, b: usize, nqubits: usize, indices: &[usize]) -> bool {
    (0..nqubits).all(|q| indices.contains(&q) || ((a ^ b) >> (nqubits - 1 - q)) & 1 == 0)
}

fn full_matrix(op: &Operator, nqubits: usize, indices: &[usize]) -> Vec<Complex<f64>> {
    let size = 1usize << nqubits;
    let dim = 1usize << indices.len();
    let mut full = vec![ZERO; size * size];
    for r in 0..size {
        for c in 0..size {
            if same_elsewhere(r, c, nqubits, indices) {
                full[r * size + c] =
                    op.data[bits_at(r, nqubits, indices) * dim + bits_at(c, nqubits, indices)];
            }
        }
    }
    full
}

fn conjugate_by(full: &[Complex<f64>], rho: &[Complex<f64>], size: usize) -> Vec<Complex<f64>> {
    let mut out = vec![ZERO; size * size];
    for r in 0..size {
        for c in 0..size {
            let mut sum = ZERO;
            for a in 0..size {
                for b in 0..size {
                    sum += full[r * size + a] * rho[a * size + b] * full[c * size + b].conj();
                }
            }
            out[r * size + c] = sum;
        }
    }
    out
}

#[test]
fn evolve_matches_conjugation_by_the_full_matrix() {
    let cases: [&[usize]; 12] = [
        &[0],
        &[1],
        &[2],
        &[0, 1],
        &[1, 0],
        &[0, 2],
        &[2, 0],
        &[1, 2],
        &[2, 1],
        &[0, 1, 2],
        &[2, 0, 1],
        &[1, 2, 0],
    ];
    for indices in cases {
        let op = arbitrary_operator(indices.len());
        let mut dm = mixed_state(3);
        let want = conjugate_by(&full_matrix(&op, 3, indices), &dm.data, 8);
        dm.evolve(&op, indices);
        assert_eq!(dm.size, 8);
        assert_eq!(dm.nqubits, 3);
        for f in 0..64 {
            assert!((dm.data[f] - want[f]).norm() < 1e-9, "indices {:?}, entry {}", indices, f);
        }
    }
}

#[test]
fn evolve_without_qubits_scales_by_the_operator() {
    let op = Operator { nqubits: 0, data: vec![Complex::new(0., 2.)] };
    let mut dm = mixed_state(2);
    let before = dm.data.clone();
    dm.evolve(&op, &[]);
    for f in 0..16 {
        assert!((dm.data[f] - before[f] * 4.).norm() < 1e-12);
    }
}

#[test]
fn invariants_are_checked_at_run_time() {
    let dm = DensityMatrix::new(2, Some(State::ZERO));
    assert!(dm.is_wf());
    assert!(!DensityMatrix { data: vec![ZERO; 16], size: 4, nqubits: 3 }.is_wf());
    assert!(!DensityMatrix { data: vec![ZERO; 15], size: 4, nqubits: 2 }.is_wf());
    assert!(!DensityMatrix { data: vec![ZERO; 9], size: 3, nqubits: 1 }.is_wf());
    assert!(!DensityMatrix { data: vec![], size: 0, nqubits: 0 }.is_wf());
    assert!(DensityMatrix { data: vec![ZERO], size: 1, nqubits: 0 }.is_wf());
    assert!(Operator::two_qubits(TwoQubitsOp::CZ).is_wf());
    assert!(!Operator { nqubits: 1, data: vec![ZERO; 16] }.is_wf());
    assert!(!Operator { nqubits: 1, data: vec![ZERO; 2] }.is_wf());
    assert!(!Operator { nqubits: 1, data: vec![ZERO; 3] }.is_wf());
    assert!(Operator { nqubits: 0, data: vec![ONE] }.is_wf());
    assert!(dm.to_tensor().is_wf());
    assert!(!dm_simu_rs::tensor::Tensor { shape: vec![2, 0], data: vec![] }.is_wf());
    assert!(!dm_simu_rs::tensor::Tensor { shape: vec![2, 2], data: vec![ZERO; 3] }.is_wf());
    assert!(!dm_simu_rs::tensor::Tensor { shape: vec![usize::MAX, 2], data: vec![] }.is_wf());
}

#[test]
fn fatal_inputs_of_evolution_are_refused() {
    let rho = DensityMatrix::new(3, Some(State::ZERO));
    let x = Operator::one_qubit(OneQubitOp::X);
    let cx = Operator::two_qubits(TwoQubitsOp::CX);
    let cz = Operator::two_qubits(TwoQubitsOp::CZ);
    assert!(!rho.can_evolve(&x, &[5]));
    assert!(!rho.can_evolve(&x, &[3]));
    assert!(!rho.can_evolve(&cz, &[0]));
    assert!(!rho.can_evolve(&cx, &[0, 3]));
    assert!(!rho.can_evolve(&cx, &[0, 0]));
    assert!(!rho.can_evolve(&x, &[0, 1]));
    assert!(!rho.can_evolve(&x, &[]));
    assert!(rho.can_evolve(&x, &[2]));
    assert!(rho.can_evolve(&cx, &[2, 0]));
    let broken = DensityMatrix { data: vec![ZERO; 16], size: 4, nqubits: 3 };
    assert!(!broken.can_evolve(&x, &[0]));
    assert!(!rho.can_evolve(&Operator { nqubits: 1, data: vec![ONE; 5] }, &[0]));
}
