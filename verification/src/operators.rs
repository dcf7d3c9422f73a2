//! A catalogue of fixed one- and two-qubit operators as matrices, and the
//! conjugate transpose.

use vstd::prelude::*;
use vstd::arithmetic::power2::{lemma2_to64, lemma_pow2_adds, lemma_pow2_pos, pow2};
use num_complex::Complex64;
use crate::scalar::{
    complex_conj, complex_conjugate, complex_from_ints, complex_of_ints,
    complex_root_of_count, complex_sqrt_of_count, complex_unscale, complex_unscaled, one, zero,
};
use crate::tensor::Tensor;
use crate::density_matrix::exact_log2;
use crate::tools::{
    lemma_pow2_distinct, lemma_pow2_fits, lemma_pow2_monotone, lemma_twos_size, two_to, twos,
    twos_shape,
};

verus! {

/// The one-qubit gates.
#[derive(Debug, Clone, Copy, PartialEq, Eq)]
pub enum OneQubitOp {
    I,
    X,
    Y,
    Z,
    H,
}

/// The two-qubit gates.  For the controlled gates the first qubit is the
/// control.
#[derive(Debug, Clone, Copy, PartialEq, Eq)]
pub enum TwoQubitsOp {
    CX,
    CZ,
    SWAP,
}

/// The matrix of a gate on `nqubits` qubits, `2^nqubits` rows and columns,
/// stored flat in row-major order.
pub struct Operator {
    pub nqubits: usize,
    pub data: Vec<Complex64>,
}

/// The imaginary unit.
pub open spec fn imaginary() -> Complex64 {
    complex_of_ints(0, 1)
}

/// The square root of two, halved: the entry of the Hadamard gate.
pub open spec fn half_root() -> Complex64 {
    complex_unscaled(complex_root_of_count(2), 2)
}

/// The square root of two, halved and negated.
pub open spec fn minus_half_root() -> Complex64 {
    complex_unscaled(complex_root_of_count(2), -2)
}

/// The matrix of a one-qubit gate, row-major.
pub open spec fn one_qubit_matrix(op: OneQubitOp) -> Seq<Complex64> {
    match op {
        OneQubitOp::I => seq![one(), zero(), zero(), one()],
        OneQubitOp::X => seq![zero(), one(), one(), zero()],
        OneQubitOp::Y => seq![zero(), complex_of_ints(0, -1), imaginary(), zero()],
        OneQubitOp::Z => seq![one(), zero(), zero(), complex_of_ints(-1, 0)],
        OneQubitOp::H => seq![half_root(), half_root(), half_root(), minus_half_root()],
    }
}

/// The matrix of a two-qubit gate, row-major, rows and columns numbered by
/// the two qubits' bits with the first qubit most significant.
pub open spec fn two_qubit_matrix(op: TwoQubitsOp) -> Seq<Complex64> {
    match op {
        TwoQubitsOp::CX => seq![
            one(), zero(), zero(), zero(),
            zero(), one(), zero(), zero(),
            zero(), zero(), zero(), one(),
            zero(), zero(), one(), zero(),
        ],
        TwoQubitsOp::CZ => seq![
            one(), zero(), zero(), zero(),
            zero(), one(), zero(), zero(),
            zero(), zero(), one(), zero(),
            zero(), zero(), zero(), complex_of_ints(-1, 0),
        ],
        TwoQubitsOp::SWAP => seq![
            one(), zero(), zero(), zero(),
            zero(), zero(), one(), zero(),
            zero(), one(), zero(), zero(),
            zero(), zero(), zero(), one(),
        ],
    }
}

/// The conjugate transpose of a `dim × dim` matrix stored row-major.
pub open spec fn adjoint(data: Seq<Complex64>, dim: nat) -> Seq<Complex64> {
    Seq::new(data.len(), |f: int| complex_conjugate(data[(f % dim as int) * dim + f / dim as int]))
}

impl Operator {
    /// The invariant of an operator: one entry per row and column of a
    /// `2^nqubits`-dimensional matrix.
    pub open spec fn wf(&self) -> bool {
        self.data@.len() == pow2(2 * self.nqubits as nat)
    }

    /// Whether the invariant holds.
    pub fn is_wf(&self) -> (ok: bool)
        ensures
            ok == self.wf(),
    {
        match exact_log2(self.data.len()) {
            Some(e) => {
                proof {
                    if e != 2 * self.nqubits {
                        lemma_pow2_distinct(e as nat, 2 * self.nqubits as nat);
                    }
                }
                e % 2 == 0 && e / 2 == self.nqubits
            },
            None => false,
        }
    }

    /// The operator of a one-qubit gate.
    pub fn one_qubit(op: OneQubitOp) -> (gate: Operator)
        ensures
            gate.wf(),
            gate.nqubits == 1,
            gate.data@ == one_qubit_matrix(op),
    {
        let o = complex_from_ints(0, 0);
        let l = complex_from_ints(1, 0);
        let data = match op {
            OneQubitOp::I => vec![l, o, o, l],
            OneQubitOp::X => vec![o, l, l, o],
            OneQubitOp::Y => vec![o, complex_from_ints(0, -1), complex_from_ints(0, 1), o],
            OneQubitOp::Z => vec![l, o, o, complex_from_ints(-1, 0)],
            OneQubitOp::H => {
                let root = complex_sqrt_of_count(2);
                let h = complex_unscale(root, 2);
                vec![h, h, h, complex_unscale(root, -2)]
            },
        };
        proof {
            lemma2_to64();
            assert(data@ =~= one_qubit_matrix(op));
        }
        Operator { nqubits: 1, data }
    }

    /// The operator of a two-qubit gate.
    pub fn two_qubits(op: TwoQubitsOp) -> (gate: Operator)
        ensures
            gate.wf(),
            gate.nqubits == 2,
            gate.data@ == two_qubit_matrix(op),
    {
        let o = complex_from_ints(0, 0);
        let l = complex_from_ints(1, 0);
        let data = match op {
            TwoQubitsOp::CX => vec![l, o, o, o, o, l, o, o, o, o, o, l, o, o, l, o],
            TwoQubitsOp::CZ => vec![
                l, o, o, o, o, l, o, o, o, o, l, o, o, o, o, complex_from_ints(-1, 0),
            ],
            TwoQubitsOp::SWAP => vec![l, o, o, o, o, o, l, o, o, l, o, o, o, o, o, l],
        };
        proof {
            lemma2_to64();
            assert(data@ =~= two_qubit_matrix(op));
        }
        Operator { nqubits: 2, data }
    }

    /// The conjugate transpose.
    pub fn transconj(&self) -> (dagger: Operator)
        requires
            self.wf(),
        ensures
            dagger.wf(),
            dagger.nqubits == self.nqubits,
            dagger.data@ == adjoint(self.data@, pow2(self.nqubits as nat)),
    {
        let total = self.data.len();
        proof {
            lemma_pow2_adds(self.nqubits as nat, self.nqubits as nat);
            lemma_pow2_monotone(self.nqubits as nat, 2 * self.nqubits as nat);
            lemma_pow2_pos(self.nqubits as nat);
        }
        let dim = two_to(self.nqubits);
        let mut data: Vec<Complex64> = Vec::new();
        let mut f: usize = 0;
        while f < total
            invariant
                total == self.data@.len(),
                total == dim * dim,
                dim > 0,
                f <= total,
                data@.len() == f,
                forall|g: int|
                    0 <= g < f ==> data@[g] == complex_conjugate(
                        self.data@[(g % dim as int) * dim + g / dim as int],
                    ),
            decreases total - f,
        {
            let row = f / dim;
            let col = f % dim;
            assert(row < dim) by (nonlinear_arith)
                requires
                    f < dim * dim,
                    row == f / dim,
                    dim > 0,
            ;
            assert(col * dim + row < dim * dim && col * dim >= 0) by (nonlinear_arith)
                requires
                    0 <= col < dim,
                    0 <= row < dim,
            ;
            data.push(complex_conj(self.data[col * dim + row]));
            f += 1;
        }
        assert(data@ =~= adjoint(self.data@, pow2(self.nqubits as nat)));
        Operator { nqubits: self.nqubits, data }
    }

    /// The operator as a tensor of `2 · nqubits` axes of extent two: the
    /// output qubits first, then the input qubits.
    pub fn to_tensor(&self) -> (t: Tensor)
        requires
            self.wf(),
        ensures
            t.wf(),
            t.shape@ == twos(2 * self.nqubits as nat),
            t.data@ == self.data@,
    {
        let total = self.data.len();
        proof {
            lemma_pow2_fits(2 * self.nqubits as nat);
            lemma_twos_size(2 * self.nqubits as nat);
        }
        let shape = twos_shape(2 * self.nqubits);
        let mut data: Vec<Complex64> = Vec::new();
        let mut i: usize = 0;
        while i < total
            invariant
                total == self.data@.len(),
                i <= total,
                data@ =~= self.data@.take(i as int),
            decreases total - i,
        {
            data.push(self.data[i]);
            i += 1;
        }
        assert(self.data@.take(i as int) =~= self.data@);
        Tensor::from_vec(data, shape)
    }
}

} // verus!
