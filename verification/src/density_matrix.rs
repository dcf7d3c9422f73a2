//! The density matrix of an n-qubit register and its evolution under gates.

use vstd::prelude::*;
use vstd::pervasive::unreached;
use vstd::string::StringExecFns;
use vstd::arithmetic::power2::{lemma2_to64, lemma_pow2_adds, lemma_pow2_pos, lemma_pow2_unfold, pow2};
use num_complex::Complex64;
use crate::axes::{
    all_below, all_distinct, axes_below, free_axes, lemma_free_axes, lemma_free_axes_len,
    lemma_moved_axes, moved_order, select, valid_axes,
};
use crate::conjugation::{conjugated_entry, lemma_evolved_matrix_entry};
use crate::index::{lemma_flat_of_multi, lemma_multi_index_bound, shape_size};
use crate::operators::{adjoint, Operator};
use crate::scalar::{
    complex_add, complex_conj, complex_conjugate, complex_count, complex_difference,
    complex_div, complex_from_ints, complex_mul, complex_norm, complex_of_count,
    complex_product, complex_quotient, complex_sub, complex_sum, complex_text, complex_to_text,
    one, real_less, real_part_below, zero,
};
use crate::tensor::{
    contracted, contracted_shape, contractible, movable, moved, normal_axes, normal_axis,
    position_in_range, positions_in_range, Tensor, TensorView,
};
use crate::tools::{
    bit_vector, bitwise_int_to_bin_vec, lemma_bit_vector_is_multi_index,
    lemma_pow2_distinct, lemma_pow2_fits, lemma_pow2_monotone, lemma_select_twos,
    lemma_twos_size, tensor_to_dm, two_to, twos, twos_shape,
};

verus! {

/// The canonical initial states.
#[derive(Debug, Clone, Copy, PartialEq, Eq)]
pub enum State {
    /// Every qubit in `|0>`.
    ZERO,
    /// Every qubit in `|+>`.
    PLUS,
}

/// A `size × size` complex matrix, `size = 2^nqubits`, stored flat in
/// row-major order.
pub struct DensityMatrix {
    pub data: Vec<Complex64>,
    pub size: usize,
    pub nqubits: usize,
}

/// Whether `n` is a power of two.
pub open spec fn is_power_of_two(n: nat) -> bool {
    exists|e: nat| pow2(e) == n
}

/// The sum of the first `count` diagonal entries of a `size × size` matrix,
/// starting from zero and adding in row order.
pub open spec fn diagonal_sum(data: Seq<Complex64>, size: nat, count: nat) -> Complex64
    decreases count,
{
    if count == 0 {
        zero()
    } else {
        complex_sum(
            diagonal_sum(data, size, (count - 1) as nat),
            data[(count - 1) * size + (count - 1)],
        )
    }
}

/// How far the trace may lie from one: `1 / 10^10`.
pub open spec fn trace_tolerance() -> Complex64 {
    complex_quotient(one(), complex_of_count(10_000_000_000))
}

/// The axes `start, start + 1, ..., start + count - 1`.
pub open spec fn counted(start: nat, count: nat) -> Seq<usize> {
    Seq::new(count, |i: int| (start + i) as usize)
}

/// Every listed axis moved up by `offset`.
pub open spec fn shifted(axes: Seq<usize>, offset: nat) -> Seq<usize> {
    Seq::new(axes.len(), |i: int| (axes[i] + offset) as usize)
}

/// Where the axes that a `k`-qubit gate application leaves out of place
/// stand: the `k` leading positions, then the `k` trailing positions from
/// the last one backwards.
pub open spec fn restore_src(k: nat) -> Seq<i32> {
    Seq::new(
        2 * k,
        |i: int|
            if i < k {
                i as i32
            } else {
                (k - 1 - i) as i32
            },
    )
}

/// Where those axes belong: the leading block at the row axes of the target
/// qubits in listed order, the trailing block, taken backwards, at the
/// column axes of the target qubits in reverse listed order.
pub open spec fn restore_dst(nqubits: nat, indices: Seq<usize>) -> Seq<i32> {
    Seq::new(
        2 * indices.len(),
        |i: int|
            if i < indices.len() {
                indices[i] as i32
            } else {
                (indices[2 * indices.len() - 1 - i] + nqubits) as i32
            },
    )
}

/// The entries of the matrix `rho` of `nqubits` qubits after an operator
/// with matrix `gate` acts on the qubits `indices`: the operator is
/// contracted over its input axes against the row axes of those qubits, its
/// conjugate transpose over its leading axes against their column axes, and
/// the axes are put back in canonical order.
pub open spec fn evolved(
    rho: Seq<Complex64>,
    nqubits: nat,
    gate: Seq<Complex64>,
    indices: Seq<usize>,
) -> Seq<Complex64> {
    let k = indices.len();
    let state = TensorView { shape: twos(2 * nqubits), data: rho };
    let u = TensorView { shape: twos(2 * k), data: gate };
    let u_dagger = TensorView { shape: twos(2 * k), data: adjoint(gate, pow2(k)) };
    let rows = contracted(u, state, counted(k, k), indices);
    let both = contracted(rows, u_dagger, shifted(indices, nqubits), counted(0, k));
    moved(
        both,
        normal_axes(2 * nqubits, restore_src(k)),
        normal_axes(2 * nqubits, restore_dst(nqubits, indices)),
    ).data
}

/// The axes `start, start + 1, ..., start + count - 1`.
pub fn count_axes(start: usize, count: usize) -> (axes: Vec<usize>)
    requires
        start + count <= usize::MAX,
    ensures
        axes@ == counted(start as nat, count as nat),
{
    let mut out: Vec<usize> = Vec::new();
    let mut i: usize = 0;
    while i < count
        invariant
            start + count <= usize::MAX,
            i <= count,
            out@ =~= counted(start as nat, i as nat),
        decreases count - i,
    {
        out.push(start + i);
        i += 1;
    }
    out
}

/// Every listed axis moved up by `offset`.
pub fn shift_axes(axes: &[usize], offset: usize) -> (moved_up: Vec<usize>)
    requires
        forall|i: int| 0 <= i < axes@.len() ==> #[trigger] axes@[i] + offset <= usize::MAX,
    ensures
        moved_up@ == shifted(axes@, offset as nat),
{
    let mut out: Vec<usize> = Vec::new();
    let mut i: usize = 0;
    while i < axes.len()
        invariant
            forall|j: int| 0 <= j < axes@.len() ==> #[trigger] axes@[j] + offset <= usize::MAX,
            i <= axes.len(),
            out@ =~= shifted(axes@.take(i as int), offset as nat),
        decreases axes.len() - i,
    {
        assert(axes@[i as int] + offset <= usize::MAX);
        out.push(axes[i] + offset);
        i += 1;
    }
    assert(axes@.take(i as int) =~= axes@);
    out
}

/// The two lists that put the axes back in canonical order after a gate
/// has acted on the qubits `indices`: the positions where the moved axes
/// stand, and the positions where they belong.
pub fn restore_axes(nqubits: usize, indices: &[usize]) -> (lists: (Vec<i32>, Vec<i32>))
    requires
        2 * nqubits <= i32::MAX,
        indices@.len() <= nqubits,
        axes_below(nqubits as nat, indices@),
    ensures
        lists.0@ == restore_src(indices@.len()),
        lists.1@ == restore_dst(nqubits as nat, indices@),
{
    let k = indices.len();
    let mut src: Vec<i32> = Vec::new();
    let mut dst: Vec<i32> = Vec::new();
    let mut i: usize = 0;
    while i < k
        invariant
            2 * nqubits <= i32::MAX,
            k == indices@.len(),
            k <= nqubits,
            axes_below(nqubits as nat, indices@),
            i <= k,
            src@.len() == i,
            dst@.len() == i,
            forall|j: int| 0 <= j < i ==> src@[j] == restore_src(k as nat)[j],
            forall|j: int| 0 <= j < i ==> dst@[j] == restore_dst(nqubits as nat, indices@)[j],
        decreases k - i,
    {
        assert(indices@[i as int] < nqubits);
        src.push(i as i32);
        dst.push(indices[i] as i32);
        i += 1;
    }
    let mut j: usize = 0;
    while j < k
        invariant
            2 * nqubits <= i32::MAX,
            k == indices@.len(),
            k <= nqubits,
            axes_below(nqubits as nat, indices@),
            j <= k,
            src@.len() == k + j,
            dst@.len() == k + j,
            forall|a: int| 0 <= a < k + j ==> src@[a] == restore_src(k as nat)[a],
            forall|a: int| 0 <= a < k + j ==> dst@[a] == restore_dst(nqubits as nat, indices@)[a],
        decreases k - j,
    {
        assert(indices@[k - 1 - j] < nqubits);
        src.push(-((j + 1) as i32));
        dst.push((indices[k - 1 - j] + nqubits) as i32);
        j += 1;
    }
    assert(src@ =~= restore_src(k as nat));
    assert(dst@ =~= restore_dst(nqubits as nat, indices@));
    (src, dst)
}

/// The text of the first `cols` entries of a row: an opening bracket, then
/// the entries, each followed by a comma and a space unless it is the last
/// of the row.
pub open spec fn row_text(data: Seq<Complex64>, size: nat, row: nat, cols: nat) -> Seq<char>
    decreases cols,
{
    if cols == 0 {
        "["@
    } else {
        row_text(data, size, row, (cols - 1) as nat) + complex_text(
            data[row * size + (cols - 1)],
        ) + (if cols != size {
            ", "@
        } else {
            Seq::<char>::empty()
        })
    }
}

/// The text of the first `rows` rows: an opening bracket, then each row
/// closed by a bracket and a line break; the last row closes the matrix with
/// a second bracket.
pub open spec fn rows_text(data: Seq<Complex64>, size: nat, rows: nat) -> Seq<char>
    decreases rows,
{
    if rows == 0 {
        "["@
    } else {
        rows_text(data, size, (rows - 1) as nat) + row_text(data, size, (rows - 1) as nat, size)
            + "]"@ + (if rows == size {
            "]"@
        } else {
            Seq::<char>::empty()
        }) + "\n"@
    }
}

/// The text of a matrix: its rows, then two line breaks.
pub open spec fn matrix_text(data: Seq<Complex64>, size: nat) -> Seq<char> {
    rows_text(data, size, size) + "\n\n"@
}

/// How far the trace may lie from one.
pub fn trace_bound() -> (bound: Complex64)
    ensures
        bound == trace_tolerance(),
{
    complex_div(complex_from_ints(1, 0), complex_count(10_000_000_000))
}

/// What the trace check reports for each modulus of the diagonal sum less
/// one: the value that stands for unity when the modulus is strictly below
/// the tolerance, the complaint otherwise.
pub fn trace_outcome(modulus: Complex64) -> (out: Result<i32, &'static str>)
    ensures
        match out {
            Ok(unity) => unity == 1 && real_part_below(modulus, trace_tolerance()),
            Err(message) => {
                &&& !real_part_below(modulus, trace_tolerance())
                &&& message@ == "The sum over the diagonal elements do not make 1"@
            },
        },
{
    if real_less(modulus, trace_bound()) {
        Ok(1)
    } else {
        Err("The sum over the diagonal elements do not make 1")
    }
}

/// Every modulus is strictly below the tolerance.
pub open spec fn within_all(moduli: Seq<Complex64>, tolerance: Complex64) -> bool {
    forall|i: int| 0 <= i < moduli.len() ==> real_part_below(moduli[i], tolerance)
}

/// Whether two matrices are equal, given whether they hold the same number
/// of entries and the moduli of the differences of their entries: the
/// lengths match and every modulus is strictly below the tolerance.
pub fn agreement_within(lengths_match: bool, moduli: &[Complex64], tolerance: Complex64) -> (same:
    bool)
    ensures
        same == (lengths_match && within_all(moduli@, tolerance)),
{
    if !lengths_match {
        return false;
    }
    let mut i: usize = 0;
    while i < moduli.len()
        invariant
            i <= moduli.len(),
            forall|j: int| 0 <= j < i ==> real_part_below(moduli@[j], tolerance),
        decreases moduli.len() - i,
    {
        if !real_less(moduli[i], tolerance) {
            return false;
        }
        i += 1;
    }
    true
}

/// The exponent `e` with `2^e == n`, if there is one.
pub fn exact_log2(n: usize) -> (exponent: Option<usize>)
    ensures
        match exponent {
            Some(e) => pow2(e as nat) == n,
            None => !is_power_of_two(n as nat),
        },
{
    if n == 0 {
        assert forall|e: nat| pow2(e) != 0 by {
            lemma_pow2_pos(e);
        }
        return None;
    }
    let mut p: usize = 1;
    let mut e: usize = 0;
    proof {
        lemma2_to64();
    }
    while p < n
        invariant
            p == pow2(e as nat),
            1 <= p <= n,
            e < 64,
        decreases n - p,
    {
        proof {
            lemma_pow2_unfold((e + 1) as nat);
        }
        if p > n - p {
            assert forall|x: nat| pow2(x) != n by {
                if x <= e {
                    lemma_pow2_monotone(x, e as nat);
                } else {
                    lemma_pow2_monotone((e + 1) as nat, x);
                }
            }
            return None;
        }
        p = p + p;
        e += 1;
        proof {
            lemma_pow2_fits(e as nat);
        }
    }
    Some(e)
}

impl DensityMatrix {
    /// The invariant of a density matrix: `size = 2^nqubits` and one entry
    /// per row and column.
    pub open spec fn wf(&self) -> bool {
        &&& self.size == pow2(self.nqubits as nat)
        &&& self.data@.len() == self.size * self.size
    }

    /// The entry at row `i` and column `j`.
    pub open spec fn entry(&self, i: int, j: int) -> Complex64 {
        self.data@[i * self.size + j]
    }

    /// Whether the invariant holds.
    pub fn is_wf(&self) -> (ok: bool)
        ensures
            ok == self.wf(),
    {
        let total = self.data.len();
        match exact_log2(self.size) {
            Some(e) => {
                proof {
                    if e != self.nqubits {
                        lemma_pow2_distinct(e as nat, self.nqubits as nat);
                    }
                }
                match self.size.checked_mul(self.size) {
                    Some(entries) => e == self.nqubits && entries == total,
                    None => false,
                }
            },
            None => false,
        }
    }

    /// Whether `op` can be applied to the qubits `indices`: the matrix and
    /// the operator are well formed, the operator acts on as many qubits as
    /// are listed, and the listed qubits are distinct qubits of the register.
    pub fn can_evolve(&self, op: &Operator, indices: &[usize]) -> (ok: bool)
        ensures
            ok == (self.wf() && op.wf() && op.nqubits == indices@.len() && valid_axes(
                self.nqubits as nat,
                indices@,
            )),
    {
        self.is_wf() && op.is_wf() && op.nqubits == indices.len() && all_below(
            self.nqubits,
            indices,
        ) && all_distinct(indices)
    }

    /// The density matrix of `nqubits` qubits in the given initial state;
    /// without one, the all-zero matrix.
    pub fn new(nqubits: usize, initial_state: Option<State>) -> (dm: DensityMatrix)
        requires
            pow2(2 * nqubits as nat) <= usize::MAX,
        ensures
            dm.wf(),
            dm.nqubits == nqubits,
            match initial_state {
                None => forall|i: int| 0 <= i < dm.data@.len() ==> dm.data@[i] == zero(),
                Some(State::ZERO) => {
                    &&& dm.data@[0] == one()
                    &&& forall|i: int| 1 <= i < dm.data@.len() ==> dm.data@[i] == zero()
                },
                Some(State::PLUS) => forall|i: int|
                    0 <= i < dm.data@.len() ==> dm.data@[i] == complex_quotient(
                        one(),
                        complex_of_count(dm.size as int),
                    ),
            },
    {
        proof {
            lemma_pow2_adds(nqubits as nat, nqubits as nat);
            lemma_pow2_monotone(nqubits as nat, 2 * nqubits as nat);
            lemma_pow2_pos(nqubits as nat);
        }
        let size = two_to(nqubits);
        assert(size * size == pow2(2 * nqubits as nat));
        let total = size * size;
        let fill = match initial_state {
            Some(State::PLUS) => {
                complex_div(complex_from_ints(1, 0), complex_count(size as u64))
            },
            _ => complex_from_ints(0, 0),
        };
        let mut data: Vec<Complex64> = Vec::new();
        let mut i: usize = 0;
        while i < total
            invariant
                i <= total,
                data@.len() == i,
                forall|j: int| 0 <= j < i ==> data@[j] == fill,
            decreases total - i,
        {
            data.push(fill);
            i += 1;
        }
        match initial_state {
            Some(State::ZERO) => {
                data.set(0, complex_from_ints(1, 0));
            },
            _ => {},
        }
        DensityMatrix { data, size, nqubits }
    }

    /// The density matrix of a pure state: the outer product of the
    /// amplitudes with their conjugates.
    pub fn from_statevec(statevec: Vec<Complex64>) -> (out: Result<DensityMatrix, &'static str>)
        requires
            is_power_of_two(statevec@.len()) ==> statevec@.len() * statevec@.len() <= usize::MAX,
        ensures
            match out {
                Ok(dm) => {
                    &&& is_power_of_two(statevec@.len())
                    &&& dm.wf()
                    &&& dm.size == statevec@.len()
                    &&& forall|i: int, j: int|
                        0 <= i < dm.size && 0 <= j < dm.size ==> #[trigger] dm.entry(i, j)
                            == complex_product(statevec@[i], complex_conjugate(statevec@[j]))
                },
                Err(message) => {
                    &&& !is_power_of_two(statevec@.len())
                    &&& message@ == "The size of the statevec is not a power of two"@
                },
            },
    {
        let size = statevec.len();
        let nqubits = match exact_log2(size) {
            Some(e) => e,
            None => {
                return Err("The size of the statevec is not a power of two");
            },
        };
        assert(is_power_of_two(size as nat)) by {
            assert(pow2(nqubits as nat) == size);
        }
        let mut data: Vec<Complex64> = Vec::new();
        let mut i: usize = 0;
        while i < size
            invariant
                size == statevec@.len(),
                size * size <= usize::MAX,
                i <= size,
                data@.len() == i * size,
                forall|a: int, b: int|
                    0 <= a < i && 0 <= b < size ==> #[trigger] data@[a * size + b]
                        == complex_product(statevec@[a], complex_conjugate(statevec@[b])),
            decreases size - i,
        {
            let mut j: usize = 0;
            while j < size
                invariant
                    size == statevec@.len(),
                    size * size <= usize::MAX,
                    i < size,
                    j <= size,
                    data@.len() == i * size + j,
                    forall|a: int, b: int|
                        0 <= a < i && 0 <= b < size ==> #[trigger] data@[a * size + b]
                            == complex_product(statevec@[a], complex_conjugate(statevec@[b])),
                    forall|b: int|
                        0 <= b < j ==> #[trigger] data@[i * size + b] == complex_product(
                            statevec@[i as int],
                            complex_conjugate(statevec@[b]),
                        ),
                decreases size - j,
            {
                let ghost before = data@;
                data.push(complex_mul(statevec[i], complex_conj(statevec[j])));
                proof {
                    assert forall|a: int, b: int| 0 <= a < i && 0 <= b < size implies #[trigger] data@[a
                        * size + b] == complex_product(
                        statevec@[a],
                        complex_conjugate(statevec@[b]),
                    ) by {
                        assert(a * size + b < i * size) by (nonlinear_arith)
                            requires
                                0 <= a < i,
                                0 <= b < size,
                        ;
                        assert(data@[a * size + b] == before[a * size + b]);
                    }
                    assert forall|b: int| 0 <= b < j + 1 implies #[trigger] data@[i * size + b]
                        == complex_product(
                        statevec@[i as int],
                        complex_conjugate(statevec@[b]),
                    ) by {
                        if b < j {
                            assert(data@[i * size + b] == before[i * size + b]);
                        }
                    }
                }
                j += 1;
            }
            proof {
                assert((i + 1) * size == i * size + size) by (nonlinear_arith);
            }
            i += 1;
        }
        Ok(DensityMatrix { data, size, nqubits })
    }

    /// The matrix as text, one row per line.
    pub fn print(&self) -> (text: String)
        requires
            self.wf(),
        ensures
            text@ == matrix_text(self.data@, self.size as nat),
    {
        let size = self.size;
        let total = self.data.len();
        let mut out = String::new();
        out.append("[");
        let mut i: usize = 0;
        while i < size
            invariant
                size == self.size,
                total == self.data@.len(),
                total == size * size,
                i <= size,
                out@ == rows_text(self.data@, size as nat, i as nat),
            decreases size - i,
        {
            let ghost before = out@;
            out.append("[");
            let mut j: usize = 0;
            while j < size
                invariant
                    size == self.size,
                    total == self.data@.len(),
                    total == size * size,
                    i < size,
                    j <= size,
                    out@ == before + row_text(self.data@, size as nat, i as nat, j as nat),
                decreases size - j,
            {
                assert(i * size + j < size * size && i * size >= 0) by (nonlinear_arith)
                    requires
                        0 <= i < size,
                        0 <= j < size,
                ;
                let ghost row = out@;
                let piece = complex_to_text(self.data[i * size + j]);
                out.append(piece.as_str());
                if j != size - 1 {
                    out.append(", ");
                }
                j += 1;
                assert(out@ =~= before + row_text(self.data@, size as nat, i as nat, j as nat));
            }
            out.append("]");
            if i == size - 1 {
                out.append("]");
            }
            out.append("\n");
            i += 1;
            assert(out@ =~= rows_text(self.data@, size as nat, i as nat));
        }
        out.append("\n\n");
        out
    }

    /// Whether the matrix holds one entry per row and column and `i` and
    /// `j` name a row and a column of it.
    pub fn holds(&self, i: usize, j: usize) -> (ok: bool)
        ensures
            ok == (i < self.size && j < self.size && self.data@.len() == self.size * self.size),
    {
        let total = self.data.len();
        match self.size.checked_mul(self.size) {
            Some(entries) => i < self.size && j < self.size && entries == total,
            None => false,
        }
    }

    /// The entry at row `i` and column `j`.
    pub fn get(&self, i: usize, j: usize) -> (value: Complex64)
        requires
            i < self.size,
            j < self.size,
            self.data@.len() == self.size * self.size,
        ensures
            value == self.entry(i as int, j as int),
    {
        let total = self.data.len();
        let size = self.size;
        assert(0 <= i * size && i * size + j < size * size) by (nonlinear_arith)
            requires
                0 <= i < size,
                0 <= j < size,
        ;
        self.data[i * self.size + j]
    }

    /// Replaces the entry at row `i` and column `j`.
    pub fn set(&mut self, i: usize, j: usize, value: Complex64)
        requires
            i < old(self).size,
            j < old(self).size,
            old(self).data@.len() == old(self).size * old(self).size,
        ensures
            final(self).size == old(self).size,
            final(self).nqubits == old(self).nqubits,
            final(self).data@ == old(self).data@.update(i * old(self).size + j, value),
            old(self).wf() ==> final(self).wf(),
    {
        let total = self.data.len();
        let size = self.size;
        assert(0 <= i * size && i * size + j < size * size) by (nonlinear_arith)
            requires
                0 <= i < size,
                0 <= j < size,
        ;
        let flat = i * self.size + j;
        self.data.set(flat, value);
    }

    /// The tensor of `2 · nqubits` axes of extent two that holds the same
    /// entries: the row bits, most significant first, then the column bits.
    pub fn to_tensor(&self) -> (t: Tensor)
        requires
            self.wf(),
        ensures
            t.wf(),
            t.shape@ == twos(2 * self.nqubits as nat),
            t.data@ == self.data@,
            forall|i: int|
                0 <= i < self.data@.len() ==> t@.at(
                    #[trigger] bit_vector(i as nat, 2 * self.nqubits as nat),
                ) == self.data@[i],
    {
        let total = self.data.len();
        proof {
            lemma_pow2_adds(self.nqubits as nat, self.nqubits as nat);
            lemma_pow2_fits(2 * self.nqubits as nat);
            lemma_twos_size(2 * self.nqubits as nat);
        }
        let width = 2 * self.nqubits;
        let shape = twos_shape(width);
        let mut tensor = Tensor::new(shape);
        let mut i: usize = 0;
        while i < total
            invariant
                self.wf(),
                total == self.data@.len(),
                width == 2 * self.nqubits,
                tensor.wf(),
                tensor.shape@ == twos(width as nat),
                shape_size(twos(width as nat)) == total,
                i <= total,
                forall|j: int| 0 <= j < i ==> tensor.data@[j] == self.data@[j],
            decreases total - i,
        {
            let bits = bitwise_int_to_bin_vec(i, width);
            proof {
                lemma_bit_vector_is_multi_index(i as nat, width as nat);
                lemma_multi_index_bound(twos(width as nat), i as nat);
                lemma_flat_of_multi(twos(width as nat), i as nat);
            }
            tensor.set(bits.as_slice(), self.data[i]);
            i += 1;
        }
        assert(tensor.data@ =~= self.data@);
        assert forall|i: int| 0 <= i < self.data@.len() implies tensor@.at(
            #[trigger] bit_vector(i as nat, width as nat),
        ) == self.data@[i] by {
            lemma_bit_vector_is_multi_index(i as nat, width as nat);
            lemma_flat_of_multi(twos(width as nat), i as nat);
        }
        tensor
    }

    /// The sum of the diagonal entries, added up from zero in row order.
    pub fn diagonal(&self) -> (sum: Complex64)
        requires
            self.wf(),
        ensures
            sum == diagonal_sum(self.data@, self.size as nat, self.size as nat),
    {
        let size = self.size;
        let total = self.data.len();
        let mut sum = complex_from_ints(0, 0);
        let mut i: usize = 0;
        while i < size
            invariant
                size == self.size,
                total == self.data@.len(),
                total == size * size,
                i <= size,
                sum == diagonal_sum(self.data@, size as nat, i as nat),
            decreases size - i,
        {
            assert(i * size + i < size * size) by (nonlinear_arith)
                requires
                    0 <= i < size,
            ;
            assert(i * size >= 0) by (nonlinear_arith)
                requires
                    i >= 0,
                    size >= 0,
            ;
            sum = complex_add(sum, self.data[i * size + i]);
            i += 1;
        }
        sum
    }

    /// The diagonal sum less one: what the trace check measures.
    pub fn trace_gap(&self) -> (gap: Complex64)
        requires
            self.wf(),
        ensures
            gap == complex_difference(
                diagonal_sum(self.data@, self.size as nat, self.size as nat),
                one(),
            ),
    {
        complex_sub(self.diagonal(), complex_from_ints(1, 0))
    }

    /// Checks that the diagonal sums to one within `1e-10` and returns the
    /// value that stands for unity.  The check measures the modulus of the
    /// scalar that `trace_gap` returns; the platform computes that modulus,
    /// so it has no name here.  The check succeeds exactly when some
    /// scalar, the modulus that came back, is strictly below the tolerance;
    /// `trace_outcome` states the outcome for each modulus.
    pub fn trace(&self) -> (out: Result<i32, &'static str>)
        requires
            self.wf(),
        ensures
            match out {
                Ok(unity) => unity == 1,
                Err(message) => message@ == "The sum over the diagonal elements do not make 1"@,
            },
            exists|m: Complex64| (out is Ok) == #[trigger] real_part_below(m, trace_tolerance()),
    {
        let modulus = complex_norm(self.trace_gap());
        let out = trace_outcome(modulus);
        assert((out is Ok) == real_part_below(modulus, trace_tolerance()));
        out
    }

    /// Divides every entry by the diagonal sum if the trace check has
    /// succeeded, and leaves the matrix as it is if the check has failed.
    pub fn normalize_after(&mut self, checked: Result<i32, &'static str>) -> (out: Result<
        (),
        &'static str,
    >)
        requires
            old(self).wf(),
        ensures
            final(self).wf(),
            final(self).size == old(self).size,
            final(self).nqubits == old(self).nqubits,
            final(self).data@.len() == old(self).data@.len(),
            match checked {
                Ok(_) => {
                    &&& out is Ok
                    &&& forall|i: int|
                        0 <= i < old(self).data@.len() ==> final(self).data@[i]
                            == complex_quotient(
                            old(self).data@[i],
                            diagonal_sum(
                                old(self).data@,
                                old(self).size as nat,
                                old(self).size as nat,
                            ),
                        )
                },
                Err(complaint) => {
                    &&& out matches Err(message) && message@ == complaint@
                    &&& final(self).data@ == old(self).data@
                },
            },
    {
        match checked {
            Ok(_) => {
                let sum = self.diagonal();
                let total = self.data.len();
                let mut i: usize = 0;
                while i < total
                    invariant
                        total == self.data@.len(),
                        total == old(self).data@.len(),
                        self.size == old(self).size,
                        self.nqubits == old(self).nqubits,
                        sum == diagonal_sum(
                            old(self).data@,
                            old(self).size as nat,
                            old(self).size as nat,
                        ),
                        i <= total,
                        forall|j: int|
                            0 <= j < i ==> self.data@[j] == complex_quotient(
                                old(self).data@[j],
                                sum,
                            ),
                        forall|j: int| i <= j < total ==> self.data@[j] == old(self).data@[j],
                    decreases total - i,
                {
                    let divided = complex_div(self.data[i], sum);
                    self.data.set(i, divided);
                    i += 1;
                }
                Ok(())
            },
            Err(complaint) => Err(complaint),
        }
    }

    /// Divides every entry by the trace, the sum of the diagonal, provided
    /// the trace check succeeds; a matrix that fails the check is left as it
    /// is and the complaint of the check is returned.
    pub fn normalize(&mut self) -> (out: Result<(), &'static str>)
        requires
            old(self).wf(),
        ensures
            final(self).wf(),
            final(self).size == old(self).size,
            final(self).nqubits == old(self).nqubits,
            final(self).data@.len() == old(self).data@.len(),
            match out {
                Ok(_) => forall|i: int|
                    0 <= i < old(self).data@.len() ==> final(self).data@[i] == complex_quotient(
                        old(self).data@[i],
                        diagonal_sum(
                            old(self).data@,
                            old(self).size as nat,
                            old(self).size as nat,
                        ),
                    ),
                Err(message) => {
                    &&& final(self).data@ == old(self).data@
                    &&& message@ == "The sum over the diagonal elements do not make 1"@
                },
            },
            exists|m: Complex64| (out is Ok) == #[trigger] real_part_below(m, trace_tolerance()),
    {
        let checked = self.trace();
        let ghost m = choose|m: Complex64|
            (checked is Ok) == #[trigger] real_part_below(m, trace_tolerance());
        let out = self.normalize_after(checked);
        assert((out is Ok) == real_part_below(m, trace_tolerance()));
        out
    }

    /// The differences of the entries of two matrices with the same number
    /// of entries, entry by entry.
    pub fn differences(&self, other: &DensityMatrix) -> (out: Vec<Complex64>)
        requires
            self.data@.len() == other.data@.len(),
        ensures
            out@.len() == self.data@.len(),
            forall|i: int|
                0 <= i < out@.len() ==> out@[i] == complex_difference(
                    self.data@[i],
                    other.data@[i],
                ),
    {
        let total = self.data.len();
        let mut out: Vec<Complex64> = Vec::new();
        let mut i: usize = 0;
        while i < total
            invariant
                total == self.data@.len(),
                total == other.data@.len(),
                i <= total,
                out@.len() == i,
                forall|j: int|
                    0 <= j < i ==> out@[j] == complex_difference(self.data@[j], other.data@[j]),
            decreases total - i,
        {
            out.push(complex_sub(self.data[i], other.data[i]));
            i += 1;
        }
        out
    }

    /// Whether the two matrices have the same number of entries and agree
    /// entry by entry within `tolerance`.  The moduli of the differences
    /// that `differences` returns are measured; the platform computes them,
    /// so they have no name here.  For matrices with the same number of
    /// entries the result is that every one of some scalars, the moduli that
    /// came back, is strictly below the tolerance; `agreement_within` states
    /// the result for each list of moduli.
    pub fn equals(&self, other: DensityMatrix, tolerance: Complex64) -> (same: bool)
        ensures
            same ==> self.data@.len() == other.data@.len(),
            self.data@.len() == 0 && other.data@.len() == 0 ==> same,
            self.data@.len() == other.data@.len() ==> exists|moduli: Seq<Complex64>|
                #![trigger within_all(moduli, tolerance)]
                moduli.len() == self.data@.len() && same == within_all(moduli, tolerance),
    {
        let lengths_match = self.data.len() == other.data.len();
        let mut moduli: Vec<Complex64> = Vec::new();
        if lengths_match {
            let gaps = self.differences(&other);
            let mut i: usize = 0;
            while i < gaps.len()
                invariant
                    i <= gaps.len(),
                    moduli@.len() == i,
                decreases gaps.len() - i,
            {
                moduli.push(complex_norm(gaps[i]));
                i += 1;
            }
        }
        let same = agreement_within(lengths_match, moduli.as_slice(), tolerance);
        assert(lengths_match ==> moduli@.len() == self.data@.len() && same == within_all(
            moduli@,
            tolerance,
        ));
        same
    }

    /// Applies a one-qubit gate to the qubit `index`.
    pub fn evolve_single(&mut self, op: &Operator, index: usize)
        requires
            old(self).wf(),
            op.wf(),
            op.nqubits == 1,
            index < old(self).nqubits,
        ensures
            final(self).wf(),
            final(self).nqubits == old(self).nqubits,
            final(self).data@ == evolved(
                old(self).data@,
                old(self).nqubits as nat,
                op.data@,
                seq![index],
            ),
            forall|r: int, c: int|
                0 <= r < old(self).size && 0 <= c < old(self).size ==> #[trigger] final(self).entry(
                    r,
                    c,
                ) == conjugated_entry(
                    old(self).data@,
                    old(self).nqubits as nat,
                    op.data@,
                    seq![index],
                    bit_vector(r as nat, old(self).nqubits as nat),
                    bit_vector(c as nat, old(self).nqubits as nat),
                ),
    {
        let indices = vec![index];
        assert(indices@ =~= seq![index]);
        self.evolve(op, indices.as_slice());
    }

    /// Applies a gate to the qubits `indices`: the matrix becomes
    /// `U ρ U†`, with `U` acting on the listed qubits in listed order.
    pub fn evolve(&mut self, op: &Operator, indices: &[usize])
        requires
            old(self).wf(),
            op.wf(),
            op.nqubits == indices@.len(),
            valid_axes(old(self).nqubits as nat, indices@),
        ensures
            final(self).wf(),
            final(self).nqubits == old(self).nqubits,
            final(self).data@ == evolved(
                old(self).data@,
                old(self).nqubits as nat,
                op.data@,
                indices@,
            ),
            forall|r: int, c: int|
                0 <= r < old(self).size && 0 <= c < old(self).size ==> #[trigger] final(self).entry(
                    r,
                    c,
                ) == conjugated_entry(
                    old(self).data@,
                    old(self).nqubits as nat,
                    op.data@,
                    indices@,
                    bit_vector(r as nat, old(self).nqubits as nat),
                    bit_vector(c as nat, old(self).nqubits as nat),
                ),
    {
        let ghost before = self.data@;
        let ghost n = self.nqubits as nat;
        let total = self.data.len();
        proof {
            lemma_pow2_adds(n, n);
            lemma_pow2_fits(2 * n);
        }
        let state = self.to_tensor();
        let restored = apply_operator(&state, op, self.nqubits, indices);
        *self = tensor_to_dm(restored);
        proof {
            assert forall|r: int, c: int|
                0 <= r < pow2(n) && 0 <= c < pow2(n) implies #[trigger] self.entry(r, c)
                == conjugated_entry(
                before,
                n,
                op.data@,
                indices@,
                bit_vector(r as nat, n),
                bit_vector(c as nat, n),
            ) by {
                lemma_evolved_matrix_entry(before, n, op.data@, indices@, r as nat, c as nat);
            }
        }
    }
}

/// The tensor of a state of `nqubits` qubits after `op` has acted on the
/// qubits `indices`.
fn apply_operator(state: &Tensor, op: &Operator, nqubits: usize, indices: &[usize]) -> (restored:
    Tensor)
    requires
        state.wf(),
        state.shape@ == twos(2 * nqubits as nat),
        op.wf(),
        op.nqubits == indices@.len(),
        valid_axes(nqubits as nat, indices@),
    ensures
        restored.wf(),
        restored.shape@ == twos(2 * nqubits as nat),
        restored.data@ == evolved(state.data@, nqubits as nat, op.data@, indices@),
{
    let total = state.data.len();
    proof {
        lemma_twos_size(2 * nqubits as nat);
        lemma_pow2_fits(2 * nqubits as nat);
        lemma_free_axes_len(nqubits as nat, indices@);
    }
    let u = op.to_tensor();
    let u_dagger = op.transconj().to_tensor();
    let rows = contract_rows(&u, state, nqubits, indices);
    let both = contract_columns(&rows, &u_dagger, nqubits, indices);
    let restored = restore_order(&both, nqubits, indices);
    proof {
        let k = indices@.len();
        let state_view = TensorView { shape: twos(2 * nqubits as nat), data: state.data@ };
        let u_view = TensorView { shape: twos(2 * k), data: op.data@ };
        let u_dagger_view = TensorView { shape: twos(2 * k), data: adjoint(op.data@, pow2(k)) };
        assert(state@ == state_view);
        assert(u@ == u_view);
        assert(u_dagger@ == u_dagger_view);
        assert(rows@ == contracted(u_view, state_view, counted(k, k), indices@));
        assert(both@ == contracted(
            rows@,
            u_dagger_view,
            shifted(indices@, nqubits as nat),
            counted(0, k),
        ));
    }
    restored
}

/// Contracts the input axes of the operator `u` against the row axes of the
/// target qubits.
fn contract_rows(u: &Tensor, state: &Tensor, nqubits: usize, indices: &[usize]) -> (rows: Tensor)
    requires
        u.wf(),
        state.wf(),
        2 * nqubits < 64,
        valid_axes(nqubits as nat, indices@),
        indices@.len() <= nqubits,
        u.shape@ == twos(2 * indices@.len()),
        state.shape@ == twos(2 * nqubits as nat),
    ensures
        rows.wf(),
        rows.shape@ == twos(2 * nqubits as nat),
        rows@ == contracted(
            u@,
            state@,
            counted(indices@.len(), indices@.len()),
            indices@,
        ),
{
    let k = indices.len();
    let total = state.data.len();
    let inputs = count_axes(k, k);
    proof {
        lemma_evolve_rows(nqubits as nat, indices@);
        assert(contractible(u@, state@, inputs@, indices@));
        assert(contracted_shape(u@, state@, inputs@, indices@) == twos(2 * nqubits as nat));
    }
    match u.tensordot(state, inputs.as_slice(), indices) {
        Ok(rows) => rows,
        Err(_) => unreached(),
    }
}

/// Contracts the column axes of the target qubits against the leading axes
/// of the operator's conjugate transpose `u_dagger`.
fn contract_columns(rows: &Tensor, u_dagger: &Tensor, nqubits: usize, indices: &[usize]) -> (both:
    Tensor)
    requires
        rows.wf(),
        u_dagger.wf(),
        2 * nqubits < 64,
        valid_axes(nqubits as nat, indices@),
        indices@.len() <= nqubits,
        u_dagger.shape@ == twos(2 * indices@.len()),
        rows.shape@ == twos(2 * nqubits as nat),
    ensures
        both.wf(),
        both.shape@ == twos(2 * nqubits as nat),
        both@ == contracted(
            rows@,
            u_dagger@,
            shifted(indices@, nqubits as nat),
            counted(0, indices@.len()),
        ),
{
    let k = indices.len();
    let total = rows.data.len();
    let leading = count_axes(0, k);
    proof {
        assert forall|i: int| 0 <= i < indices@.len() implies #[trigger] indices@[i] + nqubits
            <= usize::MAX by {
            assert(indices@[i] < nqubits);
        }
    }
    let columns = shift_axes(indices, nqubits);
    proof {
        lemma_evolve_columns(nqubits as nat, indices@);
        assert(contractible(rows@, u_dagger@, columns@, leading@));
        assert(contracted_shape(rows@, u_dagger@, columns@, leading@) == twos(
            2 * nqubits as nat,
        ));
    }
    match rows.tensordot(u_dagger, columns.as_slice(), leading.as_slice()) {
        Ok(both) => both,
        Err(_) => unreached(),
    }
}

/// Puts the axes that the two contractions left at the front and at the
/// back where they belong.
fn restore_order(both: &Tensor, nqubits: usize, indices: &[usize]) -> (restored: Tensor)
    requires
        both.wf(),
        2 * nqubits < 64,
        valid_axes(nqubits as nat, indices@),
        indices@.len() <= nqubits,
        both.shape@ == twos(2 * nqubits as nat),
    ensures
        restored.wf(),
        restored.shape@ == twos(2 * nqubits as nat),
        restored@ == moved(
            both@,
            normal_axes(2 * nqubits as nat, restore_src(indices@.len())),
            normal_axes(2 * nqubits as nat, restore_dst(nqubits as nat, indices@)),
        ),
{
    let ghost width = 2 * nqubits as nat;
    let ghost from = normal_axes(width, restore_src(indices@.len()));
    let ghost to = normal_axes(width, restore_dst(nqubits as nat, indices@));
    let (src, dst) = restore_axes(nqubits, indices);
    proof {
        lemma_evolve_restore(nqubits as nat, indices@);
        lemma_moved_axes(width, from, to);
        lemma_select_twos(width, moved_order(width, from, to));
        assert(movable(both@, src@, dst@));
    }
    match both.moveaxis(src.as_slice(), dst.as_slice()) {
        Ok(restored) => restored,
        Err(_) => unreached(),
    }
}

/// The first contraction of a gate application is defined, and its result
/// has `2 · nqubits` axes of extent two.
pub proof fn lemma_evolve_rows(nqubits: nat, indices: Seq<usize>)
    requires
        2 * nqubits < 64,
        valid_axes(nqubits, indices),
        indices.len() <= nqubits,
    ensures
        valid_axes(2 * indices.len(), counted(indices.len(), indices.len())),
        valid_axes(2 * nqubits, indices),
        select(twos(2 * indices.len()), counted(indices.len(), indices.len())) == select(
            twos(2 * nqubits),
            indices,
        ),
        select(
            twos(2 * indices.len()),
            free_axes(2 * indices.len(), counted(indices.len(), indices.len())),
        ) + select(twos(2 * nqubits), free_axes(2 * nqubits, indices)) == twos(2 * nqubits),
{
    let k = indices.len();
    let inputs = counted(k, k);
    assert(valid_axes(2 * nqubits, indices)) by {
        assert forall|i: int| 0 <= i < k implies #[trigger] indices[i] < 2 * nqubits by {
            assert(indices[i] < nqubits);
        }
    }
    lemma_select_twos(2 * k, inputs);
    lemma_select_twos(2 * nqubits, indices);
    lemma_free_axes(2 * k, inputs);
    lemma_free_axes(2 * nqubits, indices);
    lemma_free_axes_len(2 * k, inputs);
    lemma_free_axes_len(2 * nqubits, indices);
    lemma_select_twos(2 * k, free_axes(2 * k, inputs));
    lemma_select_twos(2 * nqubits, free_axes(2 * nqubits, indices));
    assert(twos(k) + twos((2 * nqubits - k) as nat) =~= twos(2 * nqubits));
}

/// The second contraction of a gate application is defined, and its result
/// has `2 · nqubits` axes of extent two.
pub proof fn lemma_evolve_columns(nqubits: nat, indices: Seq<usize>)
    requires
        2 * nqubits < 64,
        valid_axes(nqubits, indices),
        indices.len() <= nqubits,
    ensures
        valid_axes(2 * nqubits, shifted(indices, nqubits)),
        valid_axes(2 * indices.len(), counted(0, indices.len())),
        select(twos(2 * nqubits), shifted(indices, nqubits)) == select(
            twos(2 * indices.len()),
            counted(0, indices.len()),
        ),
        select(twos(2 * nqubits), free_axes(2 * nqubits, shifted(indices, nqubits))) + select(
            twos(2 * indices.len()),
            free_axes(2 * indices.len(), counted(0, indices.len())),
        ) == twos(2 * nqubits),
{
    let k = indices.len();
    let columns = shifted(indices, nqubits);
    let leading = counted(0, k);
    assert(valid_axes(2 * nqubits, columns)) by {
        assert forall|i: int| 0 <= i < k implies #[trigger] columns[i] < 2 * nqubits by {
            assert(indices[i] < nqubits);
        }
        assert forall|i: int, j: int| 0 <= i < j < k implies columns[i] != columns[j] by {
            assert(indices[i] < nqubits);
            assert(indices[j] < nqubits);
            assert(indices[i] != indices[j]);
        }
    }
    lemma_select_twos(2 * nqubits, columns);
    lemma_select_twos(2 * k, leading);
    lemma_free_axes(2 * nqubits, columns);
    lemma_free_axes(2 * k, leading);
    lemma_free_axes_len(2 * nqubits, columns);
    lemma_free_axes_len(2 * k, leading);
    lemma_select_twos(2 * nqubits, free_axes(2 * nqubits, columns));
    lemma_select_twos(2 * k, free_axes(2 * k, leading));
    assert(twos((2 * nqubits - k) as nat) + twos(k) =~= twos(2 * nqubits));
}

/// The positions that put the axes back after a gate application name
/// distinct axes.
pub proof fn lemma_evolve_restore(nqubits: nat, indices: Seq<usize>)
    requires
        2 * nqubits < 64,
        valid_axes(nqubits, indices),
        indices.len() <= nqubits,
    ensures
        positions_in_range(2 * nqubits, restore_src(indices.len())),
        positions_in_range(2 * nqubits, restore_dst(nqubits, indices)),
        valid_axes(2 * nqubits, normal_axes(2 * nqubits, restore_src(indices.len()))),
        valid_axes(2 * nqubits, normal_axes(2 * nqubits, restore_dst(nqubits, indices))),
{
    let k = indices.len();
    let width = 2 * nqubits;
    let src = restore_src(k);
    let dst = restore_dst(nqubits, indices);
    let from = normal_axes(width, src);
    let to = normal_axes(width, dst);
    assert forall|i: int| 0 <= i < 2 * k implies position_in_range(width, #[trigger] src[i]) by {}
    assert forall|i: int| 0 <= i < 2 * k implies position_in_range(width, #[trigger] dst[i]) by {
        if i < k {
            assert(indices[i] < nqubits);
        } else {
            assert(indices[2 * k - 1 - i] < nqubits);
        }
    }
    assert forall|i: int| 0 <= i < 2 * k implies #[trigger] from[i] < width && from[i] == (if i
        < k {
        i
    } else {
        width + k - 1 - i
    }) by {
        assert(from[i] == normal_axis(width, src[i]));
    }
    assert forall|i: int| 0 <= i < 2 * k implies #[trigger] to[i] < width && to[i] == (if i < k {
        indices[i] as int
    } else {
        indices[2 * k - 1 - i] + nqubits
    }) by {
        assert(to[i] == normal_axis(width, dst[i]));
        if i < k {
            assert(indices[i] < nqubits);
        } else {
            assert(indices[2 * k - 1 - i] < nqubits);
        }
    }
    assert forall|i: int, j: int| 0 <= i < j < 2 * k implies from[i] != from[j] by {
        assert(from[i] < width);
        assert(from[j] < width);
    }
    assert forall|i: int, j: int| 0 <= i < j < 2 * k implies to[i] != to[j] by {
        assert(to[i] < width);
        assert(to[j] < width);
        let a = if i < k { i } else { 2 * k - 1 - i };
        let b = if j < k { j } else { 2 * k - 1 - j };
        assert(indices[a] < nqubits);
        assert(indices[b] < nqubits);
        if a < b {
            assert(indices[a] != indices[b]);
        }
        if b < a {
            assert(indices[b] != indices[a]);
        }
    }
}

} // verus!
