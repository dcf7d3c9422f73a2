//! What applying an operator computes, entry by entry: the matrix
//! `U ρ U†`, with `U` acting on the listed qubits and the identity on the
//! others.

use vstd::prelude::*;
use vstd::arithmetic::power2::pow2;
use num_complex::Complex64;
use crate::axes::{
    free_axes, join, lemma_free_axes, lemma_free_axes_len, lemma_free_axes_unique,
    lemma_join_in_bounds, lemma_join_unique, lemma_moved_axes, lemma_select_of_join,
    moved_order, moved_places, select, valid_axes,
};
use crate::density_matrix::{
    counted, evolved, lemma_evolve_columns, lemma_evolve_restore, lemma_evolve_rows,
    restore_dst, restore_src, shifted,
};
use crate::index::{
    flat_index, in_bounds, lemma_flat_index_bound, lemma_flat_index_concat, lemma_flat_of_multi,
    lemma_multi_index_bound, lemma_multi_of_flat, multi_index,
};
use crate::operators::adjoint;
use crate::scalar::{complex_product, complex_sum, zero};
use crate::tensor::{
    contracted, contraction_sum, contraction_term, lemma_contracted_at, moved, normal_axes,
    normal_axis, TensorView,
};
use crate::tools::{
    bit_vector, lemma_bit_vector_is_multi_index, lemma_pow2_fits, lemma_select_twos,
    lemma_twos_size, twos,
};

verus! {

/// `bits` with the components at `indices` replaced by `values`.
pub open spec fn put(bits: Seq<usize>, indices: Seq<usize>, values: Seq<usize>) -> Seq<usize> {
    join(bits.len(), indices, values, select(bits, free_axes(bits.len(), indices)))
}

/// A flat sequence of `4^k` entries as the tensor of an operator on `k`
/// qubits: the output bits first, then the input bits.
pub open spec fn operator_view(gate: Seq<Complex64>, k: nat) -> TensorView {
    TensorView { shape: twos(2 * k), data: gate }
}

/// A flat sequence of `4^nqubits` entries as the tensor of a state: the row
/// bits first, then the column bits.
pub open spec fn state_view(rho: Seq<Complex64>, nqubits: nat) -> TensorView {
    TensorView { shape: twos(2 * nqubits), data: rho }
}

/// One product of `U ρ`: the operator's entry from the input bits numbered
/// `step` to the bits of `row` at the listed qubits, times the entry of
/// `rho` in the row that has those input bits at the listed qubits.
pub open spec fn row_term(
    rho: Seq<Complex64>,
    nqubits: nat,
    gate: Seq<Complex64>,
    indices: Seq<usize>,
    row: Seq<usize>,
    col: Seq<usize>,
    step: nat,
) -> Complex64 {
    let k = indices.len();
    let inner = multi_index(twos(k), step);
    complex_product(
        operator_view(gate, k).at(select(row, indices) + inner),
        state_view(rho, nqubits).at(put(row, indices, inner) + col),
    )
}

/// The entry of `U ρ` at `row` and `col` after the first `steps` products,
/// added up from zero in step order.
pub open spec fn row_sum(
    rho: Seq<Complex64>,
    nqubits: nat,
    gate: Seq<Complex64>,
    indices: Seq<usize>,
    row: Seq<usize>,
    col: Seq<usize>,
    steps: nat,
) -> Complex64
    decreases steps,
{
    if steps == 0 {
        zero()
    } else {
        complex_sum(
            row_sum(rho, nqubits, gate, indices, row, col, (steps - 1) as nat),
            row_term(rho, nqubits, gate, indices, row, col, (steps - 1) as nat),
        )
    }
}

/// One product of `(U ρ) U†`: the entry of `U ρ` in the column that has the
/// bits numbered `step` at the listed qubits, times the entry of `U†` from
/// the bits of `col` at the listed qubits to those bits.
pub open spec fn column_term(
    rho: Seq<Complex64>,
    nqubits: nat,
    gate: Seq<Complex64>,
    indices: Seq<usize>,
    row: Seq<usize>,
    col: Seq<usize>,
    step: nat,
) -> Complex64 {
    let k = indices.len();
    let inner = multi_index(twos(k), step);
    complex_product(
        row_sum(rho, nqubits, gate, indices, row, put(col, indices, inner), pow2(k)),
        operator_view(adjoint(gate, pow2(k)), k).at(inner + select(col, indices)),
    )
}

/// The entry of `U ρ U†` at `row` and `col` after the first `steps`
/// products, added up from zero in step order.
pub open spec fn column_sum(
    rho: Seq<Complex64>,
    nqubits: nat,
    gate: Seq<Complex64>,
    indices: Seq<usize>,
    row: Seq<usize>,
    col: Seq<usize>,
    steps: nat,
) -> Complex64
    decreases steps,
{
    if steps == 0 {
        zero()
    } else {
        complex_sum(
            column_sum(rho, nqubits, gate, indices, row, col, (steps - 1) as nat),
            column_term(rho, nqubits, gate, indices, row, col, (steps - 1) as nat),
        )
    }
}

/// The entry of `U ρ U†` at the row with bits `row` and the column with
/// bits `col`.
pub open spec fn conjugated_entry(
    rho: Seq<Complex64>,
    nqubits: nat,
    gate: Seq<Complex64>,
    indices: Seq<usize>,
    row: Seq<usize>,
    col: Seq<usize>,
) -> Complex64 {
    column_sum(rho, nqubits, gate, indices, row, col, pow2(indices.len()))
}

/// What the inputs of an evolution satisfy: the matrix holds `4^nqubits`
/// entries, a number that fits the machine word, the operator holds `4^k`
/// entries for the `k` listed qubits, and those are distinct qubits of the
/// register.
pub open spec fn applicable(
    rho: Seq<Complex64>,
    nqubits: nat,
    gate: Seq<Complex64>,
    indices: Seq<usize>,
) -> bool {
    &&& rho.len() == pow2(2 * nqubits)
    &&& rho.len() <= usize::MAX
    &&& gate.len() == pow2(2 * indices.len())
    &&& valid_axes(nqubits, indices)
}

/// The same, with the bound on the number of qubits that follows from it.
spec fn bounded(
    rho: Seq<Complex64>,
    nqubits: nat,
    gate: Seq<Complex64>,
    indices: Seq<usize>,
) -> bool {
    &&& 2 * nqubits < 64
    &&& applicable(rho, nqubits, gate, indices)
}

/// The complement of `counted(start, count)` within `start + count + more`
/// axes when the counted block stands first or last.
proof fn lemma_block_complements(k: nat)
    requires
        2 * k <= usize::MAX,
    ensures
        free_axes(2 * k, counted(k, k)) == counted(0, k),
        free_axes(2 * k, counted(0, k)) == counted(k, k),
{
    let upper = counted(k, k);
    let lower = counted(0, k);
    assert forall|i: int| 0 <= i < k implies #[trigger] lower[i] < 2 * k && !upper.contains(
        lower[i],
    ) by {
        if upper.contains(lower[i]) {
            let j = choose|j: int| 0 <= j < upper.len() && upper[j] == lower[i];
            assert(false);
        }
    }
    assert forall|q: usize| q < 2 * k && !upper.contains(q) implies lower.contains(q) by {
        if q >= k {
            assert(upper[q - k] == q);
            assert(false);
        }
        assert(lower[q as int] == q);
    }
    lemma_free_axes_unique(2 * k, upper, lower);
    assert forall|i: int| 0 <= i < k implies #[trigger] upper[i] < 2 * k && !lower.contains(
        upper[i],
    ) by {
        if lower.contains(upper[i]) {
            let j = choose|j: int| 0 <= j < lower.len() && lower[j] == upper[i];
            assert(false);
        }
    }
    assert forall|q: usize| q < 2 * k && !lower.contains(q) implies upper.contains(q) by {
        if q < k {
            assert(lower[q as int] == q);
            assert(false);
        }
        assert(upper[q - k] == q);
    }
    lemma_free_axes_unique(2 * k, lower, upper);
}

/// The complements, among the `2 · nqubits` axes of a state, of the row
/// axes and of the column axes of the listed qubits.
proof fn lemma_qubit_complements(nqubits: nat, indices: Seq<usize>)
    requires
        2 * nqubits <= usize::MAX,
        valid_axes(nqubits, indices),
    ensures
        free_axes(2 * nqubits, indices) == free_axes(nqubits, indices) + counted(
            nqubits,
            nqubits,
        ),
        free_axes(2 * nqubits, shifted(indices, nqubits)) == counted(0, nqubits) + shifted(
            free_axes(nqubits, indices),
            nqubits,
        ),
{
    let n = nqubits;
    let free = free_axes(n, indices);
    lemma_free_axes(n, indices);
    let rows_free = free + counted(n, n);
    assert forall|i: int, j: int| 0 <= i < j < rows_free.len() implies rows_free[i]
        < rows_free[j] by {
        if i < free.len() {
            assert(free[i] < n);
        }
        if j < free.len() {
            assert(free[i] < free[j]);
        }
    }
    assert forall|i: int| 0 <= i < rows_free.len() implies #[trigger] rows_free[i] < 2 * n
        && !indices.contains(rows_free[i]) by {
        if i < free.len() {
            assert(free[i] < n);
            assert(!indices.contains(free[i]));
        } else {
            if indices.contains(rows_free[i]) {
                let j = choose|j: int| 0 <= j < indices.len() && indices[j] == rows_free[i];
                assert(indices[j] < n);
            }
        }
    }
    assert forall|q: usize| q < 2 * n && !indices.contains(q) implies rows_free.contains(q) by {
        if q < n {
            assert(free.contains(q));
            let j = choose|j: int| 0 <= j < free.len() && free[j] == q;
            assert(rows_free[j] == q);
        } else {
            assert(rows_free[free.len() + (q - n)] == q);
        }
    }
    lemma_free_axes_unique(2 * n, indices, rows_free);

    let columns = shifted(indices, n);
    let columns_free = counted(0, n) + shifted(free, n);
    assert forall|i: int, j: int| 0 <= i < j < columns_free.len() implies columns_free[i]
        < columns_free[j] by {
        if i >= n {
            assert(free[i - n] < free[j - n]);
        } else if j >= n {
            assert(free[j - n] < n);
        }
    }
    assert forall|i: int| 0 <= i < columns_free.len() implies #[trigger] columns_free[i] < 2 * n
        && !columns.contains(columns_free[i]) by {
        if i >= n {
            assert(free[i - n] < n);
            assert(!indices.contains(free[i - n]));
        }
        if columns.contains(columns_free[i]) {
            let j = choose|j: int| 0 <= j < columns.len() && columns[j] == columns_free[i];
            assert(indices[j] < n);
            if i >= n {
                assert(indices[j] == free[i - n]);
                assert(indices.contains(free[i - n]));
            }
        }
    }
    assert forall|q: usize| q < 2 * n && !columns.contains(q) implies columns_free.contains(q) by {
        if q < n {
            assert(columns_free[q as int] == q);
        } else {
            let low = (q - n) as usize;
            if indices.contains(low) {
                let j = choose|j: int| 0 <= j < indices.len() && indices[j] == low;
                assert(columns[j] == q);
            }
            assert(free.contains(low));
            let j = choose|j: int| 0 <= j < free.len() && free[j] == low;
            assert(columns_free[n + j] == q);
        }
    }
    lemma_free_axes_unique(2 * n, columns, columns_free);
}

/// Replacing bits of an in-bounds bit list by bits keeps it in bounds.
proof fn lemma_put_in_bounds(nqubits: nat, indices: Seq<usize>, bits: Seq<usize>, values: Seq<usize>)
    requires
        nqubits < 64,
        valid_axes(nqubits, indices),
        in_bounds(twos(nqubits), bits),
        in_bounds(twos(indices.len()), values),
    ensures
        in_bounds(twos(nqubits), put(bits, indices, values)),
        select(put(bits, indices, values), indices) =~= values,
        select(put(bits, indices, values), free_axes(nqubits, indices)) =~= select(
            bits,
            free_axes(nqubits, indices),
        ),
{
    let free = free_axes(nqubits, indices);
    lemma_free_axes(nqubits, indices);
    lemma_select_twos(nqubits, indices);
    lemma_select_twos(nqubits, free);
    assert(in_bounds(select(twos(nqubits), free), select(bits, free))) by {
        assert forall|j: int| 0 <= j < free.len() implies #[trigger] select(bits, free)[j]
            < select(twos(nqubits), free)[j] by {
            assert(free[j] < nqubits);
            assert(bits[free[j] as int] < twos(nqubits)[free[j] as int]);
        }
    }
    lemma_join_in_bounds(twos(nqubits), indices, values, select(bits, free));
    lemma_select_of_join(nqubits, indices, values, select(bits, free));
}

/// Joining input bits at the trailing axes of an operator with output bits
/// at its leading axes gives the output bits followed by the input bits.
proof fn lemma_join_trailing(k: nat, head: Seq<usize>, inner: Seq<usize>)
    requires
        2 * k <= usize::MAX,
        head.len() == k,
        inner.len() == k,
    ensures
        free_axes(2 * k, counted(k, k)).len() == k,
        join(2 * k, counted(k, k), inner, head) == head + inner,
{
    let full = head + inner;
    lemma_block_complements(k);
    assert forall|j: int| 0 <= j < k implies full[#[trigger] counted(k, k)[j] as int]
        == inner[j] by {}
    assert forall|j: int| 0 <= j < k implies full[#[trigger] counted(0, k)[j] as int]
        == head[j] by {}
    lemma_join_unique(2 * k, counted(k, k), inner, head, full);
}

/// Joining bits at the leading axes of an operator with bits at its
/// trailing axes gives the first followed by the second.
proof fn lemma_join_leading(k: nat, inner: Seq<usize>, tail: Seq<usize>)
    requires
        2 * k <= usize::MAX,
        inner.len() == k,
        tail.len() == k,
    ensures
        free_axes(2 * k, counted(0, k)).len() == k,
        join(2 * k, counted(0, k), inner, tail) == inner + tail,
{
    let full = inner + tail;
    lemma_block_complements(k);
    assert forall|j: int| 0 <= j < k implies full[#[trigger] counted(0, k)[j] as int]
        == inner[j] by {}
    assert forall|j: int| 0 <= j < k implies full[#[trigger] counted(k, k)[j] as int]
        == tail[j] by {}
    lemma_join_unique(2 * k, counted(0, k), inner, tail, full);
}

/// Joining bits at the row axes of the listed qubits with the other row
/// bits and a column gives the row with the bits put in, then the column.
proof fn lemma_join_rows(
    nqubits: nat,
    indices: Seq<usize>,
    row: Seq<usize>,
    col: Seq<usize>,
    inner: Seq<usize>,
)
    requires
        nqubits < 32,
        valid_axes(nqubits, indices),
        in_bounds(twos(nqubits), row),
        in_bounds(twos(nqubits), col),
        in_bounds(twos(indices.len()), inner),
    ensures
        join(
            2 * nqubits,
            indices,
            inner,
            select(row, free_axes(nqubits, indices)) + col,
        ) == put(row, indices, inner) + col,
{
    let n = nqubits;
    let k = indices.len();
    let free = free_axes(n, indices);
    let rest = select(row, free) + col;
    let full = put(row, indices, inner) + col;
    lemma_free_axes_len(n, indices);
    lemma_qubit_complements(n, indices);
    lemma_put_in_bounds(n, indices, row, inner);
    assert(valid_axes(2 * n, indices)) by {
        assert forall|i: int| 0 <= i < k implies #[trigger] indices[i] < 2 * n by {
            assert(indices[i] < n);
        }
    }
    assert forall|j: int| 0 <= j < k implies full[#[trigger] indices[j] as int] == inner[j] by {
        assert(indices[j] < n);
        assert(select(put(row, indices, inner), indices)[j] == inner[j]);
    }
    let wide_free = free_axes(2 * n, indices);
    assert forall|j: int| 0 <= j < rest.len() implies full[#[trigger] wide_free[j] as int]
        == rest[j] by {
        if j < free.len() {
            lemma_free_axes(n, indices);
            assert(free[j] < n);
            assert(select(put(row, indices, inner), free)[j] == select(row, free)[j]);
        }
    }
    lemma_join_unique(2 * n, indices, inner, rest, full);
}

/// Joining bits at the column axes of the listed qubits with `nqubits`
/// leading bits and the other column bits gives the leading bits, then the
/// column with the bits put in.
proof fn lemma_join_columns(
    nqubits: nat,
    indices: Seq<usize>,
    first: Seq<usize>,
    col: Seq<usize>,
    inner: Seq<usize>,
)
    requires
        nqubits < 32,
        valid_axes(nqubits, indices),
        first.len() == nqubits,
        in_bounds(twos(nqubits), col),
        in_bounds(twos(indices.len()), inner),
    ensures
        free_axes(2 * nqubits, shifted(indices, nqubits)).len() == 2 * nqubits - indices.len(),
        join(
            2 * nqubits,
            shifted(indices, nqubits),
            inner,
            first + select(col, free_axes(nqubits, indices)),
        ) == first + put(col, indices, inner),
{
    let n = nqubits;
    let k = indices.len();
    let free = free_axes(n, indices);
    let columns = shifted(indices, n);
    let rest = first + select(col, free);
    let full = first + put(col, indices, inner);
    lemma_free_axes_len(n, indices);
    lemma_qubit_complements(n, indices);
    lemma_put_in_bounds(n, indices, col, inner);
    lemma_evolve_columns(n, indices);
    assert forall|j: int| 0 <= j < k implies full[#[trigger] columns[j] as int] == inner[j] by {
        assert(indices[j] < n);
        assert(select(put(col, indices, inner), indices)[j] == inner[j]);
    }
    let wide_free = free_axes(2 * n, columns);
    assert forall|j: int| 0 <= j < rest.len() implies full[#[trigger] wide_free[j] as int]
        == rest[j] by {
        if j >= n {
            lemma_free_axes(n, indices);
            assert(free[j - n] < n);
            assert(select(put(col, indices, inner), free)[j - n] == select(col, free)[j - n]);
        }
    }
    lemma_join_unique(2 * n, columns, inner, rest, full);
}

/// One product of the first contraction is one product of `U ρ`.
proof fn lemma_rows_term(
    rho: Seq<Complex64>,
    nqubits: nat,
    gate: Seq<Complex64>,
    indices: Seq<usize>,
    row: Seq<usize>,
    col: Seq<usize>,
    step: nat,
)
    requires
        bounded(rho, nqubits, gate, indices),
        in_bounds(twos(nqubits), row),
        in_bounds(twos(nqubits), col),
        step < pow2(indices.len()),
    ensures
        contraction_term(
            operator_view(gate, indices.len()),
            state_view(rho, nqubits),
            counted(indices.len(), indices.len()),
            indices,
            select(row, indices) + select(row, free_axes(nqubits, indices)) + col,
            step,
        ) == row_term(rho, nqubits, gate, indices, row, col, step),
{
    let n = nqubits;
    let k = indices.len();
    let free = free_axes(n, indices);
    let inputs = counted(k, k);
    let at = select(row, indices) + select(row, free) + col;
    lemma_free_axes_len(n, indices);
    lemma_select_twos(2 * k, inputs);
    lemma_twos_size(k);
    let inner = multi_index(twos(k), step);
    lemma_multi_index_bound(twos(k), step);
    assert(select(twos(2 * k), inputs) == twos(k));
    assert(at.take(k as int) =~= select(row, indices));
    assert(at.skip(k as int) =~= select(row, free) + col);
    lemma_join_trailing(k, select(row, indices), inner);
    lemma_join_rows(n, indices, row, col, inner);
}

/// The first contraction adds up the products of `U ρ`.
proof fn lemma_rows_sum(
    rho: Seq<Complex64>,
    nqubits: nat,
    gate: Seq<Complex64>,
    indices: Seq<usize>,
    row: Seq<usize>,
    col: Seq<usize>,
    steps: nat,
)
    requires
        bounded(rho, nqubits, gate, indices),
        in_bounds(twos(nqubits), row),
        in_bounds(twos(nqubits), col),
        steps <= pow2(indices.len()),
    ensures
        contraction_sum(
            operator_view(gate, indices.len()),
            state_view(rho, nqubits),
            counted(indices.len(), indices.len()),
            indices,
            select(row, indices) + select(row, free_axes(nqubits, indices)) + col,
            steps,
        ) == row_sum(rho, nqubits, gate, indices, row, col, steps),
    decreases steps,
{
    if steps > 0 {
        lemma_rows_sum(rho, nqubits, gate, indices, row, col, (steps - 1) as nat);
        lemma_rows_term(rho, nqubits, gate, indices, row, col, (steps - 1) as nat);
    }
}

/// The bits that the two contractions and the reordering read for the
/// entry at `row` and `col`: the row bits at the listed qubits, the other
/// row bits, the other column bits, the column bits at the listed qubits.
pub open spec fn gathered(
    nqubits: nat,
    indices: Seq<usize>,
    row: Seq<usize>,
    col: Seq<usize>,
) -> Seq<usize> {
    select(row, indices) + select(row, free_axes(nqubits, indices)) + select(
        col,
        free_axes(nqubits, indices),
    ) + select(col, indices)
}

/// The bits of a row or column at some qubits are bits.
proof fn lemma_select_bits(nqubits: nat, axes: Seq<usize>, bits: Seq<usize>)
    requires
        in_bounds(twos(nqubits), bits),
        forall|i: int| 0 <= i < axes.len() ==> #[trigger] axes[i] < nqubits,
    ensures
        in_bounds(twos(axes.len()), select(bits, axes)),
{
    assert forall|j: int| 0 <= j < axes.len() implies #[trigger] select(bits, axes)[j] < twos(
        axes.len(),
    )[j] by {
        assert(axes[j] < nqubits);
        assert(bits[axes[j] as int] < twos(nqubits)[axes[j] as int]);
    }
}

/// Lists of bits, one after the other, are a list of bits.
proof fn lemma_chain_bits(a: Seq<usize>, b: Seq<usize>)
    requires
        in_bounds(twos(a.len()), a),
        in_bounds(twos(b.len()), b),
    ensures
        in_bounds(twos(a.len() + b.len()), a + b),
{
    assert forall|j: int| 0 <= j < a.len() + b.len() implies #[trigger] (a + b)[j] < twos(
        a.len() + b.len(),
    )[j] by {
        if j < a.len() {
            assert(a[j] < twos(a.len())[j]);
        } else {
            assert(b[j - a.len()] < twos(b.len())[j - a.len()]);
        }
    }
}

/// The first contraction holds, at the gathered bits of a row and the bits
/// of a column, the entry of `U ρ`.
proof fn lemma_rows_at(
    rho: Seq<Complex64>,
    nqubits: nat,
    gate: Seq<Complex64>,
    indices: Seq<usize>,
    row: Seq<usize>,
    col: Seq<usize>,
)
    requires
        bounded(rho, nqubits, gate, indices),
        in_bounds(twos(nqubits), row),
        in_bounds(twos(nqubits), col),
    ensures
        contracted(
            operator_view(gate, indices.len()),
            state_view(rho, nqubits),
            counted(indices.len(), indices.len()),
            indices,
        ).shape == twos(2 * nqubits),
        contracted(
            operator_view(gate, indices.len()),
            state_view(rho, nqubits),
            counted(indices.len(), indices.len()),
            indices,
        ).at(select(row, indices) + select(row, free_axes(nqubits, indices)) + col) == row_sum(
            rho,
            nqubits,
            gate,
            indices,
            row,
            col,
            pow2(indices.len()),
        ),
{
    let n = nqubits;
    let k = indices.len();
    let free = free_axes(n, indices);
    let u = operator_view(gate, k);
    let state = state_view(rho, n);
    let inputs = counted(k, k);
    let rows = contracted(u, state, inputs, indices);
    let at = select(row, indices) + select(row, free) + col;
    lemma_free_axes(n, indices);
    lemma_free_axes_len(n, indices);
    lemma_evolve_rows(n, indices);
    assert(rows.shape == twos(2 * n));
    lemma_select_bits(n, indices, row);
    lemma_select_bits(n, free, row);
    lemma_chain_bits(select(row, indices), select(row, free));
    lemma_chain_bits(select(row, indices) + select(row, free), col);
    assert(in_bounds(twos(2 * n), at));
    lemma_twos_size(k);
    lemma_select_twos(2 * k, inputs);
    assert(select(u.shape, inputs) == twos(k));
    lemma_contracted_at(u, state, inputs, indices, at);
    lemma_rows_sum(rho, n, gate, indices, row, col, pow2(k));
}

/// One product of the second contraction is one product of `(U ρ) U†`.
proof fn lemma_columns_term(
    rho: Seq<Complex64>,
    nqubits: nat,
    gate: Seq<Complex64>,
    indices: Seq<usize>,
    row: Seq<usize>,
    col: Seq<usize>,
    step: nat,
)
    requires
        bounded(rho, nqubits, gate, indices),
        in_bounds(twos(nqubits), row),
        in_bounds(twos(nqubits), col),
        step < pow2(indices.len()),
    ensures
        contraction_term(
            contracted(
                operator_view(gate, indices.len()),
                state_view(rho, nqubits),
                counted(indices.len(), indices.len()),
                indices,
            ),
            operator_view(adjoint(gate, pow2(indices.len())), indices.len()),
            shifted(indices, nqubits),
            counted(0, indices.len()),
            gathered(nqubits, indices, row, col),
            step,
        ) == column_term(rho, nqubits, gate, indices, row, col, step),
{
    let n = nqubits;
    let k = indices.len();
    let free = free_axes(n, indices);
    let rows = contracted(operator_view(gate, k), state_view(rho, n), counted(k, k), indices);
    let columns = shifted(indices, n);
    let at = gathered(n, indices, row, col);
    lemma_free_axes_len(n, indices);
    lemma_twos_size(k);
    let inner = multi_index(twos(k), step);
    lemma_multi_index_bound(twos(k), step);
    lemma_put_in_bounds(n, indices, col, inner);
    lemma_rows_at(rho, n, gate, indices, row, put(col, indices, inner));
    assert(rows.shape == twos(2 * n));
    lemma_evolve_columns(n, indices);
    lemma_select_twos(2 * n, columns);
    assert(select(rows.shape, columns) == twos(k));
    let first = select(row, indices) + select(row, free);
    lemma_join_columns(n, indices, first, col, inner);
    lemma_join_leading(k, inner, select(col, indices));
    let kept = (2 * n - k) as int;
    assert(at.take(kept) =~= first + select(col, free));
    assert(at.skip(kept) =~= select(col, indices));
    assert(first + put(col, indices, inner) =~= select(row, indices) + select(row, free) + put(
        col,
        indices,
        inner,
    ));
}

/// The second contraction adds up the products of `(U ρ) U†`.
proof fn lemma_columns_sum(
    rho: Seq<Complex64>,
    nqubits: nat,
    gate: Seq<Complex64>,
    indices: Seq<usize>,
    row: Seq<usize>,
    col: Seq<usize>,
    steps: nat,
)
    requires
        bounded(rho, nqubits, gate, indices),
        in_bounds(twos(nqubits), row),
        in_bounds(twos(nqubits), col),
        steps <= pow2(indices.len()),
    ensures
        contraction_sum(
            contracted(
                operator_view(gate, indices.len()),
                state_view(rho, nqubits),
                counted(indices.len(), indices.len()),
                indices,
            ),
            operator_view(adjoint(gate, pow2(indices.len())), indices.len()),
            shifted(indices, nqubits),
            counted(0, indices.len()),
            gathered(nqubits, indices, row, col),
            steps,
        ) == column_sum(rho, nqubits, gate, indices, row, col, steps),
    decreases steps,
{
    if steps > 0 {
        lemma_columns_sum(rho, nqubits, gate, indices, row, col, (steps - 1) as nat);
        lemma_columns_term(rho, nqubits, gate, indices, row, col, (steps - 1) as nat);
    }
}

/// The axes that the reordering moves, where it moves them, and the
/// complements of both lists.
proof fn lemma_restore_complements(nqubits: nat, indices: Seq<usize>)
    requires
        2 * nqubits < 64,
        valid_axes(nqubits, indices),
    ensures
        indices.len() <= nqubits,
        forall|i: int|
            0 <= i < 2 * indices.len() ==> #[trigger] normal_axes(
                2 * nqubits,
                restore_src(indices.len()),
            )[i] == (if i < indices.len() {
                i
            } else {
                2 * nqubits + indices.len() - 1 - i
            }),
        forall|i: int|
            0 <= i < 2 * indices.len() ==> #[trigger] normal_axes(
                2 * nqubits,
                restore_dst(nqubits, indices),
            )[i] == (if i < indices.len() {
                indices[i] as int
            } else {
                indices[2 * indices.len() - 1 - i] + nqubits
            }),
        free_axes(2 * nqubits, normal_axes(2 * nqubits, restore_src(indices.len()))) == counted(
            indices.len(),
            (2 * nqubits - 2 * indices.len()) as nat,
        ),
        free_axes(2 * nqubits, normal_axes(2 * nqubits, restore_dst(nqubits, indices)))
            == free_axes(nqubits, indices) + shifted(free_axes(nqubits, indices), nqubits),
{
    let n = nqubits;
    let k = indices.len();
    let width = 2 * n;
    let free = free_axes(n, indices);
    let src = restore_src(k);
    let dst = restore_dst(n, indices);
    let from = normal_axes(width, src);
    let to = normal_axes(width, dst);
    lemma_free_axes(n, indices);
    lemma_free_axes_len(n, indices);
    assert forall|i: int| 0 <= i < 2 * k implies #[trigger] from[i] == (if i < k {
        i
    } else {
        width + k - 1 - i
    }) by {
        assert(from[i] == normal_axis(width, src[i]));
    }
    assert forall|i: int| 0 <= i < 2 * k implies #[trigger] to[i] == (if i < k {
        indices[i] as int
    } else {
        indices[2 * k - 1 - i] + n
    }) by {
        assert(to[i] == normal_axis(width, dst[i]));
        if i < k {
            assert(indices[i] < n);
        } else {
            assert(indices[2 * k - 1 - i] < n);
        }
    }
    let middle = counted(k, (width - 2 * k) as nat);
    assert forall|i: int| 0 <= i < middle.len() implies #[trigger] middle[i] < width
        && !from.contains(middle[i]) by {
        if from.contains(middle[i]) {
            let j = choose|j: int| 0 <= j < from.len() && from[j] == middle[i];
            assert(from[j] == (if j < k {
                j
            } else {
                width + k - 1 - j
            }));
        }
    }
    assert forall|q: usize| q < width && !from.contains(q) implies middle.contains(q) by {
        if q < k {
            assert(from[q as int] == q);
        } else if q >= width - k {
            assert(from[width + k - 1 - q] == q);
        } else {
            assert(middle[q - k] == q);
        }
    }
    lemma_free_axes_unique(width, from, middle);
    let others = free + shifted(free, n);
    assert forall|i: int, j: int| 0 <= i < j < others.len() implies others[i] < others[j] by {
        if i < free.len() {
            assert(free[i] < n);
        }
        if j < free.len() {
            assert(free[i] < free[j]);
        } else {
            assert(free[j - free.len()] < n);
            if i >= free.len() {
                assert(free[i - free.len()] < free[j - free.len()]);
            }
        }
    }
    assert forall|i: int| 0 <= i < others.len() implies #[trigger] others[i] < width
        && !to.contains(others[i]) by {
        let low = if i < free.len() {
            free[i]
        } else {
            free[i - free.len()]
        };
        assert(low < n);
        assert(!indices.contains(low));
        if to.contains(others[i]) {
            let j = choose|j: int| 0 <= j < to.len() && to[j] == others[i];
            let m = if j < k {
                j
            } else {
                2 * k - 1 - j
            };
            assert(to[j] == (if j < k {
                indices[j] as int
            } else {
                indices[2 * k - 1 - j] + n
            }));
            assert(indices[m] < n);
            assert(indices[m] == low);
            assert(indices.contains(low));
        }
    }
    assert forall|q: usize| q < width && !to.contains(q) implies others.contains(q) by {
        let low = if q < n {
            q
        } else {
            (q - n) as usize
        };
        if indices.contains(low) {
            let m = choose|m: int| 0 <= m < k && indices[m] == low;
            if q < n {
                assert(to[m] == q);
            } else {
                assert(to[2 * k - 1 - m] == q);
            }
        }
        assert(free.contains(low));
        let j = choose|j: int| 0 <= j < free.len() && free[j] == low;
        if q < n {
            assert(others[j] == q);
        } else {
            assert(others[free.len() + j] == q);
        }
    }
    lemma_free_axes_unique(width, to, others);
}

/// Where the reordering sends each axis: the leading block to the row axes
/// of the listed qubits, the axes after it to the other row axes and then
/// the other column axes, the trailing block to the column axes of the
/// listed qubits.
proof fn lemma_restore_places(nqubits: nat, indices: Seq<usize>)
    requires
        2 * nqubits < 64,
        valid_axes(nqubits, indices),
    ensures
        indices.len() <= nqubits,
        moved_places(
            2 * nqubits,
            normal_axes(2 * nqubits, restore_src(indices.len())),
            normal_axes(2 * nqubits, restore_dst(nqubits, indices)),
        ) == indices + free_axes(nqubits, indices) + shifted(free_axes(nqubits, indices), nqubits)
            + shifted(indices, nqubits),
        select(
            twos(2 * nqubits),
            moved_order(
                2 * nqubits,
                normal_axes(2 * nqubits, restore_src(indices.len())),
                normal_axes(2 * nqubits, restore_dst(nqubits, indices)),
            ),
        ) == twos(2 * nqubits),
{
    let n = nqubits;
    let k = indices.len();
    let width = 2 * n;
    let free = free_axes(n, indices);
    let from = normal_axes(width, restore_src(k));
    let to = normal_axes(width, restore_dst(n, indices));
    let places = moved_places(width, from, to);
    let want = indices + free + shifted(free, n) + shifted(indices, n);
    lemma_free_axes_len(n, indices);
    lemma_restore_complements(n, indices);
    lemma_evolve_restore(n, indices);
    lemma_moved_axes(width, from, to);
    lemma_select_twos(width, moved_order(width, from, to));
    let free_from = free_axes(width, from);
    let free_to = free_axes(width, to);
    lemma_free_axes_len(width, to);
    lemma_select_of_join(width, from, to, free_to);
    assert forall|q: int| 0 <= q < width implies places[q] == want[q] by {
        if q < k {
            assert(from[q] == q);
            assert(select(places, from)[q] == to[q]);
        } else if q >= width - k {
            let j = width + k - 1 - q;
            assert(from[j] == q);
            assert(select(places, from)[j] == to[j]);
        } else {
            assert(free_from[q - k] == q);
            assert(select(places, free_from)[q - k] == free_to[q - k]);
        }
    }
    assert(places =~= want);
}

/// After the reordering, the entry at the bits of a row followed by the
/// bits of a column is the entry that stood at the gathered bits.
proof fn lemma_restored_at(
    both: TensorView,
    nqubits: nat,
    indices: Seq<usize>,
    row: Seq<usize>,
    col: Seq<usize>,
)
    requires
        2 * nqubits < 64,
        valid_axes(nqubits, indices),
        both.shape == twos(2 * nqubits),
        both.data.len() == pow2(2 * nqubits),
        in_bounds(twos(nqubits), row),
        in_bounds(twos(nqubits), col),
    ensures
        flat_index(twos(2 * nqubits), row + col) < pow2(2 * nqubits),
        moved(
            both,
            normal_axes(2 * nqubits, restore_src(indices.len())),
            normal_axes(2 * nqubits, restore_dst(nqubits, indices)),
        ).data[flat_index(twos(2 * nqubits), row + col) as int] == both.at(
            gathered(nqubits, indices, row, col),
        ),
{
    let n = nqubits;
    let k = indices.len();
    let width = 2 * n;
    let free = free_axes(n, indices);
    let places = indices + free + shifted(free, n) + shifted(indices, n);
    let at = row + col;
    let want = gathered(n, indices, row, col);
    lemma_free_axes(n, indices);
    lemma_free_axes_len(n, indices);
    lemma_restore_places(n, indices);
    lemma_chain_bits(row, col);
    lemma_twos_size(width);
    lemma_flat_index_bound(twos(width), at);
    lemma_multi_of_flat(twos(width), at);
    assert forall|q: int| 0 <= q < width implies select(at, places)[q] == want[q] by {
        if q < k {
            assert(indices[q] < n);
        } else if q < n {
            assert(free[q - k] < n);
        } else if q < width - k {
            assert(free[q - n] < n);
        } else {
            assert(indices[q - (width - k)] < n);
        }
    }
    assert(select(at, places) =~= want);
}

/// After an operator has acted on the listed qubits, the entry at the row
/// with bits `row` and the column with bits `col` is the entry of
/// `U ρ U†`: the sum over the column bits at the listed qubits of the sums
/// over the row bits at the listed qubits, each taken in ascending order of
/// the bits read as a number.  That entry stands in row
/// `flat_index(twos(n), row)` and column `flat_index(twos(n), col)` of the
/// matrix.
pub proof fn lemma_evolved_entry(
    rho: Seq<Complex64>,
    nqubits: nat,
    gate: Seq<Complex64>,
    indices: Seq<usize>,
    row: Seq<usize>,
    col: Seq<usize>,
)
    requires
        applicable(rho, nqubits, gate, indices),
        in_bounds(twos(nqubits), row),
        in_bounds(twos(nqubits), col),
    ensures
        flat_index(twos(2 * nqubits), row + col) == flat_index(twos(nqubits), row) * pow2(nqubits)
            + flat_index(twos(nqubits), col),
        flat_index(twos(2 * nqubits), row + col) < pow2(2 * nqubits),
        evolved(rho, nqubits, gate, indices)[flat_index(twos(2 * nqubits), row + col) as int]
            == conjugated_entry(rho, nqubits, gate, indices, row, col),
{
    let n = nqubits;
    let k = indices.len();
    let free = free_axes(n, indices);
    let rows = contracted(operator_view(gate, k), state_view(rho, n), counted(k, k), indices);
    let u_dagger = operator_view(adjoint(gate, pow2(k)), k);
    let columns = shifted(indices, n);
    let leading = counted(0, k);
    let both = contracted(rows, u_dagger, columns, leading);
    let want = gathered(n, indices, row, col);
    lemma_pow2_fits(2 * n);
    assert(bounded(rho, n, gate, indices));
    lemma_free_axes(n, indices);
    lemma_free_axes_len(n, indices);
    lemma_twos_size(n);
    lemma_twos_size(k);
    lemma_twos_size(2 * n);
    assert(twos(2 * n) =~= twos(n) + twos(n));
    lemma_flat_index_concat(twos(n), twos(n), row, col);
    lemma_rows_at(rho, n, gate, indices, row, col);
    lemma_evolve_columns(n, indices);
    assert(both.shape == twos(2 * n));
    assert(both.data.len() == pow2(2 * n));
    lemma_restored_at(both, n, indices, row, col);
    lemma_select_bits(n, indices, row);
    lemma_select_bits(n, free, row);
    lemma_select_bits(n, free, col);
    lemma_select_bits(n, indices, col);
    lemma_chain_bits(select(row, indices), select(row, free));
    lemma_chain_bits(select(row, indices) + select(row, free), select(col, free));
    lemma_chain_bits(
        select(row, indices) + select(row, free) + select(col, free),
        select(col, indices),
    );
    assert(in_bounds(twos(2 * n), want));
    lemma_select_twos(2 * n, columns);
    assert(select(rows.shape, columns) == twos(k));
    lemma_contracted_at(rows, u_dagger, columns, leading, want);
    lemma_columns_sum(rho, n, gate, indices, row, col, pow2(k));
}

/// After an operator has acted on the listed qubits, the matrix holds
/// `U ρ U†`: the entry in row `r` and column `c` is the entry of `U ρ U†`
/// at the big-endian bits of `r` and of `c`.
pub proof fn lemma_evolved_matrix_entry(
    rho: Seq<Complex64>,
    nqubits: nat,
    gate: Seq<Complex64>,
    indices: Seq<usize>,
    r: nat,
    c: nat,
)
    requires
        applicable(rho, nqubits, gate, indices),
        r < pow2(nqubits),
        c < pow2(nqubits),
    ensures
        r * pow2(nqubits) + c < pow2(2 * nqubits),
        evolved(rho, nqubits, gate, indices)[(r * pow2(nqubits) + c) as int] == conjugated_entry(
            rho,
            nqubits,
            gate,
            indices,
            bit_vector(r, nqubits),
            bit_vector(c, nqubits),
        ),
{
    let n = nqubits;
    lemma_twos_size(n);
    lemma_bit_vector_is_multi_index(r, n);
    lemma_bit_vector_is_multi_index(c, n);
    let row = multi_index(twos(n), r);
    let col = multi_index(twos(n), c);
    assert(bit_vector(r, n) == row);
    assert(bit_vector(c, n) == col);
    lemma_multi_index_bound(twos(n), r);
    lemma_multi_index_bound(twos(n), c);
    lemma_flat_of_multi(twos(n), r);
    lemma_flat_of_multi(twos(n), c);
    lemma_evolved_entry(rho, n, gate, indices, row, col);
}

} // verus!
