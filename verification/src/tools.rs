//! Helpers shared by the density matrix and its operators: powers of two,
//! big-endian bit decomposition, approximate equality of scalars, and the
//! way back from a tensor of qubit axes to a density matrix.

use vstd::prelude::*;
use vstd::arithmetic::div_mod::lemma_div_denominator;
use vstd::arithmetic::power2::{
    lemma2_to64, lemma_pow2_adds, lemma_pow2_pos, lemma_pow2_strictly_increases,
    lemma_pow2_unfold, pow2,
};
use num_complex::Complex64;
use crate::density_matrix::DensityMatrix;
use crate::axes::{axes_below, select};
use crate::index::{lemma_multi_index_len, multi_index, positive, shape_size, unravel};
use crate::scalar::{complex_norm, complex_sub, real_less, real_part_below};
use crate::tensor::Tensor;

verus! {

/// The shape of `rank` axes of extent two.
pub open spec fn twos(rank: nat) -> Seq<usize> {
    Seq::new(rank, |i: int| 2usize)
}

/// The big-endian bits of `value` over `width` positions: position `j`
/// holds the bit of weight `2^(width - 1 - j)`.
pub open spec fn bit_vector(value: nat, width: nat) -> Seq<usize> {
    Seq::new(width, |j: int| ((value / pow2((width - 1 - j) as nat)) % 2) as usize)
}

/// A shape of `rank` twos is positive and has `2^rank` elements.
pub proof fn lemma_twos_size(rank: nat)
    ensures
        positive(twos(rank)),
        shape_size(twos(rank)) == pow2(rank),
    decreases rank,
{
    if rank == 0 {
        lemma2_to64();
    } else {
        lemma_twos_size((rank - 1) as nat);
        assert(twos(rank).drop_last() =~= twos((rank - 1) as nat));
        assert(twos(rank).last() == 2);
        lemma_pow2_unfold(rank);
        assert(shape_size(twos(rank)) == shape_size(twos((rank - 1) as nat)) * 2);
    }
}

/// Gathering extents of a shape of twos gives a shape of twos.
pub proof fn lemma_select_twos(rank: nat, axes: Seq<usize>)
    requires
        axes_below(rank, axes),
    ensures
        select(twos(rank), axes) =~= twos(axes.len()),
{
    assert forall|i: int| 0 <= i < axes.len() implies select(twos(rank), axes)[i] == 2 by {
        assert(axes[i] < rank);
    }
}

/// A power of two that fits the machine word has an exponent below 64.
pub proof fn lemma_pow2_fits(e: nat)
    requires
        pow2(e) <= usize::MAX,
    ensures
        e < 64,
{
    if e >= 64 {
        lemma2_to64();
        if e > 64 {
            lemma_pow2_strictly_increases(64, e);
        }
    }
}

/// Different exponents give different powers of two.
pub proof fn lemma_pow2_distinct(a: nat, b: nat)
    requires
        a != b,
    ensures
        pow2(a) != pow2(b),
{
    if a < b {
        lemma_pow2_strictly_increases(a, b);
    } else {
        lemma_pow2_strictly_increases(b, a);
    }
}

/// Powers of two grow with the exponent.
pub proof fn lemma_pow2_monotone(a: nat, b: nat)
    requires
        a <= b,
    ensures
        pow2(a) <= pow2(b),
{
    if a < b {
        lemma_pow2_strictly_increases(a, b);
    }
}

/// The big-endian bits of a value are its multi-index in an array of
/// extent two along every axis.
pub proof fn lemma_bit_vector_is_multi_index(value: nat, width: nat)
    ensures
        bit_vector(value, width) =~= multi_index(twos(width), value),
    decreases width,
{
    lemma_twos_size(width);
    lemma_multi_index_len(twos(width), value);
    if width > 0 {
        let below = (width - 1) as nat;
        lemma_bit_vector_is_multi_index(value / 2, below);
        lemma_twos_size(below);
        lemma_multi_index_len(twos(below), value / 2);
        assert(twos(width).drop_last() =~= twos(below));
        assert(twos(width).last() == 2);
        let lhs = bit_vector(value, width);
        let rhs = multi_index(twos(width), value);
        assert(rhs == multi_index(twos(below), value / 2).push((value % 2) as usize));
        assert forall|j: int| 0 <= j < width implies lhs[j] == rhs[j] by {
            if j < below {
                let e = (below - 1 - j) as nat;
                let head = multi_index(twos(below), value / 2);
                assert(rhs[j] == head[j]);
                assert(head[j] == bit_vector(value / 2, below)[j]);
                assert(bit_vector(value / 2, below)[j] == (((value / 2) / pow2(e)) % 2) as usize);
                lemma_pow2_unfold((width - 1 - j) as nat);
                assert(pow2((width - 1 - j) as nat) == 2 * pow2(e));
                lemma_pow2_pos(e);
                lemma_div_denominator(value as int, 2, pow2(e) as int);
                assert((value / 2) / pow2(e) == value / (2 * pow2(e)));
            } else {
                lemma2_to64();
                assert(pow2((width - 1 - j) as nat) == 1);
                assert(rhs[j] == (value % 2) as usize);
            }
        }
    }
}

/// `2^exponent`.
pub fn two_to(exponent: usize) -> (power: usize)
    requires
        pow2(exponent as nat) <= usize::MAX,
    ensures
        power == pow2(exponent as nat),
{
    let mut acc: usize = 1;
    let mut i: usize = 0;
    proof {
        lemma2_to64();
    }
    while i < exponent
        invariant
            i <= exponent,
            acc == pow2(i as nat),
            pow2(exponent as nat) <= usize::MAX,
        decreases exponent - i,
    {
        proof {
            lemma_pow2_unfold((i + 1) as nat);
            lemma_pow2_monotone((i + 1) as nat, exponent as nat);
        }
        acc = acc * 2;
        i += 1;
    }
    acc
}

/// The shape of `rank` axes of extent two.
pub fn twos_shape(rank: usize) -> (shape: Vec<usize>)
    ensures
        shape@ == twos(rank as nat),
{
    let mut out: Vec<usize> = Vec::new();
    let mut i: usize = 0;
    while i < rank
        invariant
            i <= rank,
            out@ =~= twos(i as nat),
        decreases rank - i,
    {
        out.push(2);
        i += 1;
    }
    out
}

/// The big-endian bits of `value` over `width` positions.
pub fn bitwise_int_to_bin_vec(value: usize, width: usize) -> (bits: Vec<usize>)
    ensures
        bits@ == bit_vector(value as nat, width as nat),
{
    let shape = twos_shape(width);
    proof {
        lemma_twos_size(width as nat);
        lemma_bit_vector_is_multi_index(value as nat, width as nat);
    }
    unravel(shape.as_slice(), value)
}

/// Whether the modulus of `value` is strictly below the real part of
/// `bound`.  The modulus is computed by the platform and has no name; the
/// answer is the comparison of some scalar with the bound.
pub fn modulus_below(value: Complex64, bound: Complex64) -> (below: bool)
    ensures
        exists|m: Complex64| below == #[trigger] real_part_below(m, bound),
{
    let modulus = complex_norm(value);
    let below = real_less(modulus, bound);
    assert(below == real_part_below(modulus, bound));
    below
}

/// Whether `lhs` and `rhs` differ by a modulus strictly below the real part
/// of `tolerance`: the answer of `modulus_below` for their difference.
pub fn complex_approx_eq(lhs: Complex64, rhs: Complex64, tolerance: Complex64) -> (close: bool)
    ensures
        exists|m: Complex64| close == #[trigger] real_part_below(m, tolerance),
{
    modulus_below(complex_sub(lhs, rhs), tolerance)
}

/// The density matrix whose row and column bits are the axes of `tensor`:
/// the first half of the axes are the row qubits, the second half the
/// column qubits.
pub fn tensor_to_dm(tensor: Tensor) -> (dm: DensityMatrix)
    requires
        tensor.wf(),
        tensor.shape@.len() % 2 == 0,
        tensor.shape@ == twos(tensor.shape@.len()),
    ensures
        dm.wf(),
        dm.nqubits == tensor.shape@.len() / 2,
        dm.data@ == tensor.data@,
{
    let nqubits = tensor.shape.len() / 2;
    let total = tensor.data.len();
    proof {
        lemma_twos_size(tensor.shape@.len());
        lemma_pow2_adds(nqubits as nat, nqubits as nat);
        lemma_pow2_monotone(nqubits as nat, tensor.shape@.len());
    }
    let size = two_to(nqubits);
    DensityMatrix { data: tensor.data, size, nqubits }
}

} // verus!
