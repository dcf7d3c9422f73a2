//! Dense complex arrays of arbitrary rank, with contraction over chosen
//! axes and reordering of axes.

use vstd::prelude::*;
use vstd::pervasive::unreached;
use vstd::slice::slice_subrange;
use num_complex::Complex64;
use crate::axes::{
    all_below, all_distinct, axes_below, axes_distinct, chain, complement, free_axes, gather,
    join, lemma_free_axes, lemma_free_axes_len, lemma_join_in_bounds, lemma_moved_axes,
    lemma_permuted_size, lemma_select_positive, lemma_select_size_bound, moved_order,
    moved_places, same_values, scatter, select, valid_axes,
};
use crate::axes::lemma_select_of_join;
use crate::index::{
    all_positive, checked_size, flat_index, in_bounds, lemma_flat_index_bound, lemma_multi_index_bound,
    lemma_multi_of_flat, multi_index, positive, ravel, shape_size, unravel,
};
use crate::scalar::{complex_add, complex_from_ints, complex_mul, complex_product, complex_sum, zero};

verus! {

/// The mathematical content of a tensor: its shape and its elements in
/// row-major order.
pub struct TensorView {
    pub shape: Seq<usize>,
    pub data: Seq<Complex64>,
}

impl TensorView {
    /// The extents are positive and there is one element per multi-index.
    pub open spec fn wf(self) -> bool {
        &&& positive(self.shape)
        &&& self.data.len() == shape_size(self.shape)
    }

    /// The number of axes.
    pub open spec fn rank(self) -> nat {
        self.shape.len()
    }

    /// The element at a multi-index.
    pub open spec fn at(self, idx: Seq<usize>) -> Complex64 {
        self.data[flat_index(self.shape, idx) as int]
    }
}

/// Whether `a` and `b` can be contracted over the paired axes: the lists
/// pair up, each names distinct axes of its tensor, and paired axes agree in
/// extent.
pub open spec fn contractible(
    a: TensorView,
    b: TensorView,
    axes_a: Seq<usize>,
    axes_b: Seq<usize>,
) -> bool {
    &&& axes_a.len() == axes_b.len()
    &&& valid_axes(a.rank(), axes_a)
    &&& valid_axes(b.rank(), axes_b)
    &&& select(a.shape, axes_a) == select(b.shape, axes_b)
}

/// The shape of a contraction: the kept axes of `a` in their order, then the
/// kept axes of `b` in theirs.
pub open spec fn contracted_shape(
    a: TensorView,
    b: TensorView,
    axes_a: Seq<usize>,
    axes_b: Seq<usize>,
) -> Seq<usize> {
    select(a.shape, free_axes(a.rank(), axes_a)) + select(b.shape, free_axes(b.rank(), axes_b))
}

/// The product that the contraction adds for result multi-index `idx` at
/// step `step`: the contracted axes take the multi-index that row-major
/// order over their extents, in listed order, puts at position `step`.
pub open spec fn contraction_term(
    a: TensorView,
    b: TensorView,
    axes_a: Seq<usize>,
    axes_b: Seq<usize>,
    idx: Seq<usize>,
    step: nat,
) -> Complex64 {
    let kept = free_axes(a.rank(), axes_a).len() as int;
    let inner = multi_index(select(a.shape, axes_a), step);
    complex_product(
        a.at(join(a.rank(), axes_a, inner, idx.take(kept))),
        b.at(join(b.rank(), axes_b, inner, idx.skip(kept))),
    )
}

/// The running sum for result multi-index `idx` after `steps` products,
/// starting from zero and adding the products in step order.
pub open spec fn contraction_sum(
    a: TensorView,
    b: TensorView,
    axes_a: Seq<usize>,
    axes_b: Seq<usize>,
    idx: Seq<usize>,
    steps: nat,
) -> Complex64
    decreases steps,
{
    if steps == 0 {
        zero()
    } else {
        complex_sum(
            contraction_sum(a, b, axes_a, axes_b, idx, (steps - 1) as nat),
            contraction_term(a, b, axes_a, axes_b, idx, (steps - 1) as nat),
        )
    }
}

/// The contraction of `a` with `b` over the paired axes.
pub open spec fn contracted(
    a: TensorView,
    b: TensorView,
    axes_a: Seq<usize>,
    axes_b: Seq<usize>,
) -> TensorView {
    let shape = contracted_shape(a, b, axes_a, axes_b);
    TensorView {
        shape,
        data: Seq::new(
            shape_size(shape),
            |o: int|
                contraction_sum(
                    a,
                    b,
                    axes_a,
                    axes_b,
                    multi_index(shape, o as nat),
                    shape_size(select(a.shape, axes_a)),
                ),
        ),
    }
}

/// Whether `p` names an axis of an array of the given rank, counting from
/// the front when it is not negative and from the back when it is.
pub open spec fn position_in_range(rank: nat, p: i32) -> bool {
    -(rank as int) <= p < rank
}

/// The axis that the position `p` names.
pub open spec fn normal_axis(rank: nat, p: i32) -> usize {
    if p < 0 {
        (p + rank) as usize
    } else {
        p as usize
    }
}

/// Every listed position names an axis.
pub open spec fn positions_in_range(rank: nat, positions: Seq<i32>) -> bool {
    forall|i: int| 0 <= i < positions.len() ==> position_in_range(rank, #[trigger] positions[i])
}

/// The axes that the listed positions name.
pub open spec fn normal_axes(rank: nat, positions: Seq<i32>) -> Seq<usize> {
    Seq::new(positions.len(), |i: int| normal_axis(rank, positions[i]))
}

/// Whether the axes of `a` at the positions `src` can move to the positions
/// `dst`: the lists pair up, every position names an axis, and neither list
/// names an axis twice.
pub open spec fn movable(a: TensorView, src: Seq<i32>, dst: Seq<i32>) -> bool {
    &&& src.len() == dst.len()
    &&& positions_in_range(a.rank(), src)
    &&& positions_in_range(a.rank(), dst)
    &&& axes_distinct(normal_axes(a.rank(), src))
    &&& axes_distinct(normal_axes(a.rank(), dst))
}

/// The tensor `a` with its axes at `src` moved to the positions `dst`: the
/// same elements under the new axis order.
pub open spec fn moved(a: TensorView, src: Seq<usize>, dst: Seq<usize>) -> TensorView {
    let shape = select(a.shape, moved_order(a.rank(), src, dst));
    let places = moved_places(a.rank(), src, dst);
    TensorView {
        shape,
        data: Seq::new(
            a.data.len(),
            |o: int| a.at(select(multi_index(shape, o as nat), places)),
        ),
    }
}

/// The element of a contraction at a multi-index of the result is the sum
/// of the products over the contracted axes.
pub proof fn lemma_contracted_at(
    a: TensorView,
    b: TensorView,
    axes_a: Seq<usize>,
    axes_b: Seq<usize>,
    idx: Seq<usize>,
)
    requires
        in_bounds(contracted_shape(a, b, axes_a, axes_b), idx),
    ensures
        contracted(a, b, axes_a, axes_b).at(idx) == contraction_sum(
            a,
            b,
            axes_a,
            axes_b,
            idx,
            shape_size(select(a.shape, axes_a)),
        ),
{
    let shape = contracted_shape(a, b, axes_a, axes_b);
    lemma_flat_index_bound(shape, idx);
    lemma_multi_of_flat(shape, idx);
    assert(multi_index(shape, flat_index(shape, idx)) == idx);
}

/// Moving axes relabels the positions and keeps the values: the axis at
/// `src[i]` stands at `dst[i]` afterwards, the other axes fill the other
/// positions in their old order, the number of elements is unchanged, and
/// the element that stood at the multi-index `at` stands at the multi-index
/// that holds the same components under the new order.
pub proof fn lemma_moved_at(a: TensorView, src: Seq<usize>, dst: Seq<usize>, at: Seq<usize>)
    requires
        a.wf(),
        a.rank() <= usize::MAX,
        valid_axes(a.rank(), src),
        valid_axes(a.rank(), dst),
        src.len() == dst.len(),
        in_bounds(a.shape, at),
    ensures
        select(moved_order(a.rank(), src, dst), dst) == src,
        select(moved_order(a.rank(), src, dst), free_axes(a.rank(), dst)) == free_axes(
            a.rank(),
            src,
        ),
        moved(a, src, dst).wf(),
        in_bounds(moved(a, src, dst).shape, select(at, moved_order(a.rank(), src, dst))),
        moved(a, src, dst).at(select(at, moved_order(a.rank(), src, dst))) == a.at(at),
{
    let rank = a.rank();
    let order = moved_order(rank, src, dst);
    let places = moved_places(rank, src, dst);
    let shape = select(a.shape, order);
    let idx = select(at, order);
    lemma_free_axes_len(rank, src);
    lemma_free_axes_len(rank, dst);
    lemma_select_of_join(rank, dst, src, free_axes(rank, src));
    lemma_moved_axes(rank, src, dst);
    lemma_select_positive(a.shape, order);
    lemma_permuted_size(a.shape, order);
    assert forall|p: int| 0 <= p < rank implies #[trigger] idx[p] < shape[p] by {
        assert(order[p] < rank);
        assert(at[order[p] as int] < a.shape[order[p] as int]);
    }
    lemma_flat_index_bound(shape, idx);
    lemma_multi_of_flat(shape, idx);
    assert(multi_index(shape, flat_index(shape, idx)) == idx);
    assert forall|q: int| 0 <= q < rank implies select(idx, places)[q] == at[q] by {
        assert(places[q] < rank);
        assert(order[places[q] as int] == q);
    }
    assert(select(idx, places) =~= at);
}

/// The axes that the listed positions name, or `None` when a position names
/// no axis.
pub fn normalize_axes(rank: usize, positions: &[i32]) -> (axes: Option<Vec<usize>>)
    ensures
        match axes {
            Some(axes) => {
                &&& positions_in_range(rank as nat, positions@)
                &&& axes@ == normal_axes(rank as nat, positions@)
            },
            None => !positions_in_range(rank as nat, positions@),
        },
{
    let mut out: Vec<usize> = Vec::new();
    let mut i: usize = 0;
    while i < positions.len()
        invariant
            i <= positions.len(),
            positions_in_range(rank as nat, positions@.take(i as int)),
            out@ =~= normal_axes(rank as nat, positions@.take(i as int)),
        decreases positions.len() - i,
    {
        let p = positions[i];
        let axis: usize;
        if p >= 0 {
            let q = p as usize;
            if q >= rank {
                assert(!position_in_range(rank as nat, positions@[i as int]));
                return None;
            }
            axis = q;
        } else {
            let back = (-(p as i64)) as usize;
            if back > rank {
                assert(!position_in_range(rank as nat, positions@[i as int]));
                return None;
            }
            axis = rank - back;
        }
        out.push(axis);
        proof {
            let before = positions@.take(i as int);
            let after = positions@.take(i as int + 1);
            assert forall|j: int| 0 <= j < after.len() implies position_in_range(
                rank as nat,
                #[trigger] after[j],
            ) by {
                if j < i {
                    assert(after[j] == before[j]);
                }
            }
            assert forall|j: int| 0 <= j < after.len() implies out@[j] == normal_axes(
                rank as nat,
                after,
            )[j] by {
                if j < i {
                    assert(normal_axes(rank as nat, before)[j] == normal_axis(
                        rank as nat,
                        before[j],
                    ));
                }
            }
        }
        i += 1;
    }
    assert(positions@.take(i as int) =~= positions@);
    Some(out)
}

/// Why a contraction or a reordering of axes was refused.
#[derive(Debug, Clone, Copy, PartialEq, Eq)]
pub enum TensorError {
    /// The two axis lists differ in length.
    AxesLengthMismatch,
    /// An axis position lies outside the tensor's rank.
    AxisOutOfRange,
    /// An axis is listed twice.
    RepeatedAxis,
    /// Two paired axes differ in extent.
    DimensionMismatch,
    /// The result has more elements than the machine can address.
    TooLarge,
}

/// A dense array of complex numbers with one extent per axis, stored flat in
/// row-major order.
pub struct Tensor {
    pub shape: Vec<usize>,
    pub data: Vec<Complex64>,
}

impl View for Tensor {
    type V = TensorView;

    open spec fn view(&self) -> TensorView {
        TensorView { shape: self.shape@, data: self.data@ }
    }
}

impl Tensor {
    /// The invariant of a tensor: positive extents, one element per
    /// multi-index.
    pub open spec fn wf(&self) -> bool {
        self@.wf()
    }

    /// Whether the invariant holds.
    pub fn is_wf(&self) -> (ok: bool)
        ensures
            ok == self.wf(),
    {
        let total = self.data.len();
        if !all_positive(self.shape.as_slice()) {
            return false;
        }
        match checked_size(self.shape.as_slice()) {
            Some(size) => size == total,
            None => false,
        }
    }

    /// A zero-filled tensor of the given shape.
    pub fn new(shape: Vec<usize>) -> (t: Tensor)
        requires
            positive(shape@),
            shape_size(shape@) <= usize::MAX,
        ensures
            t.wf(),
            t.shape@ == shape@,
            forall|i: int| 0 <= i < t.data@.len() ==> t.data@[i] == zero(),
    {
        let total = match checked_size(shape.as_slice()) {
            Some(total) => total,
            None => unreached(),
        };
        let fill = complex_from_ints(0, 0);
        let mut data: Vec<Complex64> = Vec::new();
        let mut i: usize = 0;
        while i < total
            invariant
                i <= total,
                data@.len() == i,
                fill == zero(),
                forall|j: int| 0 <= j < i ==> data@[j] == zero(),
            decreases total - i,
        {
            data.push(fill);
            i += 1;
        }
        Tensor { shape, data }
    }

    /// The tensor of the given shape over the given elements, row-major.
    pub fn from_vec(data: Vec<Complex64>, shape: Vec<usize>) -> (t: Tensor)
        requires
            positive(shape@),
            data@.len() == shape_size(shape@),
        ensures
            t.wf(),
            t.shape@ == shape@,
            t.data@ == data@,
    {
        Tensor { shape, data }
    }

    /// The element at a multi-index.
    pub fn get(&self, idx: &[usize]) -> (value: Complex64)
        requires
            self.wf(),
            in_bounds(self.shape@, idx@),
        ensures
            value == self@.at(idx@),
    {
        let total = self.data.len();
        assert(total == shape_size(self.shape@));
        let flat = ravel(self.shape.as_slice(), idx);
        self.data[flat]
    }

    /// Replaces the element at a multi-index.
    pub fn set(&mut self, idx: &[usize], value: Complex64)
        requires
            old(self).wf(),
            in_bounds(old(self).shape@, idx@),
        ensures
            final(self).wf(),
            final(self).shape@ == old(self).shape@,
            final(self).data@ == old(self).data@.update(
                flat_index(old(self).shape@, idx@) as int,
                value,
            ),
    {
        let total = self.data.len();
        assert(total == shape_size(self.shape@));
        let flat = ravel(self.shape.as_slice(), idx);
        self.data.set(flat, value);
    }

    /// One element of the contraction with `other`: the sum of products over
    /// the contracted axes for the result multi-index `idx`.
    fn contract_element(
        &self,
        other: &Tensor,
        axes_self: &[usize],
        axes_other: &[usize],
        free_self: &[usize],
        free_other: &[usize],
        inner_shape: &[usize],
        steps: usize,
        idx: &[usize],
    ) -> (value: Complex64)
        requires
            self.wf(),
            other.wf(),
            contractible(self@, other@, axes_self@, axes_other@),
            free_self@ == free_axes(self@.rank(), axes_self@),
            free_other@ == free_axes(other@.rank(), axes_other@),
            inner_shape@ == select(self.shape@, axes_self@),
            steps == shape_size(inner_shape@),
            in_bounds(contracted_shape(self@, other@, axes_self@, axes_other@), idx@),
        ensures
            value == contraction_sum(
                self@,
                other@,
                axes_self@,
                axes_other@,
                idx@,
                steps as nat,
            ),
    {
        let rank_self = self.shape.len();
        let rank_other = other.shape.len();
        let total_self = self.data.len();
        let total_other = other.data.len();
        let kept = free_self.len();
        let ghost outer_self = select(self.shape@, free_self@);
        let ghost outer_other = select(other.shape@, free_other@);
        let idx_self = slice_subrange(idx, 0, kept);
        let idx_other = slice_subrange(idx, kept, idx.len());
        proof {
            lemma_free_axes(rank_self as nat, axes_self@);
            lemma_free_axes(rank_other as nat, axes_other@);
            lemma_select_positive(self.shape@, axes_self@);
            assert(idx_self@ =~= idx@.take(kept as int));
            assert(idx_other@ =~= idx@.skip(kept as int));
            assert forall|i: int| 0 <= i < outer_self.len() implies #[trigger] idx_self@[i]
                < outer_self[i] by {
                assert(idx@[i] < (outer_self + outer_other)[i]);
            }
            assert forall|i: int| 0 <= i < outer_other.len() implies #[trigger] idx_other@[i]
                < outer_other[i] by {
                assert(idx@[i + kept] < (outer_self + outer_other)[i + kept]);
            }
        }
        let mut acc = complex_from_ints(0, 0);
        let mut step: usize = 0;
        while step < steps
            invariant
                self.wf(),
                other.wf(),
                contractible(self@, other@, axes_self@, axes_other@),
                free_self@ == free_axes(self@.rank(), axes_self@),
                free_other@ == free_axes(other@.rank(), axes_other@),
                inner_shape@ == select(self.shape@, axes_self@),
                positive(inner_shape@),
                steps == shape_size(inner_shape@),
                rank_self == self.shape@.len(),
                rank_other == other.shape@.len(),
                total_self == self.data@.len(),
                total_other == other.data@.len(),
                kept == free_self@.len(),
                idx_self@ == idx@.take(kept as int),
                idx_other@ == idx@.skip(kept as int),
                in_bounds(select(self.shape@, free_self@), idx_self@),
                in_bounds(select(other.shape@, free_other@), idx_other@),
                step <= steps,
                acc == contraction_sum(
                    self@,
                    other@,
                    axes_self@,
                    axes_other@,
                    idx@,
                    step as nat,
                ),
            decreases steps - step,
        {
            let inner = unravel(inner_shape, step);
            proof {
                lemma_multi_index_bound(inner_shape@, step as nat);
                lemma_join_in_bounds(self.shape@, axes_self@, inner@, idx_self@);
                lemma_join_in_bounds(other.shape@, axes_other@, inner@, idx_other@);
            }
            let at_self = scatter(
                rank_self,
                axes_self,
                inner.as_slice(),
                free_self,
                idx_self,
            );
            let at_other = scatter(
                rank_other,
                axes_other,
                inner.as_slice(),
                free_other,
                idx_other,
            );
            let flat_self = ravel(self.shape.as_slice(), at_self.as_slice());
            let flat_other = ravel(other.shape.as_slice(), at_other.as_slice());
            let term = complex_mul(self.data[flat_self], other.data[flat_other]);
            assert(term == contraction_term(
                self@,
                other@,
                axes_self@,
                axes_other@,
                idx@,
                step as nat,
            ));
            acc = complex_add(acc, term);
            step += 1;
        }
        acc
    }

    /// Contracts `self` with `other`: sums the products of their elements
    /// over the axes of `self` listed in `axes_self`, paired in order with
    /// the axes of `other` listed in `axes_other`.  The result keeps the
    /// other axes of `self` in their order, followed by the other axes of
    /// `other` in theirs.
    pub fn tensordot(
        &self,
        other: &Tensor,
        axes_self: &[usize],
        axes_other: &[usize],
    ) -> (out: Result<Tensor, TensorError>)
        requires
            self.wf(),
            other.wf(),
        ensures
            match out {
                Ok(t) => {
                    &&& contractible(self@, other@, axes_self@, axes_other@)
                    &&& t.wf()
                    &&& t@ == contracted(self@, other@, axes_self@, axes_other@)
                },
                Err(TensorError::AxesLengthMismatch) => axes_self@.len() != axes_other@.len(),
                Err(TensorError::AxisOutOfRange) => {
                    &&& axes_self@.len() == axes_other@.len()
                    &&& !(axes_below(self@.rank(), axes_self@) && axes_below(
                        other@.rank(),
                        axes_other@,
                    ))
                },
                Err(TensorError::RepeatedAxis) => {
                    &&& axes_self@.len() == axes_other@.len()
                    &&& axes_below(self@.rank(), axes_self@)
                    &&& axes_below(other@.rank(), axes_other@)
                    &&& !(axes_distinct(axes_self@) && axes_distinct(axes_other@))
                },
                Err(TensorError::DimensionMismatch) => {
                    &&& axes_self@.len() == axes_other@.len()
                    &&& valid_axes(self@.rank(), axes_self@)
                    &&& valid_axes(other@.rank(), axes_other@)
                    &&& select(self.shape@, axes_self@) != select(other.shape@, axes_other@)
                },
                Err(TensorError::TooLarge) => {
                    &&& contractible(self@, other@, axes_self@, axes_other@)
                    &&& shape_size(contracted_shape(self@, other@, axes_self@, axes_other@))
                        > usize::MAX
                },
            },
    {
        if axes_self.len() != axes_other.len() {
            return Err(TensorError::AxesLengthMismatch);
        }
        let rank_self = self.shape.len();
        let rank_other = other.shape.len();
        let total_self = self.data.len();
        if !all_below(rank_self, axes_self) || !all_below(rank_other, axes_other) {
            return Err(TensorError::AxisOutOfRange);
        }
        if !all_distinct(axes_self) || !all_distinct(axes_other) {
            return Err(TensorError::RepeatedAxis);
        }
        let inner_shape = gather(self.shape.as_slice(), axes_self);
        let inner_other = gather(other.shape.as_slice(), axes_other);
        if !same_values(inner_shape.as_slice(), inner_other.as_slice()) {
            return Err(TensorError::DimensionMismatch);
        }
        let free_self = complement(rank_self, axes_self);
        let free_other = complement(rank_other, axes_other);
        proof {
            lemma_free_axes(rank_self as nat, axes_self@);
            lemma_free_axes(rank_other as nat, axes_other@);
            lemma_select_positive(self.shape@, axes_self@);
            lemma_select_positive(self.shape@, free_self@);
            lemma_select_positive(other.shape@, free_other@);
            lemma_select_size_bound(self.shape@, axes_self@);
        }
        let outer_self = gather(self.shape.as_slice(), free_self.as_slice());
        let outer_other = gather(other.shape.as_slice(), free_other.as_slice());
        let shape = chain(outer_self.as_slice(), outer_other.as_slice());
        assert(shape@ == contracted_shape(self@, other@, axes_self@, axes_other@));
        assert(positive(shape@)) by {
            assert forall|i: int| 0 <= i < shape@.len() implies #[trigger] shape@[i] > 0 by {
                if i < outer_self@.len() {
                    assert(shape@[i] == outer_self@[i]);
                } else {
                    assert(shape@[i] == outer_other@[i - outer_self@.len()]);
                }
            }
        }
        let total = match checked_size(shape.as_slice()) {
            Some(total) => total,
            None => {
                return Err(TensorError::TooLarge);
            },
        };
        let steps = match checked_size(inner_shape.as_slice()) {
            Some(steps) => steps,
            None => unreached(),
        };
        let mut data: Vec<Complex64> = Vec::new();
        let mut o: usize = 0;
        while o < total
            invariant
                self.wf(),
                other.wf(),
                contractible(self@, other@, axes_self@, axes_other@),
                free_self@ == free_axes(self@.rank(), axes_self@),
                free_other@ == free_axes(other@.rank(), axes_other@),
                inner_shape@ == select(self.shape@, axes_self@),
                steps == shape_size(inner_shape@),
                shape@ == contracted_shape(self@, other@, axes_self@, axes_other@),
                positive(shape@),
                total == shape_size(shape@),
                o <= total,
                data@.len() == o,
                forall|j: int|
                    0 <= j < o ==> data@[j] == contraction_sum(
                        self@,
                        other@,
                        axes_self@,
                        axes_other@,
                        multi_index(shape@, j as nat),
                        steps as nat,
                    ),
            decreases total - o,
        {
            let idx = unravel(shape.as_slice(), o);
            proof {
                lemma_multi_index_bound(shape@, o as nat);
            }
            let value = self.contract_element(
                other,
                axes_self,
                axes_other,
                free_self.as_slice(),
                free_other.as_slice(),
                inner_shape.as_slice(),
                steps,
                idx.as_slice(),
            );
            data.push(value);
            o += 1;
        }
        let t = Tensor { shape, data };
        assert(t@.data =~= contracted(self@, other@, axes_self@, axes_other@).data);
        Ok(t)
    }

    /// Moves the axes at the positions `src` to the positions `dst`; the
    /// other axes keep their order and fill the positions left.  A negative
    /// position counts from the last axis backwards.
    pub fn moveaxis(&self, src: &[i32], dst: &[i32]) -> (out: Result<Tensor, TensorError>)
        requires
            self.wf(),
        ensures
            match out {
                Ok(t) => {
                    &&& movable(self@, src@, dst@)
                    &&& t.wf()
                    &&& t@ == moved(
                        self@,
                        normal_axes(self@.rank(), src@),
                        normal_axes(self@.rank(), dst@),
                    )
                },
                Err(TensorError::AxesLengthMismatch) => src@.len() != dst@.len(),
                Err(TensorError::AxisOutOfRange) => {
                    &&& src@.len() == dst@.len()
                    &&& !(positions_in_range(self@.rank(), src@) && positions_in_range(
                        self@.rank(),
                        dst@,
                    ))
                },
                Err(TensorError::RepeatedAxis) => {
                    &&& src@.len() == dst@.len()
                    &&& positions_in_range(self@.rank(), src@)
                    &&& positions_in_range(self@.rank(), dst@)
                    &&& !(axes_distinct(normal_axes(self@.rank(), src@)) && axes_distinct(
                        normal_axes(self@.rank(), dst@),
                    ))
                },
                Err(_) => false,
            },
    {
        if src.len() != dst.len() {
            return Err(TensorError::AxesLengthMismatch);
        }
        let rank = self.shape.len();
        let total = self.data.len();
        let from = match normalize_axes(rank, src) {
            Some(from) => from,
            None => {
                return Err(TensorError::AxisOutOfRange);
            },
        };
        let to = match normalize_axes(rank, dst) {
            Some(to) => to,
            None => {
                return Err(TensorError::AxisOutOfRange);
            },
        };
        if !all_distinct(from.as_slice()) || !all_distinct(to.as_slice()) {
            return Err(TensorError::RepeatedAxis);
        }
        proof {
            assert(axes_below(rank as nat, from@)) by {
                assert forall|i: int| 0 <= i < from@.len() implies #[trigger] from@[i] < rank by {
                    assert(position_in_range(rank as nat, src@[i]));
                }
            }
            assert(axes_below(rank as nat, to@)) by {
                assert forall|i: int| 0 <= i < to@.len() implies #[trigger] to@[i] < rank by {
                    assert(position_in_range(rank as nat, dst@[i]));
                }
            }
            lemma_free_axes_len(rank as nat, from@);
            lemma_free_axes_len(rank as nat, to@);
            lemma_moved_axes(rank as nat, from@, to@);
        }
        let free_from = complement(rank, from.as_slice());
        let free_to = complement(rank, to.as_slice());
        let order = scatter(
            rank,
            to.as_slice(),
            from.as_slice(),
            free_to.as_slice(),
            free_from.as_slice(),
        );
        let places = scatter(
            rank,
            from.as_slice(),
            to.as_slice(),
            free_from.as_slice(),
            free_to.as_slice(),
        );
        let shape = gather(self.shape.as_slice(), order.as_slice());
        proof {
            lemma_select_positive(self.shape@, order@);
            lemma_permuted_size(self.shape@, order@);
        }
        let mut data: Vec<Complex64> = Vec::new();
        let mut o: usize = 0;
        while o < total
            invariant
                self.wf(),
                rank == self.shape@.len(),
                total == self.data@.len(),
                order@ == moved_order(rank as nat, from@, to@),
                places@ == moved_places(rank as nat, from@, to@),
                order@.len() == rank,
                places@.len() == rank,
                valid_axes(rank as nat, places@),
                forall|q: int| 0 <= q < rank ==> order@[#[trigger] places@[q] as int] == q,
                shape@ == select(self.shape@, order@),
                positive(shape@),
                shape_size(shape@) == total,
                o <= total,
                data@.len() == o,
                forall|j: int|
                    0 <= j < o ==> data@[j] == self@.at(
                        select(multi_index(shape@, j as nat), places@),
                    ),
            decreases total - o,
        {
            let idx = unravel(shape.as_slice(), o);
            proof {
                lemma_multi_index_bound(shape@, o as nat);
            }
            let at = gather(idx.as_slice(), places.as_slice());
            proof {
                assert forall|q: int| 0 <= q < rank implies #[trigger] at@[q] < self.shape@[q] by {
                    let p = places@[q] as int;
                    assert(places@[q] < rank);
                    assert(idx@[p] < shape@[p]);
                    assert(order@[p] == q);
                }
            }
            let flat = ravel(self.shape.as_slice(), at.as_slice());
            data.push(self.data[flat]);
            o += 1;
        }
        let t = Tensor { shape, data };
        assert(t@.data =~= moved(self@, from@, to@).data);
        Ok(t)
    }
}

} // verus!
