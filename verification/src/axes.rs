//! Lists of axis positions: validity, the complement of a list within a
//! rank, gathering the components at listed axes and putting them back.

use vstd::prelude::*;
use crate::index::{in_bounds, positive, shape_size, zero_index};

verus! {

/// Every listed axis lies below `rank`.
pub open spec fn axes_below(rank: nat, axes: Seq<usize>) -> bool {
    forall|i: int| 0 <= i < axes.len() ==> #[trigger] axes[i] < rank
}

/// No axis is listed twice.
pub open spec fn axes_distinct(axes: Seq<usize>) -> bool {
    forall|i: int, j: int| 0 <= i < j < axes.len() ==> axes[i] != axes[j]
}

/// `axes` lists distinct axes of an array of the given rank.
pub open spec fn valid_axes(rank: nat, axes: Seq<usize>) -> bool {
    axes_below(rank, axes) && axes_distinct(axes)
}

/// The axes below `rank` that `axes` does not list, in ascending order.
pub open spec fn free_axes(rank: nat, axes: Seq<usize>) -> Seq<usize>
    decreases rank,
{
    if rank == 0 {
        Seq::empty()
    } else {
        let rest = free_axes((rank - 1) as nat, axes);
        if axes.contains((rank - 1) as usize) {
            rest
        } else {
            rest.push((rank - 1) as usize)
        }
    }
}

/// The components of `values` at the listed axes, in listed order.
pub open spec fn select(values: Seq<usize>, axes: Seq<usize>) -> Seq<usize> {
    Seq::new(axes.len(), |i: int| values[axes[i] as int])
}

/// The sequence of length `rank` that holds `at_axes[j]` at position
/// `axes[j]` and the components of `rest`, in order, at the positions that
/// `axes` does not list.
pub open spec fn join(rank: nat, axes: Seq<usize>, at_axes: Seq<usize>, rest: Seq<usize>) -> Seq<
    usize,
> {
    Seq::new(
        rank,
        |p: int|
            if axes.contains(p as usize) {
                at_axes[axes.index_of(p as usize)]
            } else {
                rest[free_axes(rank, axes).index_of(p as usize)]
            },
    )
}

/// What the complement holds: exactly the unlisted axes below `rank`, each
/// once, ascending.
pub proof fn lemma_free_axes(rank: nat, axes: Seq<usize>)
    requires
        rank <= usize::MAX,
    ensures
        axes_below(rank, free_axes(rank, axes)),
        forall|i: int, j: int|
            0 <= i < j < free_axes(rank, axes).len() ==> free_axes(rank, axes)[i] < free_axes(
                rank,
                axes,
            )[j],
        forall|i: int|
            0 <= i < free_axes(rank, axes).len() ==> !axes.contains(
                #[trigger] free_axes(rank, axes)[i],
            ),
        forall|q: usize| q < rank && !axes.contains(q) ==> free_axes(rank, axes).contains(q),
        free_axes(rank, axes).len() <= rank,
    decreases rank,
{
    if rank > 0 {
        let prev = free_axes((rank - 1) as nat, axes);
        lemma_free_axes((rank - 1) as nat, axes);
        let cur = free_axes(rank, axes);
        let top = (rank - 1) as usize;
        if axes.contains(top) {
            assert(cur == prev);
        } else {
            assert(cur == prev.push(top));
            assert(cur[prev.len() as int] == top);
        }
        assert forall|q: usize| q < rank && !axes.contains(q) implies cur.contains(q) by {
            if q == top {
                assert(cur[prev.len() as int] == q);
            } else {
                assert(prev.contains(q));
                let j = choose|j: int| 0 <= j < prev.len() && prev[j] == q;
                assert(cur[j] == q);
            }
        }
    }
}

/// The complement depends only on which axes below `rank` are listed.
pub proof fn lemma_free_axes_congruent(rank: nat, a: Seq<usize>, b: Seq<usize>)
    requires
        forall|q: usize| q < rank ==> a.contains(q) == b.contains(q),
        rank <= usize::MAX,
    ensures
        free_axes(rank, a) == free_axes(rank, b),
    decreases rank,
{
    if rank > 0 {
        lemma_free_axes_congruent((rank - 1) as nat, a, b);
        let top = (rank - 1) as usize;
        assert(a.contains(top) == b.contains(top));
    }
}

/// A valid list and its complement together count every axis once.
pub proof fn lemma_free_axes_len(rank: nat, axes: Seq<usize>)
    requires
        valid_axes(rank, axes),
        rank <= usize::MAX,
    ensures
        free_axes(rank, axes).len() + axes.len() == rank,
    decreases rank,
{
    if rank == 0 {
        if axes.len() > 0 {
            assert(axes[0] < rank);
        }
    } else {
        let top = (rank - 1) as usize;
        if axes.contains(top) {
            let j = choose|j: int| 0 <= j < axes.len() && axes[j] == top;
            let b = axes.remove(j);
            assert forall|i: int| 0 <= i < b.len() implies #[trigger] b[i] < rank - 1 by {
                if i < j {
                    assert(b[i] == axes[i]);
                    assert(axes[i] < rank);
                } else {
                    assert(b[i] == axes[i + 1]);
                    assert(axes[i + 1] < rank);
                }
            }
            assert forall|i: int, k: int| 0 <= i < k < b.len() implies b[i] != b[k] by {
                let i0 = if i < j { i } else { i + 1 };
                let k0 = if k < j { k } else { k + 1 };
                assert(b[i] == axes[i0]);
                assert(b[k] == axes[k0]);
            }
            assert forall|q: usize| q < rank - 1 implies axes.contains(q) == b.contains(q) by {
                if axes.contains(q) {
                    let i = choose|i: int| 0 <= i < axes.len() && axes[i] == q;
                    if i < j {
                        assert(b[i] == q);
                    } else {
                        assert(b[i - 1] == q);
                    }
                }
                if b.contains(q) {
                    let i = choose|i: int| 0 <= i < b.len() && b[i] == q;
                    let i0 = if i < j { i } else { i + 1 };
                    assert(axes[i0] == q);
                }
            }
            lemma_free_axes_congruent((rank - 1) as nat, axes, b);
            lemma_free_axes_len((rank - 1) as nat, b);
        } else {
            assert forall|i: int| 0 <= i < axes.len() implies #[trigger] axes[i] < rank - 1 by {
                assert(axes[i] < rank);
                if axes[i] == top {
                    assert(axes.contains(top));
                }
            }
            lemma_free_axes_len((rank - 1) as nat, axes);
        }
    }
}

/// Two strictly ascending lists with the same members are the same list.
pub proof fn lemma_ascending_same(a: Seq<usize>, b: Seq<usize>)
    requires
        forall|i: int, j: int| 0 <= i < j < a.len() ==> a[i] < a[j],
        forall|i: int, j: int| 0 <= i < j < b.len() ==> b[i] < b[j],
        forall|x: usize| a.contains(x) == b.contains(x),
    ensures
        a =~= b,
    decreases a.len(),
{
    if a.len() == 0 {
        if b.len() > 0 {
            assert(b.contains(b[0]));
            assert(a.contains(b[0]));
        }
    } else {
        let top = a.last();
        assert(a.contains(top));
        assert(b.contains(top));
        let at = choose|j: int| 0 <= j < b.len() && b[j] == top;
        let other = b.last();
        assert(b.contains(other));
        assert(a.contains(other));
        let back = choose|i: int| 0 <= i < a.len() && a[i] == other;
        if at < b.len() - 1 {
            assert(b[at] < b[b.len() - 1]);
        }
        if back < a.len() - 1 {
            assert(a[back] < a[a.len() - 1]);
        }
        assert(top == other);
        let a0 = a.drop_last();
        let b0 = b.drop_last();
        assert forall|x: usize| a0.contains(x) == b0.contains(x) by {
            if a0.contains(x) {
                let i = choose|i: int| 0 <= i < a0.len() && a0[i] == x;
                assert(a[i] < a[a.len() - 1]);
                assert(a.contains(x));
                let j = choose|j: int| 0 <= j < b.len() && b[j] == x;
                assert(b0[j] == x);
            }
            if b0.contains(x) {
                let j = choose|j: int| 0 <= j < b0.len() && b0[j] == x;
                assert(b[j] < b[b.len() - 1]);
                assert(b.contains(x));
                let i = choose|i: int| 0 <= i < a.len() && a[i] == x;
                assert(a0[i] == x);
            }
        }
        assert forall|i: int, j: int| 0 <= i < j < a0.len() implies a0[i] < a0[j] by {
            assert(a[i] < a[j]);
        }
        assert forall|i: int, j: int| 0 <= i < j < b0.len() implies b0[i] < b0[j] by {
            assert(b[i] < b[j]);
        }
        lemma_ascending_same(a0, b0);
        assert(a0.len() == b0.len());
        assert forall|i: int| 0 <= i < a.len() implies a[i] == b[i] by {
            if i < a0.len() {
                assert(a0[i] == b0[i]);
            }
        }
    }
}

/// A strictly ascending list of exactly the unlisted axes below `rank` is
/// the complement.
pub proof fn lemma_free_axes_unique(rank: nat, axes: Seq<usize>, free: Seq<usize>)
    requires
        rank <= usize::MAX,
        forall|i: int, j: int| 0 <= i < j < free.len() ==> free[i] < free[j],
        forall|i: int| 0 <= i < free.len() ==> #[trigger] free[i] < rank && !axes.contains(free[i]),
        forall|q: usize| q < rank && !axes.contains(q) ==> free.contains(q),
    ensures
        free == free_axes(rank, axes),
{
    let want = free_axes(rank, axes);
    lemma_free_axes(rank, axes);
    assert forall|x: usize| free.contains(x) == want.contains(x) by {
        if free.contains(x) {
            let i = choose|i: int| 0 <= i < free.len() && free[i] == x;
            assert(free[i] < rank);
        }
        if want.contains(x) {
            let i = choose|i: int| 0 <= i < want.len() && want[i] == x;
            assert(want[i] < rank);
            assert(!axes.contains(want[i]));
        }
    }
    lemma_ascending_same(free, want);
}

/// A sequence that holds `at_axes` at the listed axes and `rest` at the
/// others is the join of the two.
pub proof fn lemma_join_unique(
    rank: nat,
    axes: Seq<usize>,
    at_axes: Seq<usize>,
    rest: Seq<usize>,
    full: Seq<usize>,
)
    requires
        rank <= usize::MAX,
        valid_axes(rank, axes),
        at_axes.len() == axes.len(),
        rest.len() == free_axes(rank, axes).len(),
        full.len() == rank,
        forall|j: int| 0 <= j < axes.len() ==> full[#[trigger] axes[j] as int] == at_axes[j],
        forall|j: int|
            0 <= j < rest.len() ==> full[#[trigger] free_axes(rank, axes)[j] as int] == rest[j],
    ensures
        full == join(rank, axes, at_axes, rest),
{
    let free = free_axes(rank, axes);
    let want = join(rank, axes, at_axes, rest);
    lemma_free_axes(rank, axes);
    lemma_select_of_join(rank, axes, at_axes, rest);
    assert forall|p: int| 0 <= p < rank implies full[p] == want[p] by {
        if axes.contains(p as usize) {
            let j = choose|j: int| 0 <= j < axes.len() && axes[j] == p as usize;
            assert(select(want, axes)[j] == at_axes[j]);
            assert(full[axes[j] as int] == at_axes[j]);
        } else {
            assert(free.contains(p as usize));
            let j = choose|j: int| 0 <= j < free.len() && free[j] == p as usize;
            assert(select(want, free)[j] == rest[j]);
            assert(full[free[j] as int] == rest[j]);
        }
    }
    assert(full =~= want);
}

/// Putting in-bounds components back at their axes gives an in-bounds
/// multi-index.
pub proof fn lemma_join_in_bounds(
    shape: Seq<usize>,
    axes: Seq<usize>,
    at_axes: Seq<usize>,
    rest: Seq<usize>,
)
    requires
        shape.len() <= usize::MAX,
        valid_axes(shape.len(), axes),
        in_bounds(select(shape, axes), at_axes),
        in_bounds(select(shape, free_axes(shape.len(), axes)), rest),
    ensures
        in_bounds(shape, join(shape.len(), axes, at_axes, rest)),
{
    let rank = shape.len();
    let free = free_axes(rank, axes);
    let x = join(rank, axes, at_axes, rest);
    lemma_free_axes(rank, axes);
    assert forall|p: int| 0 <= p < rank implies #[trigger] x[p] < shape[p] by {
        if axes.contains(p as usize) {
            let j = axes.index_of(p as usize);
            assert(at_axes[j] < select(shape, axes)[j]);
        } else {
            assert(free.contains(p as usize));
            let j = free.index_of(p as usize);
            assert(rest[j] < select(shape, free)[j]);
        }
    }
}

/// Gathering at `axes` what was joined from `at_axes` gives `at_axes` back,
/// and gathering at the complement gives `rest` back.
pub proof fn lemma_select_of_join(rank: nat, axes: Seq<usize>, at_axes: Seq<usize>, rest: Seq<usize>)
    requires
        rank <= usize::MAX,
        valid_axes(rank, axes),
        at_axes.len() == axes.len(),
        rest.len() == free_axes(rank, axes).len(),
    ensures
        select(join(rank, axes, at_axes, rest), axes) =~= at_axes,
        select(join(rank, axes, at_axes, rest), free_axes(rank, axes)) =~= rest,
{
    let free = free_axes(rank, axes);
    let x = join(rank, axes, at_axes, rest);
    lemma_free_axes(rank, axes);
    assert forall|j: int| 0 <= j < axes.len() implies select(x, axes)[j] == at_axes[j] by {
        let p = axes[j];
        assert(axes[j] < rank);
        assert(axes.contains(p));
        let k = axes.index_of(p);
        assert(axes[k] == p);
        if k < j {
            assert(axes[k] != axes[j]);
        }
        if j < k {
            assert(axes[j] != axes[k]);
        }
    }
    assert forall|j: int| 0 <= j < free.len() implies select(x, free)[j] == rest[j] by {
        let p = free[j];
        assert(free[j] < rank);
        assert(!axes.contains(p));
        assert(free.contains(p));
        let k = free.index_of(p);
        assert(free[k] == p);
        if k < j {
            assert(free[k] < free[j]);
        }
        if j < k {
            assert(free[j] < free[k]);
        }
    }
}

/// Gathering extents of a positive shape gives a positive shape.
pub proof fn lemma_select_positive(shape: Seq<usize>, axes: Seq<usize>)
    requires
        positive(shape),
        axes_below(shape.len(), axes),
    ensures
        positive(select(shape, axes)),
{
    assert forall|i: int| 0 <= i < axes.len() implies #[trigger] select(shape, axes)[i] > 0 by {
        assert(axes[i] < shape.len());
        assert(shape[axes[i] as int] > 0);
    }
}

/// The product of the extents of the axes below `bound` that `listed`
/// holds.
pub open spec fn listed_size(shape: Seq<usize>, listed: Seq<usize>, bound: nat) -> nat
    decreases bound,
{
    if bound == 0 {
        1
    } else {
        let rest = listed_size(shape, listed, (bound - 1) as nat);
        if listed.contains((bound - 1) as usize) {
            rest * (shape[bound - 1] as nat)
        } else {
            rest
        }
    }
}

proof fn lemma_listed_size_push(shape: Seq<usize>, listed: Seq<usize>, axis: usize, bound: nat)
    requires
        !listed.contains(axis),
        bound <= usize::MAX,
    ensures
        listed_size(shape, listed.push(axis), bound) == listed_size(shape, listed, bound) * (if axis
            < bound {
            shape[axis as int] as nat
        } else {
            1
        }),
    decreases bound,
{
    let more = listed.push(axis);
    if bound == 0 {
        assert(listed_size(shape, listed, bound) * 1 == listed_size(shape, listed, bound));
    } else {
        let top = (bound - 1) as usize;
        lemma_listed_size_push(shape, listed, axis, (bound - 1) as nat);
        let r0 = listed_size(shape, listed, (bound - 1) as nat);
        let d = shape[bound - 1] as nat;
        if top == axis {
            assert(more[listed.len() as int] == axis);
            assert(more.contains(top));
            assert(r0 * 1 == r0) by (nonlinear_arith);
        } else {
            let f: nat = if axis < bound {
                shape[axis as int] as nat
            } else {
                1
            };
            if listed.contains(top) {
                let j = choose|j: int| 0 <= j < listed.len() && listed[j] == top;
                assert(more[j] == top);
                assert(more.contains(top));
                assert((r0 * f) * d == (r0 * d) * f) by (nonlinear_arith);
            } else {
                if more.contains(top) {
                    let j = choose|j: int| 0 <= j < more.len() && more[j] == top;
                    if j < listed.len() {
                        assert(listed[j] == top);
                    }
                    assert(false);
                }
            }
        }
    }
}

proof fn lemma_listed_size_select(shape: Seq<usize>, listed: Seq<usize>)
    requires
        shape.len() <= usize::MAX,
        valid_axes(shape.len(), listed),
    ensures
        shape_size(select(shape, listed)) == listed_size(shape, listed, shape.len()),
    decreases listed.len(),
{
    if listed.len() == 0 {
        lemma_listed_size_none(shape, listed, shape.len());
    } else {
        let head = listed.drop_last();
        let axis = listed.last();
        assert(listed[listed.len() - 1] < shape.len());
        assert(valid_axes(shape.len(), head)) by {
            assert forall|i: int| 0 <= i < head.len() implies #[trigger] head[i] < shape.len() by {
                assert(listed[i] < shape.len());
            }
            assert forall|i: int, j: int| 0 <= i < j < head.len() implies head[i] != head[j] by {
                assert(listed[i] != listed[j]);
            }
        }
        if head.contains(axis) {
            let j = choose|j: int| 0 <= j < head.len() && head[j] == axis;
            assert(listed[j] != listed[listed.len() - 1]);
        }
        lemma_listed_size_select(shape, head);
        assert(select(shape, listed).drop_last() =~= select(shape, head));
        assert(listed =~= head.push(axis));
        lemma_listed_size_push(shape, head, axis, shape.len());
    }
}

proof fn lemma_listed_size_none(shape: Seq<usize>, listed: Seq<usize>, bound: nat)
    requires
        listed.len() == 0,
    ensures
        listed_size(shape, listed, bound) == 1,
    decreases bound,
{
    if bound > 0 {
        lemma_listed_size_none(shape, listed, (bound - 1) as nat);
    }
}

proof fn lemma_listed_size_bound(shape: Seq<usize>, listed: Seq<usize>, bound: nat)
    requires
        positive(shape),
        bound <= shape.len() <= usize::MAX,
    ensures
        listed_size(shape, listed, bound) <= shape_size(shape.take(bound as int)),
        (forall|q: usize| q < bound ==> listed.contains(q)) ==> listed_size(shape, listed, bound)
            == shape_size(shape.take(bound as int)),
    decreases bound,
{
    if bound == 0 {
        assert(shape.take(0) =~= Seq::<usize>::empty());
    } else {
        lemma_listed_size_bound(shape, listed, (bound - 1) as nat);
        let cur = shape.take(bound as int);
        assert(cur.drop_last() =~= shape.take(bound - 1));
        assert(cur.last() == shape[bound - 1]);
        let r0 = listed_size(shape, listed, (bound - 1) as nat);
        let s0 = shape_size(shape.take(bound - 1));
        let d = shape[bound - 1] as nat;
        assert(d > 0);
        assert(r0 * d <= s0 * d && r0 <= s0 * d) by (nonlinear_arith)
            requires
                r0 <= s0,
                d > 0,
        ;
        if forall|q: usize| q < bound ==> listed.contains(q) {
            assert(listed.contains((bound - 1) as usize));
            assert forall|q: usize| q < bound - 1 implies listed.contains(q) by {
                assert(q < bound);
            }
        }
    }
}

/// The extents gathered at distinct axes of a positive shape multiply to at
/// most the size of the shape.
pub proof fn lemma_select_size_bound(shape: Seq<usize>, axes: Seq<usize>)
    requires
        positive(shape),
        shape.len() <= usize::MAX,
        valid_axes(shape.len(), axes),
    ensures
        shape_size(select(shape, axes)) <= shape_size(shape),
{
    lemma_listed_size_select(shape, axes);
    lemma_listed_size_bound(shape, axes, shape.len());
    assert(shape.take(shape.len() as int) =~= shape);
}

/// Reordering the axes of a positive shape keeps its size.
pub proof fn lemma_permuted_size(shape: Seq<usize>, order: Seq<usize>)
    requires
        positive(shape),
        shape.len() <= usize::MAX,
        valid_axes(shape.len(), order),
        forall|q: usize| q < shape.len() ==> order.contains(q),
    ensures
        shape_size(select(shape, order)) == shape_size(shape),
{
    lemma_listed_size_select(shape, order);
    lemma_listed_size_bound(shape, order, shape.len());
    assert(shape.take(shape.len() as int) =~= shape);
}

/// The axis order after moving the axes at `src` to the positions `dst`:
/// position `dst[i]` holds axis `src[i]`, and the other positions hold the
/// other axes in ascending order.
pub open spec fn moved_order(rank: nat, src: Seq<usize>, dst: Seq<usize>) -> Seq<usize> {
    join(rank, dst, src, free_axes(rank, src))
}

/// Where each axis goes when the axes at `src` move to the positions `dst`:
/// axis `src[i]` goes to position `dst[i]`, and the other axes fill the
/// other positions in ascending order.
pub open spec fn moved_places(rank: nat, src: Seq<usize>, dst: Seq<usize>) -> Seq<usize> {
    join(rank, src, dst, free_axes(rank, dst))
}

/// The order and the places of a move are permutations of the axes, inverse
/// to each other.
pub proof fn lemma_moved_axes(rank: nat, src: Seq<usize>, dst: Seq<usize>)
    requires
        rank <= usize::MAX,
        valid_axes(rank, src),
        valid_axes(rank, dst),
        src.len() == dst.len(),
    ensures
        moved_order(rank, src, dst).len() == rank,
        moved_places(rank, src, dst).len() == rank,
        valid_axes(rank, moved_order(rank, src, dst)),
        valid_axes(rank, moved_places(rank, src, dst)),
        forall|q: int|
            0 <= q < rank ==> moved_order(rank, src, dst)[#[trigger] moved_places(
                rank,
                src,
                dst,
            )[q] as int] == q,
        forall|p: int|
            0 <= p < rank ==> moved_places(rank, src, dst)[#[trigger] moved_order(
                rank,
                src,
                dst,
            )[p] as int] == p,
        forall|q: usize| q < rank ==> moved_order(rank, src, dst).contains(q),
{
    let order = moved_order(rank, src, dst);
    let places = moved_places(rank, src, dst);
    let free_src = free_axes(rank, src);
    let free_dst = free_axes(rank, dst);
    lemma_free_axes(rank, src);
    lemma_free_axes(rank, dst);
    lemma_free_axes_len(rank, src);
    lemma_free_axes_len(rank, dst);
    lemma_select_of_join(rank, dst, src, free_src);
    lemma_select_of_join(rank, src, dst, free_dst);
    assert forall|q: int| 0 <= q < rank implies places[q] < rank && #[trigger] order[places[q] as int]
        == q by {
        if src.contains(q as usize) {
            let i = choose|i: int| 0 <= i < src.len() && src[i] == q as usize;
            assert(select(places, src)[i] == dst[i]);
            assert(dst[i] < rank);
            assert(select(order, dst)[i] == src[i]);
        } else {
            assert(free_src.contains(q as usize));
            let j = choose|j: int| 0 <= j < free_src.len() && free_src[j] == q as usize;
            assert(select(places, free_src)[j] == free_dst[j]);
            assert(free_dst[j] < rank);
            assert(select(order, free_dst)[j] == free_src[j]);
        }
    }
    assert forall|p: int| 0 <= p < rank implies order[p] < rank && #[trigger] places[order[p] as int]
        == p by {
        if dst.contains(p as usize) {
            let i = choose|i: int| 0 <= i < dst.len() && dst[i] == p as usize;
            assert(select(order, dst)[i] == src[i]);
            assert(src[i] < rank);
            assert(select(places, src)[i] == dst[i]);
        } else {
            assert(free_dst.contains(p as usize));
            let j = choose|j: int| 0 <= j < free_dst.len() && free_dst[j] == p as usize;
            assert(select(order, free_dst)[j] == free_src[j]);
            assert(free_src[j] < rank);
            assert(select(places, free_src)[j] == free_dst[j]);
        }
    }
    assert forall|a: int, b: int| 0 <= a < b < order.len() implies order[a] != order[b] by {
        assert(places[order[a] as int] == a);
        assert(places[order[b] as int] == b);
    }
    assert forall|a: int, b: int| 0 <= a < b < places.len() implies places[a] != places[b] by {
        assert(order[places[a] as int] == a);
        assert(order[places[b] as int] == b);
    }
    assert forall|q: usize| q < rank implies order.contains(q) by {
        assert(order[places[q as int] as int] == q);
    }
}

/// Whether `axis` is listed in `axes`.
pub fn lists(axes: &[usize], axis: usize) -> (found: bool)
    ensures
        found == axes@.contains(axis),
{
    let mut i: usize = 0;
    while i < axes.len()
        invariant
            i <= axes.len(),
            forall|j: int| 0 <= j < i ==> axes@[j] != axis,
        decreases axes.len() - i,
    {
        if axes[i] == axis {
            return true;
        }
        i += 1;
    }
    false
}

/// Whether every listed axis lies below `rank`.
pub fn all_below(rank: usize, axes: &[usize]) -> (ok: bool)
    ensures
        ok == axes_below(rank as nat, axes@),
{
    let mut i: usize = 0;
    while i < axes.len()
        invariant
            i <= axes.len(),
            forall|j: int| 0 <= j < i ==> #[trigger] axes@[j] < rank,
        decreases axes.len() - i,
    {
        if axes[i] >= rank {
            return false;
        }
        i += 1;
    }
    true
}

/// Whether no axis is listed twice.
pub fn all_distinct(axes: &[usize]) -> (ok: bool)
    ensures
        ok == axes_distinct(axes@),
{
    let mut j: usize = 0;
    while j < axes.len()
        invariant
            j <= axes.len(),
            forall|a: int, b: int| 0 <= a < b < j ==> axes@[a] != axes@[b],
        decreases axes.len() - j,
    {
        let mut i: usize = 0;
        while i < j
            invariant
                i <= j < axes.len(),
                forall|a: int| 0 <= a < i ==> axes@[a] != axes@[j as int],
            decreases j - i,
        {
            if axes[i] == axes[j] {
                return false;
            }
            i += 1;
        }
        j += 1;
    }
    true
}

/// Whether two lists hold the same values in the same order.
pub fn same_values(a: &[usize], b: &[usize]) -> (same: bool)
    ensures
        same == (a@ == b@),
{
    if a.len() != b.len() {
        return false;
    }
    let mut i: usize = 0;
    while i < a.len()
        invariant
            a.len() == b.len(),
            i <= a.len(),
            forall|j: int| 0 <= j < i ==> a@[j] == b@[j],
        decreases a.len() - i,
    {
        if a[i] != b[i] {
            return false;
        }
        i += 1;
    }
    assert(a@ =~= b@);
    true
}

/// The values of `a` followed by the values of `b`.
pub fn chain(a: &[usize], b: &[usize]) -> (both: Vec<usize>)
    ensures
        both@ == a@ + b@,
{
    let mut out: Vec<usize> = Vec::new();
    let mut i: usize = 0;
    while i < a.len()
        invariant
            i <= a.len(),
            out@ =~= a@.take(i as int),
        decreases a.len() - i,
    {
        out.push(a[i]);
        i += 1;
    }
    let mut j: usize = 0;
    while j < b.len()
        invariant
            i == a.len(),
            j <= b.len(),
            out@ =~= a@ + b@.take(j as int),
        decreases b.len() - j,
    {
        out.push(b[j]);
        j += 1;
    }
    assert(b@.take(j as int) =~= b@);
    out
}

/// The axes below `rank` that `axes` does not list, ascending.
pub fn complement(rank: usize, axes: &[usize]) -> (free: Vec<usize>)
    ensures
        free@ == free_axes(rank as nat, axes@),
{
    let mut out: Vec<usize> = Vec::new();
    let mut a: usize = 0;
    while a < rank
        invariant
            a <= rank,
            out@ == free_axes(a as nat, axes@),
        decreases rank - a,
    {
        if !lists(axes, a) {
            out.push(a);
        }
        a += 1;
    }
    out
}

/// The components of `values` at the listed axes.
pub fn gather(values: &[usize], axes: &[usize]) -> (picked: Vec<usize>)
    requires
        axes_below(values@.len(), axes@),
    ensures
        picked@ == select(values@, axes@),
{
    let mut out: Vec<usize> = Vec::new();
    let mut i: usize = 0;
    while i < axes.len()
        invariant
            i <= axes.len(),
            axes_below(values@.len(), axes@),
            out@ =~= select(values@, axes@.take(i as int)),
        decreases axes.len() - i,
    {
        assert(axes@[i as int] < values@.len());
        out.push(values[axes[i]]);
        i += 1;
    }
    assert(axes@.take(i as int) =~= axes@);
    out
}

/// Puts `at_axes` at the listed axes and `rest` at the others.
pub fn scatter(rank: usize, axes: &[usize], at_axes: &[usize], free: &[usize], rest: &[usize]) -> (full:
    Vec<usize>)
    requires
        valid_axes(rank as nat, axes@),
        at_axes@.len() == axes@.len(),
        free@ == free_axes(rank as nat, axes@),
        rest@.len() == free@.len(),
    ensures
        full@ == join(rank as nat, axes@, at_axes@, rest@),
{
    let mut out = zero_index(rank);
    let mut j: usize = 0;
    while j < axes.len()
        invariant
            valid_axes(rank as nat, axes@),
            at_axes@.len() == axes@.len(),
            out.len() == rank,
            j <= axes.len(),
            forall|k: int| 0 <= k < j ==> out@[#[trigger] axes@[k] as int] == at_axes@[k],
        decreases axes.len() - j,
    {
        assert(axes@[j as int] < rank);
        assert forall|k: int| 0 <= k < j implies axes@[k] != axes@[j as int] by {}
        out.set(axes[j], at_axes[j]);
        j += 1;
    }
    proof {
        lemma_free_axes(rank as nat, axes@);
    }
    let mut j: usize = 0;
    while j < free.len()
        invariant
            valid_axes(rank as nat, axes@),
            at_axes@.len() == axes@.len(),
            free@ == free_axes(rank as nat, axes@),
            rest@.len() == free@.len(),
            axes_below(rank as nat, free@),
            forall|a: int, b: int| 0 <= a < b < free@.len() ==> free@[a] < free@[b],
            forall|i: int| 0 <= i < free@.len() ==> !axes@.contains(#[trigger] free@[i]),
            out.len() == rank,
            j <= free.len(),
            forall|k: int| 0 <= k < axes@.len() ==> out@[#[trigger] axes@[k] as int] == at_axes@[k],
            forall|k: int| 0 <= k < j ==> out@[#[trigger] free@[k] as int] == rest@[k],
        decreases free.len() - j,
    {
        assert(free@[j as int] < rank);
        assert(!axes@.contains(free@[j as int]));
        assert forall|k: int| 0 <= k < j implies free@[k] != free@[j as int] by {}
        out.set(free[j], rest[j]);
        j += 1;
    }
    proof {
        let want = join(rank as nat, axes@, at_axes@, rest@);
        assert forall|p: int| 0 <= p < rank implies out@[p] == want[p] by {
            if axes@.contains(p as usize) {
                let k = axes@.index_of(p as usize);
                assert(out@[axes@[k] as int] == at_axes@[k]);
            } else {
                assert(free@.contains(p as usize));
                let k = free@.index_of(p as usize);
                assert(out@[free@[k] as int] == rest@[k]);
            }
        }
        assert(out@ =~= want);
    }
    out
}

} // verus!
