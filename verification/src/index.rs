//! Row-major addressing of dense arrays: the size of a shape, the flat
//! position of a multi-index (last axis varies fastest) and its inverse.

use vstd::prelude::*;
use vstd::arithmetic::div_mod::{lemma_fundamental_div_mod, lemma_fundamental_div_mod_converse};

verus! {

/// Every extent of `shape` is at least one.
pub open spec fn positive(shape: Seq<usize>) -> bool {
    forall|i: int| 0 <= i < shape.len() ==> #[trigger] shape[i] > 0
}

/// The number of elements of an array of the given shape: the product of
/// its extents.
pub open spec fn shape_size(shape: Seq<usize>) -> nat
    decreases shape.len(),
{
    if shape.len() == 0 {
        1
    } else {
        shape_size(shape.drop_last()) * (shape.last() as nat)
    }
}

/// `idx` names an element of an array of the given shape.
pub open spec fn in_bounds(shape: Seq<usize>, idx: Seq<usize>) -> bool {
    &&& idx.len() == shape.len()
    &&& forall|i: int| 0 <= i < shape.len() ==> #[trigger] idx[i] < shape[i]
}

/// The flat position of `idx` in row-major order.
pub open spec fn flat_index(shape: Seq<usize>, idx: Seq<usize>) -> nat
    decreases shape.len(),
{
    if shape.len() == 0 {
        0
    } else {
        flat_index(shape.drop_last(), idx.drop_last()) * (shape.last() as nat) + (
        idx.last() as nat)
    }
}

/// The multi-index that row-major order puts at flat position `flat`.
pub open spec fn multi_index(shape: Seq<usize>, flat: nat) -> Seq<usize>
    decreases shape.len(),
{
    if shape.len() == 0 {
        Seq::empty()
    } else {
        multi_index(shape.drop_last(), flat / (shape.last() as nat)).push(
            (flat % (shape.last() as nat)) as usize,
        )
    }
}

/// A multi-index has one component per axis.
pub proof fn lemma_multi_index_len(shape: Seq<usize>, flat: nat)
    requires
        positive(shape),
    ensures
        multi_index(shape, flat).len() == shape.len(),
    decreases shape.len(),
{
    if shape.len() > 0 {
        assert(shape[shape.len() - 1] > 0);
        assert(positive(shape.drop_last())) by {
            assert forall|i: int| 0 <= i < shape.drop_last().len() implies #[trigger] shape.drop_last()[i] > 0 by {
                assert(shape[i] > 0);
            }
        }
        lemma_multi_index_len(shape.drop_last(), flat / (shape.last() as nat));
    }
}

/// The size of a prefix of a positive shape does not exceed the size of the
/// whole shape.
pub proof fn lemma_prefix_size(shape: Seq<usize>, n: int)
    requires
        positive(shape),
        0 <= n <= shape.len(),
    ensures
        shape_size(shape.take(n)) <= shape_size(shape),
    decreases shape.len() - n,
{
    if n == shape.len() {
        assert(shape.take(n) =~= shape);
    } else {
        lemma_prefix_size(shape, n + 1);
        let next = shape.take(n + 1);
        assert(next.drop_last() =~= shape.take(n));
        let a = shape_size(shape.take(n));
        let d = shape[n] as nat;
        assert(next.last() == shape[n]);
        assert(a <= a * d) by (nonlinear_arith)
            requires
                d > 0,
        ;
    }
}

/// Every in-bounds multi-index lies at a flat position below the size.
pub proof fn lemma_flat_index_bound(shape: Seq<usize>, idx: Seq<usize>)
    requires
        in_bounds(shape, idx),
    ensures
        flat_index(shape, idx) < shape_size(shape),
    decreases shape.len(),
{
    if shape.len() > 0 {
        let s = shape.drop_last();
        let x = idx.drop_last();
        assert(in_bounds(s, x)) by {
            assert forall|i: int| 0 <= i < s.len() implies #[trigger] x[i] < s[i] by {
                assert(idx[i] < shape[i]);
            }
        }
        lemma_flat_index_bound(s, x);
        let f = flat_index(s, x);
        let a = shape_size(s);
        let d = shape.last() as nat;
        let i = idx.last() as nat;
        assert(idx[shape.len() - 1] < shape[shape.len() - 1]);
        assert(f * d + i < a * d) by (nonlinear_arith)
            requires
                f < a,
                i < d,
        ;
    }
}

/// The multi-index at a flat position below the size is in bounds.
pub proof fn lemma_multi_index_bound(shape: Seq<usize>, flat: nat)
    requires
        positive(shape),
        flat < shape_size(shape),
    ensures
        in_bounds(shape, multi_index(shape, flat)),
    decreases shape.len(),
{
    lemma_multi_index_len(shape, flat);
    if shape.len() > 0 {
        let s = shape.drop_last();
        let d = shape.last() as nat;
        let a = shape_size(s);
        assert(shape[shape.len() - 1] > 0);
        assert(flat / d < a) by (nonlinear_arith)
            requires
                flat < a * d,
                d > 0,
        ;
        assert(positive(s)) by {
            assert forall|i: int| 0 <= i < s.len() implies #[trigger] s[i] > 0 by {
                assert(shape[i] > 0);
            }
        }
        lemma_multi_index_bound(s, flat / d);
        let m = multi_index(shape, flat);
        let head = multi_index(s, flat / d);
        assert(flat % d < d) by (nonlinear_arith)
            requires
                d > 0,
        ;
        assert forall|i: int| 0 <= i < shape.len() implies #[trigger] m[i] < shape[i] by {
            if i < s.len() {
                assert(m[i] == head[i]);
                assert(head[i] < s[i]);
            }
        }
    }
}

/// Decoding a flat position and encoding it again gives the position back.
pub proof fn lemma_flat_of_multi(shape: Seq<usize>, flat: nat)
    requires
        positive(shape),
        flat < shape_size(shape),
    ensures
        flat_index(shape, multi_index(shape, flat)) == flat,
    decreases shape.len(),
{
    if shape.len() > 0 {
        let s = shape.drop_last();
        let d = shape.last() as nat;
        let a = shape_size(s);
        assert(shape[shape.len() - 1] > 0);
        assert(flat / d < a) by (nonlinear_arith)
            requires
                flat < a * d,
                d > 0,
        ;
        assert(positive(s)) by {
            assert forall|i: int| 0 <= i < s.len() implies #[trigger] s[i] > 0 by {
                assert(shape[i] > 0);
            }
        }
        lemma_flat_of_multi(s, flat / d);
        let head = multi_index(s, flat / d);
        let m = multi_index(shape, flat);
        assert(m.drop_last() =~= head);
        assert(flat % d < d) by (nonlinear_arith)
            requires
                d > 0,
        ;
        assert(m.last() == (flat % d) as usize);
        lemma_fundamental_div_mod(flat as int, d as int);
        assert((flat / d) * d == d * (flat / d)) by (nonlinear_arith);
    }
}

/// Encoding an in-bounds multi-index and decoding it again gives the
/// multi-index back.
pub proof fn lemma_multi_of_flat(shape: Seq<usize>, idx: Seq<usize>)
    requires
        in_bounds(shape, idx),
    ensures
        multi_index(shape, flat_index(shape, idx)) =~= idx,
    decreases shape.len(),
{
    if shape.len() > 0 {
        let s = shape.drop_last();
        let x = idx.drop_last();
        assert(in_bounds(s, x)) by {
            assert forall|i: int| 0 <= i < s.len() implies #[trigger] x[i] < s[i] by {
                assert(idx[i] < shape[i]);
            }
        }
        lemma_multi_of_flat(s, x);
        let f = flat_index(s, x);
        let d = shape.last() as nat;
        let i = idx.last() as nat;
        assert(idx[shape.len() - 1] < shape[shape.len() - 1]);
        let flat = flat_index(shape, idx);
        assert(flat == d * f + i) by (nonlinear_arith)
            requires
                flat == f * d + i,
        ;
        lemma_fundamental_div_mod_converse(flat as int, d as int, f as int, i as int);
        assert(flat / d == f);
        assert(flat % d == i);
    }
}

/// The flat position of a multi-index over two groups of axes: the position
/// within the first group times the size of the second, plus the position
/// within the second.
pub proof fn lemma_flat_index_concat(
    outer: Seq<usize>,
    inner: Seq<usize>,
    at_outer: Seq<usize>,
    at_inner: Seq<usize>,
)
    requires
        at_outer.len() == outer.len(),
        at_inner.len() == inner.len(),
    ensures
        flat_index(outer + inner, at_outer + at_inner) == flat_index(outer, at_outer) * shape_size(
            inner,
        ) + flat_index(inner, at_inner),
    decreases inner.len(),
{
    let a = flat_index(outer, at_outer);
    if inner.len() == 0 {
        assert(outer + inner =~= outer);
        assert(at_outer + at_inner =~= at_outer);
        assert(shape_size(inner) == 1);
        assert(flat_index(inner, at_inner) == 0);
        assert(a * 1 + 0 == a);
    } else {
        let shape = outer + inner;
        let at = at_outer + at_inner;
        lemma_flat_index_concat(outer, inner.drop_last(), at_outer, at_inner.drop_last());
        assert(shape.drop_last() =~= outer + inner.drop_last());
        assert(at.drop_last() =~= at_outer + at_inner.drop_last());
        assert(shape.last() == inner.last());
        assert(at.last() == at_inner.last());
        let s = shape_size(inner.drop_last());
        let f = flat_index(inner.drop_last(), at_inner.drop_last());
        let d = inner.last() as nat;
        let x = at_inner.last() as nat;
        assert(flat_index(shape, at) == flat_index(shape.drop_last(), at.drop_last()) * d + x);
        assert(shape_size(inner) == s * d);
        assert(flat_index(inner, at_inner) == f * d + x);
        assert((a * s + f) * d + x == a * (s * d) + (f * d + x)) by (nonlinear_arith);
    }
}

/// Restricting an in-bounds multi-index to the first `n` axes keeps it in
/// bounds.
pub proof fn lemma_prefix_in_bounds(shape: Seq<usize>, idx: Seq<usize>, n: int)
    requires
        in_bounds(shape, idx),
        0 <= n <= shape.len(),
    ensures
        in_bounds(shape.take(n), idx.take(n)),
{
    assert forall|i: int| 0 <= i < n implies #[trigger] idx.take(n)[i] < shape.take(n)[i] by {
        assert(idx[i] < shape[i]);
    }
}

/// Whether every extent is at least one.
pub fn all_positive(shape: &[usize]) -> (ok: bool)
    ensures
        ok == positive(shape@),
{
    let mut i: usize = 0;
    while i < shape.len()
        invariant
            i <= shape.len(),
            forall|j: int| 0 <= j < i ==> #[trigger] shape@[j] > 0,
        decreases shape.len() - i,
    {
        if shape[i] == 0 {
            return false;
        }
        i += 1;
    }
    true
}

/// The product of the extents, or `None` when it does not fit the machine
/// word.
pub fn checked_size(shape: &[usize]) -> (size: Option<usize>)
    requires
        positive(shape@),
    ensures
        match size {
            Some(s) => s == shape_size(shape@),
            None => shape_size(shape@) > usize::MAX,
        },
{
    let mut acc: usize = 1;
    let mut i: usize = 0;
    assert(shape@.take(0) =~= Seq::<usize>::empty());
    while i < shape.len()
        invariant
            positive(shape@),
            i <= shape.len(),
            acc == shape_size(shape@.take(i as int)),
        decreases shape.len() - i,
    {
        proof {
            let next = shape@.take(i as int + 1);
            assert(next.drop_last() =~= shape@.take(i as int));
            assert(next.last() == shape@[i as int]);
            lemma_prefix_size(shape@, i as int + 1);
        }
        match acc.checked_mul(shape[i]) {
            Some(p) => {
                acc = p;
            },
            None => {
                return None;
            },
        }
        i += 1;
    }
    assert(shape@.take(i as int) =~= shape@);
    Some(acc)
}

/// The flat position of an in-bounds multi-index.
pub fn ravel(shape: &[usize], idx: &[usize]) -> (flat: usize)
    requires
        positive(shape@),
        in_bounds(shape@, idx@),
        shape_size(shape@) <= usize::MAX,
    ensures
        flat == flat_index(shape@, idx@),
        flat < shape_size(shape@),
{
    let mut acc: usize = 0;
    let mut i: usize = 0;
    assert(shape@.take(0) =~= Seq::<usize>::empty());
    while i < shape.len()
        invariant
            positive(shape@),
            in_bounds(shape@, idx@),
            shape_size(shape@) <= usize::MAX,
            i <= shape.len(),
            acc == flat_index(shape@.take(i as int), idx@.take(i as int)),
        decreases shape.len() - i,
    {
        proof {
            let s1 = shape@.take(i as int + 1);
            let x1 = idx@.take(i as int + 1);
            assert(s1.drop_last() =~= shape@.take(i as int));
            assert(x1.drop_last() =~= idx@.take(i as int));
            assert(s1.last() == shape@[i as int]);
            assert(x1.last() == idx@[i as int]);
            lemma_prefix_in_bounds(shape@, idx@, i as int + 1);
            lemma_flat_index_bound(s1, x1);
            lemma_prefix_size(shape@, i as int + 1);
            assert(flat_index(s1, x1) == acc * shape@[i as int] + idx@[i as int]);
            assert(acc * shape@[i as int] >= 0) by (nonlinear_arith)
                requires
                    acc >= 0,
                    shape@[i as int] >= 0,
            ;
        }
        acc = acc * shape[i] + idx[i];
        i += 1;
    }
    proof {
        assert(shape@.take(i as int) =~= shape@);
        assert(idx@.take(i as int) =~= idx@);
        lemma_flat_index_bound(shape@, idx@);
    }
    acc
}

/// A vector of `n` zeros.
pub fn zero_index(n: usize) -> (idx: Vec<usize>)
    ensures
        idx@ == Seq::new(n as nat, |i: int| 0usize),
{
    let mut out: Vec<usize> = Vec::new();
    let mut i: usize = 0;
    while i < n
        invariant
            i <= n,
            out@ =~= Seq::new(i as nat, |j: int| 0usize),
        decreases n - i,
    {
        out.push(0);
        i += 1;
    }
    out
}

/// The multi-index at a flat position.
pub fn unravel(shape: &[usize], flat: usize) -> (idx: Vec<usize>)
    requires
        positive(shape@),
    ensures
        idx@ == multi_index(shape@, flat as nat),
{
    let n = shape.len();
    let mut out = zero_index(n);
    let mut rem: usize = flat;
    let mut i: usize = n;
    proof {
        assert(shape@.take(n as int) =~= shape@);
        assert(multi_index(shape@, flat as nat) + out@.skip(n as int) =~= multi_index(
            shape@,
            flat as nat,
        ));
    }
    while i > 0
        invariant
            positive(shape@),
            n == shape.len(),
            out.len() == n,
            i <= n,
            multi_index(shape@, flat as nat) =~= multi_index(shape@.take(i as int), rem as nat)
                + out@.skip(i as int),
        decreases i,
    {
        let d = shape[i - 1];
        assert(d > 0);
        let digit = rem % d;
        proof {
            let s = shape@.take(i as int);
            assert(s.drop_last() =~= shape@.take(i as int - 1));
            assert(s.last() == d);
            lemma_multi_index_len(shape@.take(i as int - 1), (rem / d) as nat);
            lemma_multi_index_len(s, rem as nat);
            let head = multi_index(shape@.take(i as int - 1), (rem / d) as nat);
            assert(multi_index(s, rem as nat) == head.push(digit));
            assert(head.push(digit) + out@.skip(i as int) =~= head + out@.update(
                i as int - 1,
                digit,
            ).skip(i as int - 1));
        }
        out.set(i - 1, digit);
        rem = rem / d;
        i -= 1;
    }
    proof {
        assert(shape@.take(0) =~= Seq::<usize>::empty());
        assert(multi_index(shape@.take(0), rem as nat) + out@.skip(0) =~= out@);
    }
    out
}

} // verus!
