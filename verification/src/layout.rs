//! Row-major, dimension-0-fastest flat addressing.
//!
//! A shape is an ordered sequence of non-negative extents, one per dimension,
//! dimension 0 first. The stride of dimension `k` is the product of all
//! extents strictly before `k`, so dimension 0 is the fastest-varying,
//! contiguous axis. `flat_offset` states the resulting coordinate-to-offset
//! map in Horner form; `locate` computes it.

use vstd::prelude::*;

verus! {

/// Number of elements a shape addresses: the product of its extents.
/// The empty product is 1, so a rank-0 shape addresses a single scalar.
pub open spec fn product(extents: Seq<usize>) -> int
    decreases extents.len(),
{
    if extents.len() == 0 {
        1
    } else {
        extents[0] * product(extents.skip(1))
    }
}

/// Flat offset of a coordinate under the dimension-0-fastest convention:
/// `offset(C) = c0 + s0 * (c1 + s1 * (c2 + ...))`, which equals the strided
/// sum `sum_k c(k) * stride(k)` with `stride(k) = s0 * ... * s(k-1)`.
pub open spec fn flat_offset(extents: Seq<usize>, coord: Seq<usize>) -> int
    recommends
        coord.len() == extents.len(),
    decreases coord.len(),
{
    if coord.len() == 0 {
        0
    } else {
        coord[0] + extents[0] * flat_offset(extents.skip(1), coord.skip(1))
    }
}

/// A product of extents is never negative.
pub proof fn lemma_product_nonneg(extents: Seq<usize>)
    ensures
        product(extents) >= 0,
    decreases extents.len(),
{
    if extents.len() > 0 {
        lemma_product_nonneg(extents.skip(1));
        assert(extents[0] * product(extents.skip(1)) >= 0) by (nonlinear_arith)
            requires
                extents[0] >= 0,
                product(extents.skip(1)) >= 0,
        ;
    }
}

/// A shape with a zero extent addresses no elements at all.
pub proof fn lemma_product_zero(extents: Seq<usize>, k: int)
    requires
        0 <= k < extents.len(),
        extents[k] == 0,
    ensures
        product(extents) == 0,
    decreases extents.len(),
{
    if k == 0 {
        assert(0 * product(extents.skip(1)) == 0) by (nonlinear_arith);
    } else {
        lemma_product_zero(extents.skip(1), k - 1);
        assert(extents[0] * 0 == 0) by (nonlinear_arith);
    }
}

/// A shape whose extents are all positive addresses at least one element.
pub proof fn lemma_product_pos(extents: Seq<usize>)
    requires
        forall|k: int| 0 <= k < extents.len() ==> extents[k] >= 1,
    ensures
        product(extents) >= 1,
    decreases extents.len(),
{
    if extents.len() > 0 {
        assert(forall|k: int| 0 <= k < extents.skip(1).len() ==> #[trigger] extents.skip(1)[k]
            >= 1);
        lemma_product_pos(extents.skip(1));
        assert(extents[0] * product(extents.skip(1)) >= 1) by (nonlinear_arith)
            requires
                extents[0] >= 1,
                product(extents.skip(1)) >= 1,
        ;
    }
}

/// The product splits at any cut: extents before the cut times extents after.
pub proof fn lemma_product_split(extents: Seq<usize>, k: int)
    requires
        0 <= k <= extents.len(),
    ensures
        product(extents) == product(extents.take(k)) * product(extents.skip(k)),
    decreases k,
{
    if k == 0 {
        assert(extents.take(0) =~= Seq::<usize>::empty());
        assert(extents.skip(0) =~= extents);
        assert(1 * product(extents) == product(extents)) by (nonlinear_arith);
    } else {
        lemma_product_split(extents.skip(1), k - 1);
        assert(extents.skip(1).take(k - 1) =~= extents.take(k).skip(1));
        assert(extents.skip(1).skip(k - 1) =~= extents.skip(k));
        assert(extents.take(k)[0] == extents[0]);
        let e0 = extents[0] as int;
        let a = product(extents.take(k).skip(1));
        let b = product(extents.skip(k));
        assert(product(extents) == e0 * (a * b));
        assert(product(extents.take(k)) == e0 * a);
        assert(e0 * (a * b) == (e0 * a) * b) by (nonlinear_arith);
    }
}

/// Peeling one extent off the front of a suffix.
pub proof fn lemma_product_skip_succ(extents: Seq<usize>, k: int)
    requires
        0 <= k < extents.len(),
    ensures
        product(extents.skip(k)) == extents[k] * product(extents.skip(k + 1)),
{
    assert(extents.skip(k)[0] == extents[k]);
    assert(extents.skip(k).skip(1) =~= extents.skip(k + 1));
}

/// Extending a prefix by one extent multiplies its product by that extent.
pub proof fn lemma_product_take_succ(extents: Seq<usize>, k: int)
    requires
        0 <= k < extents.len(),
    ensures
        product(extents.take(k + 1)) == product(extents.take(k)) * extents[k],
{
    let p = extents.take(k + 1);
    lemma_product_split(p, k);
    assert(p.take(k) =~= extents.take(k));
    assert(p.skip(k) =~= seq![extents[k]]);
    assert(seq![extents[k]].skip(1) =~= Seq::<usize>::empty());
    assert(product(Seq::<usize>::empty()) == 1);
    assert(product(seq![extents[k]]) == extents[k] as int * 1);
    assert(product(extents.take(k)) * (extents[k] as int * 1) == product(extents.take(k))
        * extents[k]) by (nonlinear_arith);
}

/// One Horner step stays under the product of the extents consumed so far.
proof fn lemma_horner_step(c: int, s: int, idx: int, p: int)
    by (nonlinear_arith)
    requires
        0 <= c < s,
        0 <= idx < p,
    ensures
        0 <= c + s * idx,
        c + s * idx < s * p,
{
}

/// An in-range coordinate maps to an in-range flat offset: the heart of the
/// addressing scheme's safety.
pub proof fn lemma_flat_offset_in_bounds(extents: Seq<usize>, coord: Seq<usize>)
    requires
        coord.len() == extents.len(),
        forall|k: int| 0 <= k < coord.len() ==> coord[k] < extents[k],
    ensures
        0 <= flat_offset(extents, coord) < product(extents),
    decreases coord.len(),
{
    if coord.len() > 0 {
        assert(forall|k: int|
            0 <= k < coord.skip(1).len() ==> #[trigger] coord.skip(1)[k] < extents.skip(1)[k]);
        lemma_flat_offset_in_bounds(extents.skip(1), coord.skip(1));
        lemma_horner_step(
            coord[0] as int,
            extents[0] as int,
            flat_offset(extents.skip(1), coord.skip(1)),
            product(extents.skip(1)),
        );
    }
}

/// Number of elements the shape addresses, as a machine integer.
///
/// The two passes keep the arithmetic exact: a zero extent makes the product
/// zero outright, and otherwise every partial product is a divisor of the
/// final one, so none of the multiplications can overflow.
pub(crate) fn shape_size(shape: &Vec<usize>) -> (size: usize)
    requires
        product(shape@) <= usize::MAX as int,
    ensures
        size as int == product(shape@),
{
    let len = shape.len();
    let mut k: usize = 0;
    while k < len
        invariant
            0 <= k <= len,
            len == shape@.len(),
            forall|j: int| 0 <= j < k ==> shape@[j] >= 1,
        decreases len - k,
    {
        if shape[k] == 0 {
            proof {
                lemma_product_zero(shape@, k as int);
            }
            return 0;
        }
        k = k + 1;
    }
    let mut size: usize = 1;
    let mut idx: usize = 0;
    proof {
        assert(shape@.take(0) =~= Seq::<usize>::empty());
    }
    while idx < len
        invariant
            0 <= idx <= len,
            len == shape@.len(),
            forall|j: int| 0 <= j < len ==> shape@[j] >= 1,
            product(shape@) <= usize::MAX as int,
            size as int == product(shape@.take(idx as int)),
        decreases len - idx,
    {
        proof {
            let i = idx as int;
            lemma_product_take_succ(shape@, i);
            lemma_product_split(shape@, i + 1);
            assert(forall|j: int|
                0 <= j < shape@.skip(i + 1).len() ==> #[trigger] shape@.skip(i + 1)[j] >= 1);
            lemma_product_pos(shape@.skip(i + 1));
            lemma_product_nonneg(shape@.take(i + 1));
            assert(product(shape@.take(i + 1)) <= product(shape@)) by (nonlinear_arith)
                requires
                    product(shape@) == product(shape@.take(i + 1)) * product(shape@.skip(i + 1)),
                    product(shape@.take(i + 1)) >= 0,
                    product(shape@.skip(i + 1)) >= 1,
            ;
        }
        size = size * shape[idx];
        idx = idx + 1;
    }
    proof {
        assert(shape@.take(len as int) =~= shape@);
    }
    size
}

/// Flat offset of the coordinate `ti` in a buffer laid out for `shape`.
///
/// The requires clauses discharge the range obligation statically: every
/// coordinate lies under its dimension's extent, so the returned offset is
/// in bounds by construction and the primitive needs no runtime check.
pub(crate) fn locate(shape: &Vec<usize>, ti: &Vec<usize>) -> (off: usize)
    requires
        ti@.len() == shape@.len(),
        forall|k: int| 0 <= k < ti@.len() ==> ti@[k] < shape@[k],
        product(shape@) <= usize::MAX as int,
    ensures
        off as int == flat_offset(shape@, ti@),
        off < product(shape@),
{
    let len = ti.len();
    let mut off: usize = 0;
    let mut k: usize = len;
    proof {
        assert(shape@.skip(len as int) =~= Seq::<usize>::empty());
        assert(ti@.skip(len as int) =~= Seq::<usize>::empty());
    }
    while k > 0
        invariant
            0 <= k <= len,
            len == ti@.len(),
            ti@.len() == shape@.len(),
            forall|j: int| 0 <= j < ti@.len() ==> ti@[j] < shape@[j],
            product(shape@) <= usize::MAX as int,
            off as int == flat_offset(shape@.skip(k as int), ti@.skip(k as int)),
            (off as int) < product(shape@.skip(k as int)),
        decreases k,
    {
        let i = k - 1;
        proof {
            let j = i as int;
            assert(forall|m: int|
                0 <= m < shape@.skip(j).len() ==> #[trigger] shape@.skip(j)[m] >= 1);
            lemma_product_pos(shape@.skip(j));
            assert(forall|m: int|
                0 <= m < shape@.take(j).len() ==> #[trigger] shape@.take(j)[m] >= 1);
            lemma_product_pos(shape@.take(j));
            lemma_product_split(shape@, j);
            lemma_product_skip_succ(shape@, j);
            lemma_horner_step(
                ti@[j] as int,
                shape@[j] as int,
                off as int,
                product(shape@.skip(j + 1)),
            );
            assert(product(shape@.skip(j)) <= product(shape@)) by (nonlinear_arith)
                requires
                    product(shape@) == product(shape@.take(j)) * product(shape@.skip(j)),
                    product(shape@.take(j)) >= 1,
                    product(shape@.skip(j)) >= 0,
            ;
            assert(shape@.skip(j)[0] == shape@[j]);
            assert(ti@.skip(j)[0] == ti@[j]);
            assert(shape@.skip(j).skip(1) =~= shape@.skip(j + 1));
            assert(ti@.skip(j).skip(1) =~= ti@.skip(j + 1));
        }
        off = ti[i] + shape[i] * off;
        k = i;
    }
    proof {
        assert(shape@.skip(0) =~= shape@);
        assert(ti@.skip(0) =~= ti@);
    }
    off
}

} // verus!
