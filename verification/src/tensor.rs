//! The tensor type and its two factory constructors.

use vstd::prelude::*;

use crate::element::TensorNumber;
use crate::layout::{
    flat_offset, lemma_flat_offset_in_bounds, locate, product, shape_size,
};
use vstd::pervasive::VecAdditionalExecFns;

verus! {

/// Why `eye` refuses a shape.
#[derive(Clone, Copy, Debug, PartialEq, Eq, Structural)]
pub enum ShapeError {
    /// The extents are not all equal, so the generalized diagonal walk would
    /// leave the smaller dimensions' range.
    NonUniformDiagonal,
}

/// All extents equal: every dimension has the extent of dimension 0.
/// Rank-0 and rank-1 shapes are uniform by construction.
pub open spec fn uniform(extents: Seq<usize>) -> bool {
    forall|k: int| 0 <= k < extents.len() ==> #[trigger] extents[k] == extents[0]
}

/// How many entries the generalized diagonal of a uniform shape has: the
/// shared extent. A rank-0 shape has no diagonal entry at all.
pub open spec fn diag_count(extents: Seq<usize>) -> int {
    if extents.len() == 0 {
        0
    } else {
        extents[0] as int
    }
}

/// The coordinate with every dimension's index set to `i`.
pub open spec fn diag_coord(rank: nat, i: usize) -> Seq<usize> {
    Seq::new(rank, |k: int| i)
}

/// Offset `j` is hit by one of the first `m` diagonal writes.
pub open spec fn on_diag_upto(extents: Seq<usize>, j: int, m: int) -> bool {
    exists|i: usize|
        (i as int) < m && j == #[trigger] flat_offset(extents, diag_coord(extents.len(), i))
}

/// Offset `j` lies on the generalized diagonal: it is the flat offset of a
/// coordinate whose indices are all equal and under dimension 0's extent —
/// on the uniform shapes `eye` accepts, under every extent.
pub open spec fn on_diag(extents: Seq<usize>, j: int) -> bool {
    on_diag_upto(extents, j, diag_count(extents))
}

/// Fundamental tensor type: a flat, contiguous buffer in row-major,
/// dimension-0-fastest order, and the extent of each dimension.
#[derive(Debug)]
pub struct Tensor<T> {
    pub data: Vec<T>,
    pub shape: Vec<usize>,
}

impl<T: TensorNumber> Tensor<T> {
    /// The buffer holds exactly one element per addressable coordinate.
    pub open spec fn wf(self) -> bool {
        self.data@.len() == product(self.shape@)
    }

    /// What `fill` returns: the shape copied exactly, and every element of
    /// the buffer equal to the given value.
    pub open spec fn is_fill_of(self, extents: Seq<usize>, value: T) -> bool {
        &&& self.shape@ == extents
        &&& self.data@.len() == product(extents)
        &&& forall|j: int| 0 <= j < self.data@.len() ==> self.data@[j] == value
    }

    /// What `eye` returns: the shape copied exactly, zero() everywhere but
    /// on the generalized diagonal, and one() there.
    pub open spec fn is_eye_of(self, extents: Seq<usize>) -> bool {
        &&& self.shape@ == extents
        &&& self.data@.len() == product(extents)
        &&& forall|j: int|
            0 <= j < self.data@.len() ==> self.data@[j] == (if on_diag(extents, j) {
                T::spec_one()
            } else {
                T::spec_zero()
            })
    }

    /// Fill a new Tensor with the value, using the given shape.
    ///
    /// Any shape is accepted: rank 0 gives a single-element scalar buffer,
    /// a zero extent gives an empty buffer. The only limit is the machine's:
    /// the element count must fit in `usize`.
    pub fn fill(shape: &Vec<usize>, value: T) -> (r: Self)
        requires
            product(shape@) <= usize::MAX as int,
        ensures
            r.is_fill_of(shape@, value),
            r.wf(),
    {
        let size = shape_size(shape);
        let mut data: Vec<T> = Vec::new();
        let mut j: usize = 0;
        while j < size
            invariant
                0 <= j <= size,
                data@.len() == j,
                forall|m: int| 0 <= m < data@.len() ==> data@[m] == value,
            decreases size - j,
        {
            data.push(value);
            j = j + 1;
        }
        Tensor { data, shape: copy_extents(shape) }
    }

    /// Create a new Tensor with the shape, with one() set along the
    /// generalized diagonal and zero() everywhere else.
    ///
    /// The diagonal walk writes the coordinate `(i, i, ..., i)` for every
    /// `i` under the shared extent, which is in range only when all extents
    /// are equal; a shape with unequal extents is therefore refused. A
    /// rank-0 shape is uniform and gets no diagonal write, so it yields a
    /// scalar holding zero().
    pub fn eye(shape: &Vec<usize>) -> (r: Result<Self, ShapeError>)
        requires
            uniform(shape@) ==> product(shape@) <= usize::MAX as int,
        ensures
            match r {
                Ok(t) => uniform(shape@) && t.is_eye_of(shape@),
                Err(e) => !uniform(shape@) && e == ShapeError::NonUniformDiagonal,
            },
    {
        if !extents_uniform(shape) {
            return Err(ShapeError::NonUniformDiagonal);
        }
        let rank = shape.len();
        let mut tensor = Self::fill(shape, T::zero());
        let n: usize = if rank == 0 {
            0
        } else {
            shape[0]
        };
        let mut i: usize = 0;
        while i < n
            invariant
                0 <= i <= n,
                rank == shape@.len(),
                uniform(shape@),
                n as int == diag_count(shape@),
                product(shape@) <= usize::MAX as int,
                tensor.shape@ == shape@,
                tensor.data@.len() == product(shape@),
                forall|j: int|
                    0 <= j < tensor.data@.len() ==> tensor.data@[j] == (if on_diag_upto(
                        shape@,
                        j,
                        i as int,
                    ) {
                        T::spec_one()
                    } else {
                        T::spec_zero()
                    }),
            decreases n - i,
        {
            let ti = const_coord(rank, i);
            proof {
                assert(forall|k: int| 0 <= k < ti@.len() ==> ti@[k] < shape@[k]);
                lemma_flat_offset_in_bounds(shape@, ti@);
            }
            let ghost prev = tensor.data@;
            let ghost off = flat_offset(shape@, ti@);
            tensor.set(&ti, T::one());
            proof {
                assert forall|j: int| 0 <= j < tensor.data@.len() implies tensor.data@[j] == (
                if on_diag_upto(shape@, j, i as int + 1) {
                    T::spec_one()
                } else {
                    T::spec_zero()
                }) by {
                    if j == off {
                        assert(flat_offset(shape@, diag_coord(shape@.len(), i)) == off);
                        assert(on_diag_upto(shape@, j, i as int + 1));
                    } else {
                        assert(tensor.data@[j] == prev[j]);
                        if on_diag_upto(shape@, j, i as int + 1) {
                            let i0 = choose|i0: usize|
                                (i0 as int) < i as int + 1 && j == #[trigger] flat_offset(
                                    shape@,
                                    diag_coord(shape@.len(), i0),
                                );
                            assert(i0 != i);
                            assert(on_diag_upto(shape@, j, i as int));
                        }
                    }
                }
            }
            i = i + 1;
        }
        Ok(tensor)
    }

    /// Set the value at the given tensor index.
    ///
    /// The primitive itself performs no bounds validation; the requires
    /// clauses make every caller discharge the range obligation statically,
    /// so an out-of-range write cannot be compiled into the library.
    fn set(&mut self, ti: &Vec<usize>, value: T)
        requires
            old(self).wf(),
            ti@.len() == old(self).shape@.len(),
            forall|k: int| 0 <= k < ti@.len() ==> ti@[k] < old(self).shape@[k],
        ensures
            final(self).shape@ == old(self).shape@,
            final(self).data@ == old(self).data@.update(
                flat_offset(old(self).shape@, ti@),
                value,
            ),
    {
        // A buffer length is a usize, so the element count it equals fits in
        // one; locate needs that bound.
        let _count = self.data.len();
        let true_idx = locate(&self.shape, ti);
        self.data.set(true_idx, value);
    }
}

/// Construction is referentially transparent: any two tensors meeting
/// `fill`'s contract for the same shape and value agree in data and shape.
/// Independent calls share no state, so constructing and reading back is
/// idempotent — a later call cannot observe or disturb an earlier one.
pub proof fn lemma_fill_deterministic<T: TensorNumber>(
    a: Tensor<T>,
    b: Tensor<T>,
    extents: Seq<usize>,
    value: T,
)
    requires
        a.is_fill_of(extents, value),
        b.is_fill_of(extents, value),
    ensures
        a.data@ == b.data@,
        a.shape@ == b.shape@,
{
    assert(a.data@ =~= b.data@);
}

/// The same, for `eye`: its contract pins every element, so any two tensors
/// meeting it for one shape agree in data and shape.
pub proof fn lemma_eye_deterministic<T: TensorNumber>(
    a: Tensor<T>,
    b: Tensor<T>,
    extents: Seq<usize>,
)
    requires
        a.is_eye_of(extents),
        b.is_eye_of(extents),
    ensures
        a.data@ == b.data@,
        a.shape@ == b.shape@,
{
    assert(a.data@ =~= b.data@);
}

/// On a rank-1 shape `[n]`, every position lies on the generalized
/// diagonal, so `eye` sets the whole buffer to one().
pub proof fn lemma_eye_rank1<T: TensorNumber>(t: Tensor<T>, n: usize)
    requires
        t.is_eye_of(seq![n]),
    ensures
        t.data@.len() == n,
        forall|j: int| 0 <= j < n ==> t.data@[j] == T::spec_one(),
{
    let s = seq![n];
    assert(s.skip(1) =~= Seq::<usize>::empty());
    assert(product(Seq::<usize>::empty()) == 1);
    assert(product(s) == n * 1);
    assert forall|j: int| 0 <= j < n implies t.data@[j] == T::spec_one() by {
        let i = j as usize;
        assert(diag_coord(s.len(), i) =~= seq![i]);
        assert(seq![i].skip(1) =~= Seq::<usize>::empty());
        assert(flat_offset(Seq::<usize>::empty(), Seq::<usize>::empty()) == 0);
        assert(flat_offset(s, diag_coord(s.len(), i)) == i + n * 0);
        assert(on_diag(s, j));
    }
}

/// Two coordinates under a shared extent reach the same flat position of a
/// square matrix only if they are the same coordinate.
proof fn lemma_square_offset_unique(n: int, r: int, c: int, x: int, y: int)
    by (nonlinear_arith)
    requires
        0 <= r < n,
        0 <= c < n,
        0 <= x < n,
        0 <= y < n,
        r + c * n == x + y * n,
    ensures
        r == x,
        c == y,
{
}

/// The flat offset of `(a, b)` in a square `[n, n]` shape is `a + b * n`:
/// dimension 0 is the contiguous axis, dimension 1 has stride `n`.
pub proof fn lemma_square_offset(n: usize, a: usize, b: usize)
    ensures
        flat_offset(seq![n, n], seq![a, b]) == a + b * n,
{
    let s = seq![n, n];
    let c = seq![a, b];
    assert(s.skip(1) =~= seq![n]);
    assert(c.skip(1) =~= seq![b]);
    assert(seq![n].skip(1) =~= Seq::<usize>::empty());
    assert(seq![b].skip(1) =~= Seq::<usize>::empty());
    assert(flat_offset(Seq::<usize>::empty(), Seq::<usize>::empty()) == 0);
    assert(flat_offset(seq![n], seq![b]) == b + n * 0);
    assert(flat_offset(s, c) == a + n * b);
    assert(n * b == b * n) by (nonlinear_arith);
}

/// Every flat position of a square `[n, n]` layout is reached by a
/// coordinate under the extent: offset `j` decomposes as `r + c * n` with
/// both `r` and `c` under `n`. Together with the elementwise statement this
/// pins the whole buffer read in flat order.
pub proof fn lemma_square_offset_decompose(n: usize, j: int) -> (rc: (int, int))
    requires
        n > 0,
        0 <= j < n * n,
    ensures
        0 <= rc.0 < n,
        0 <= rc.1 < n,
        j == rc.0 + rc.1 * n,
{
    let d = n as int;
    let r = j % d;
    let c = j / d;
    vstd::arithmetic::div_mod::lemma_fundamental_div_mod(j, d);
    vstd::arithmetic::div_mod::lemma_mod_bound(j, d);
    vstd::arithmetic::div_mod::lemma_div_pos_is_pos(j, d);
    if c >= d {
        assert(d * c >= d * d) by (nonlinear_arith)
            requires
                d > 0,
                c >= d,
        ;
        assert(false);
    }
    assert(j == r + c * d) by (nonlinear_arith)
        requires
            j == d * c + r,
    ;
    (r, c)
}

/// On a square rank-2 shape `[n, n]`, the buffer read in flat order is the
/// row-major identity-matrix pattern of the dimension-0-fastest convention:
/// position `(r, c)` lives at offset `r + c * n`, and that element is one()
/// exactly when `r == c`, zero() everywhere else.
pub proof fn lemma_eye_matrix<T: TensorNumber>(t: Tensor<T>, n: usize, r: usize, c: usize)
    requires
        t.is_eye_of(seq![n, n]),
        r < n,
        c < n,
    ensures
        t.data@.len() == n * n,
        0 <= r + c * n < n * n,
        t.data@[r + c * n] == (if r == c {
            T::spec_one()
        } else {
            T::spec_zero()
        }),
{
    let s = seq![n, n];
    assert(s.skip(1) =~= seq![n]);
    assert(seq![n].skip(1) =~= Seq::<usize>::empty());
    assert(product(Seq::<usize>::empty()) == 1);
    assert(product(seq![n]) == n * 1);
    assert(product(s) == n * (n * 1));
    assert(n * (n * 1) == n * n) by (nonlinear_arith);
    let j = r + c * n;
    assert(0 <= j < n * n) by (nonlinear_arith)
        requires
            0 <= r < n,
            0 <= c < n,
            j == r + c * n,
    ;
    lemma_square_offset(n, r, c);
    assert(diag_coord(s.len(), r) =~= seq![r, r]);
    if r == c {
        assert(flat_offset(s, diag_coord(s.len(), r)) == j);
        assert(on_diag(s, j));
    } else {
        if on_diag(s, j) {
            let i = choose|i: usize|
                (i as int) < diag_count(s) && j == #[trigger] flat_offset(
                    s,
                    diag_coord(s.len(), i),
                );
            assert(diag_coord(s.len(), i) =~= seq![i, i]);
            lemma_square_offset(n, i, i);
            lemma_square_offset_unique(n as int, r as int, c as int, i as int, i as int);
            assert(false);
        }
    }
}

/// Whether all extents are equal, checked against dimension 0's extent.
fn extents_uniform(shape: &Vec<usize>) -> (r: bool)
    ensures
        r == uniform(shape@),
{
    let len = shape.len();
    if len == 0 {
        return true;
    }
    let first = shape[0];
    let mut k: usize = 1;
    while k < len
        invariant
            1 <= k <= len,
            len == shape@.len(),
            first == shape@[0],
            forall|j: int| 0 <= j < k ==> #[trigger] shape@[j] == shape@[0],
        decreases len - k,
    {
        if shape[k] != first {
            return false;
        }
        k = k + 1;
    }
    true
}

/// A freshly allocated copy of the extents.
fn copy_extents(shape: &Vec<usize>) -> (r: Vec<usize>)
    ensures
        r@ == shape@,
{
    let len = shape.len();
    let mut r: Vec<usize> = Vec::new();
    let mut k: usize = 0;
    while k < len
        invariant
            0 <= k <= len,
            len == shape@.len(),
            r@ =~= shape@.take(k as int),
        decreases len - k,
    {
        r.push(shape[k]);
        k = k + 1;
    }
    proof {
        assert(shape@.take(len as int) =~= shape@);
    }
    r
}

/// The coordinate `(i, i, ..., i)` of the given rank.
fn const_coord(rank: usize, i: usize) -> (r: Vec<usize>)
    ensures
        r@ == diag_coord(rank as nat, i),
{
    let mut r: Vec<usize> = Vec::new();
    let mut k: usize = 0;
    while k < rank
        invariant
            0 <= k <= rank,
            r@.len() == k,
            forall|j: int| 0 <= j < r@.len() ==> r@[j] == i,
        decreases rank - k,
    {
        r.push(i);
        k = k + 1;
    }
    proof {
        assert(r@ =~= diag_coord(rank as nat, i));
    }
    r
}

} // verus!
