//! Shape and stride arithmetic: how a logical multi-index maps to a flat
//! offset into element storage.
//!
//! A layout pairs a `shape` (the extent of every axis) with `strides` (how
//! many storage elements separate two neighbours along every axis). All the
//! mathematics of indexing, contiguity, broadcasting, permutation and
//! slicing lives here; tensors merely pair a layout with storage.
use vstd::arithmetic::div_mod::{
    lemma_div_is_ordered_by_denominator, lemma_fundamental_div_mod, lemma_mod_bound,
};
use vstd::arithmetic::mul::lemma_mul_inequality;
use vstd::prelude::*;

use crate::errors::FromDataError;

verus! {

/// Product of every axis extent in `shape`: the number of logical elements.
pub open spec fn elem_count(shape: Seq<usize>) -> int
    decreases shape.len(),
{
    if shape.len() == 0 {
        1
    } else {
        shape[0] * elem_count(shape.skip(1))
    }
}

/// The flat offset named by `index`: the sum over every axis of
/// `index[d] * strides[d]`.
pub open spec fn offset_of(index: Seq<usize>, strides: Seq<usize>) -> int
    decreases index.len(),
{
    if index.len() == 0 {
        0
    } else {
        index[0] * strides[0] + offset_of(index.skip(1), strides.skip(1))
    }
}

/// Does `index` name a logical element of `shape`?
pub open spec fn index_in_bounds(index: Seq<usize>, shape: Seq<usize>) -> bool {
    &&& index.len() == shape.len()
    &&& forall|d: int| 0 <= d < index.len() ==> index[d] < shape[d]
}

/// The largest offset reachable by an in-bounds index, assuming every axis
/// is non-empty: the sum over every axis of `(shape[d] - 1) * strides[d]`.
pub open spec fn max_offset(shape: Seq<usize>, strides: Seq<usize>) -> int
    decreases shape.len(),
{
    if shape.len() == 0 {
        0
    } else {
        (shape[0] - 1) * strides[0] + max_offset(shape.skip(1), strides.skip(1))
    }
}

/// Storage elements needed to hold every offset the layout can reach:
/// zero when the layout has no elements, one past the largest offset
/// otherwise.
pub open spec fn min_storage_len(shape: Seq<usize>, strides: Seq<usize>) -> int {
    if elem_count(shape) == 0 {
        0
    } else {
        max_offset(shape, strides) + 1
    }
}

/// Row-major ("C order") contiguity: along every axis of extent other than
/// one, the stride equals the number of elements in the axes to its right.
/// Axes of extent one never separate two elements, so their stride is
/// irrelevant.
pub open spec fn is_contiguous_layout(shape: Seq<usize>, strides: Seq<usize>) -> bool {
    &&& shape.len() == strides.len()
    &&& forall|d: int|
        0 <= d < shape.len() && shape[d] != 1 ==> strides[d] == elem_count(shape.skip(d + 1))
}

/// The multi-index of the `k`-th element in row-major (logical) order:
/// the mixed-radix digits of `k` with respect to `shape`.
pub open spec fn unflatten_index(k: int, shape: Seq<usize>) -> Seq<usize>
    decreases shape.len(),
{
    if shape.len() == 0 {
        Seq::empty()
    } else {
        let tail = elem_count(shape.skip(1));
        seq![(k / tail) as usize] + unflatten_index(k % tail, shape.skip(1))
    }
}

/// A layout is well formed when its element count and every reachable
/// offset fit in `usize`.
pub open spec fn layout_wf(shape: Seq<usize>, strides: Seq<usize>) -> bool {
    &&& shape.len() == strides.len()
    &&& elem_count(shape) <= usize::MAX
    &&& min_storage_len(shape, strides) <= usize::MAX
}

/// Every axis extent is positive exactly when the element count is.
pub proof fn lemma_elem_count_pos(shape: Seq<usize>)
    ensures
        elem_count(shape) > 0 <==> (forall|d: int| 0 <= d < shape.len() ==> shape[d] > 0),
        elem_count(shape) >= 0,
    decreases shape.len(),
{
    if shape.len() > 0 {
        let head = shape[0] as int;
        let tail = elem_count(shape.skip(1));
        lemma_elem_count_pos(shape.skip(1));
        assert(elem_count(shape) == head * tail);
        assert(head >= 0 && tail >= 0);
        assert(head * tail > 0 <==> (head > 0 && tail > 0)) by (nonlinear_arith)
            requires head >= 0, tail >= 0;
        assert(head * tail >= 0) by (nonlinear_arith)
            requires head >= 0, tail >= 0;
        if elem_count(shape) > 0 {
            assert forall|d: int| 0 <= d < shape.len() implies shape[d] > 0 by {
                if d > 0 {
                    assert(shape.skip(1)[d - 1] == shape[d]);
                }
            }
        }
        if forall|d: int| 0 <= d < shape.len() ==> shape[d] > 0 {
            assert forall|d: int| 0 <= d < shape.skip(1).len() implies shape.skip(1)[d] > 0 by {
                assert(shape.skip(1)[d] == shape[d + 1]);
            }
            assert(elem_count(shape) > 0);
        }
    }
}

/// An in-bounds index of a non-empty layout reaches an offset between zero
/// and `max_offset`.
pub proof fn lemma_offset_bounded(index: Seq<usize>, shape: Seq<usize>, strides: Seq<usize>)
    requires
        index_in_bounds(index, shape),
        strides.len() == shape.len(),
        forall|d: int| 0 <= d < shape.len() ==> shape[d] > 0,
    ensures
        0 <= offset_of(index, strides) <= max_offset(shape, strides),
    decreases index.len(),
{
    if index.len() > 0 {
        lemma_offset_bounded(index.skip(1), shape.skip(1), strides.skip(1));
        lemma_mul_inequality(index[0] as int, shape[0] - 1, strides[0] as int);
        assert(index[0] * strides[0] >= 0) by (nonlinear_arith)
            requires index[0] >= 0, strides[0] >= 0;
    }
}

/// The trailing element counts never exceed the whole element count when
/// every axis is non-empty.
pub proof fn lemma_elem_count_skip_le(shape: Seq<usize>, d: int)
    requires
        0 <= d <= shape.len(),
        forall|i: int| 0 <= i < shape.len() ==> shape[i] > 0,
    ensures
        0 < elem_count(shape.skip(d)) <= elem_count(shape),
    decreases d,
{
    lemma_elem_count_pos(shape);
    lemma_elem_count_pos(shape.skip(d));
    if d == 0 {
        assert(shape.skip(0) =~= shape);
    }
    if d > 0 {
        lemma_elem_count_skip_le(shape, d - 1);
        let s1 = shape.skip(d - 1);
        assert(s1.skip(1) =~= shape.skip(d));
        assert forall|i: int| 0 <= i < s1.len() implies s1[i] > 0 by {
            assert(s1[i] == shape[d - 1 + i]);
        }
        lemma_elem_count_pos(s1);
        lemma_elem_count_pos(s1.skip(1));
        assert(elem_count(s1) == s1[0] * elem_count(s1.skip(1)));
        let head = s1[0] as int;
        let tail = elem_count(s1.skip(1));
        assert(head >= 1);
        assert(tail > 0);
        assert(head * tail >= tail) by (nonlinear_arith)
            requires head >= 1, tail > 0;
    }
}

/// The mixed-radix digits of `0 <= k < elem_count(shape)` name an in-bounds
/// index.
pub proof fn lemma_unflatten_in_bounds(k: int, shape: Seq<usize>)
    requires
        0 <= k < elem_count(shape),
    ensures
        index_in_bounds(unflatten_index(k, shape), shape),
    decreases shape.len(),
{
    if shape.len() > 0 {
        let tail = elem_count(shape.skip(1));
        lemma_elem_count_pos(shape);
        lemma_elem_count_pos(shape.skip(1));
        assert(tail > 0);
        assert(0 <= k / tail < shape[0]) by (nonlinear_arith)
            requires tail > 0, 0 <= k, k < shape[0] * tail;
        lemma_mod_bound(k, tail);
        lemma_unflatten_in_bounds(k % tail, shape.skip(1));
        let idx = unflatten_index(k, shape);
        assert(idx[0] == k / tail);
        assert forall|d: int| 0 < d < idx.len() implies idx[d] < shape[d] by {
            assert(idx[d] == unflatten_index(k % tail, shape.skip(1))[d - 1]);
            assert(shape[d] == shape.skip(1)[d - 1]);
        }
    }
}

/// Round trip of the layout arithmetic: over row-major strides, the offset
/// of the `k`-th logical index is `k` itself.
pub proof fn lemma_unflatten_offset(k: int, shape: Seq<usize>, strides: Seq<usize>)
    requires
        0 <= k < elem_count(shape),
        strides.len() == shape.len(),
        forall|d: int| 0 <= d < shape.len() ==> strides[d] == elem_count(shape.skip(d + 1)),
    ensures
        offset_of(unflatten_index(k, shape), strides) == k,
    decreases shape.len(),
{
    if shape.len() == 0 {
        assert(elem_count(shape) == 1);
    } else {
        let tail = elem_count(shape.skip(1));
        lemma_elem_count_pos(shape);
        lemma_elem_count_pos(shape.skip(1));
        assert(tail > 0);
        lemma_mod_bound(k, tail);
        assert forall|d: int| 0 <= d < shape.skip(1).len() implies strides.skip(1)[d] == elem_count(
            shape.skip(1).skip(d + 1),
        ) by {
            assert(strides.skip(1)[d] == strides[d + 1]);
            assert(shape.skip(1).skip(d + 1) =~= shape.skip(d + 2));
        }
        lemma_unflatten_offset(k % tail, shape.skip(1), strides.skip(1));
        let idx = unflatten_index(k, shape);
        assert(idx.skip(1) =~= unflatten_index(k % tail, shape.skip(1)));
        assert(strides[0] == tail) by {
            let zero: int = 0;
            assert(shape.skip(zero + 1) =~= shape.skip(1));
        }
        assert(0 <= k / tail < shape[0]) by (nonlinear_arith)
            requires tail > 0, 0 <= k, k < shape[0] * tail;
        assert(idx[0] == k / tail);
        lemma_fundamental_div_mod(k, tail);
        assert((k / tail) * tail == tail * (k / tail)) by (nonlinear_arith);
    }
}

} // verus!

verus! {

broadcast use vstd::array::group_array_axioms;

/// Whether a layout constructor accepts strides under which two distinct
/// indices may share a storage offset. Read-only views may alias safely;
/// mutable tensors must not.
#[derive(Clone, Copy, Debug)]
pub enum OverlapPolicy {
    AllowOverlap,
    DisallowOverlap,
}

/// Compact layout for a tensor with a static dimension count `N`.
#[derive(Clone, Copy, Debug)]
pub struct NdLayout<const N: usize> {
    pub shape: [usize; N],
    pub strides: [usize; N],
}

/// Over row-major strides the largest reachable offset of a non-empty
/// shape is one less than the element count.
pub proof fn lemma_contiguous_max_offset(shape: Seq<usize>, strides: Seq<usize>)
    requires
        strides.len() == shape.len(),
        forall|d: int| 0 <= d < shape.len() ==> shape[d] > 0,
        forall|d: int| 0 <= d < shape.len() ==> strides[d] == elem_count(shape.skip(d + 1)),
    ensures
        max_offset(shape, strides) == elem_count(shape) - 1,
    decreases shape.len(),
{
    lemma_elem_count_pos(shape);
    if shape.len() > 0 {
        let sh1 = shape.skip(1);
        let st1 = strides.skip(1);
        assert forall|d: int| 0 <= d < sh1.len() implies sh1[d] > 0 by {
            assert(sh1[d] == shape[d + 1]);
        }
        assert forall|d: int| 0 <= d < sh1.len() implies st1[d] == elem_count(sh1.skip(d + 1)) by {
            assert(st1[d] == strides[d + 1]);
            assert(sh1.skip(d + 1) =~= shape.skip(d + 2));
        }
        lemma_contiguous_max_offset(sh1, st1);
        let zero: int = 0;
        assert(shape.skip(zero + 1) =~= sh1);
        let head = shape[0] as int;
        let tail = elem_count(sh1);
        assert((head - 1) * tail + (tail - 1) == head * tail - 1) by (nonlinear_arith);
    }
}

impl<const N: usize> NdLayout<N> {
    /// The layout's reachable offsets and element count fit in `usize`.
    pub open spec fn wf(&self) -> bool {
        layout_wf(self.shape@, self.strides@)
    }

    /// True when the layout is row-major contiguous.
    pub open spec fn spec_contiguous(&self) -> bool {
        is_contiguous_layout(self.shape@, self.strides@)
    }

    /// Row-major strides for `shape`: along each axis, the element count of
    /// the axes to its right.
    pub fn contiguous_strides(shape: [usize; N]) -> (r: [usize; N])
        requires
            forall|d: int| 0 <= d <= N ==> elem_count(shape@.skip(d)) <= usize::MAX,
        ensures
            forall|d: int| 0 <= d < N ==> r@[d] == elem_count(shape@.skip(d + 1)),
    {
        let mut r = vstd::array::array_fill_for_copy_types::<usize, N>(1);
        let mut acc: usize = 1;
        let mut d: usize = N;
        proof {
            assert(shape@.skip(N as int) =~= Seq::<usize>::empty());
        }
        while d > 0
            invariant
                d <= N,
                acc == elem_count(shape@.skip(d as int)),
                forall|j: int| 0 <= j <= N ==> elem_count(shape@.skip(j)) <= usize::MAX,
                r@.len() == N,
                forall|j: int| d <= j < N ==> r@[j] == elem_count(shape@.skip(j + 1)),
            decreases d,
        {
            d = d - 1;
            r[d] = acc;
            proof {
                assert(shape@.skip(d as int).skip(1) =~= shape@.skip(d + 1));
                assert(shape@.skip(d as int)[0] == shape@[d as int]);
                assert(elem_count(shape@.skip(d as int)) == shape@[d as int] * elem_count(
                    shape@.skip(d + 1),
                ));
            }
            acc = shape[d] * acc;
        }
        r
    }

    /// Layout with row-major strides for `shape`.
    pub fn from_shape(shape: [usize; N]) -> (r: NdLayout<N>)
        requires
            forall|d: int| 0 <= d <= N ==> elem_count(shape@.skip(d)) <= usize::MAX,
        ensures
            r.shape@ == shape@,
            forall|d: int| 0 <= d < N ==> r.strides@[d] == elem_count(shape@.skip(d + 1)),
            r.wf(),
            r.spec_contiguous(),
            min_storage_len(r.shape@, r.strides@) == elem_count(shape@),
    {
        let strides = Self::contiguous_strides(shape);
        let r = NdLayout { shape, strides };
        proof {
            let zero: int = 0;
            assert(shape@.skip(zero) =~= shape@);
            lemma_elem_count_pos(shape@);
            if elem_count(shape@) > 0 {
                lemma_contiguous_max_offset(shape@, strides@);
            }
        }
        r
    }

    /// The number of logical elements the layout addresses.
    pub fn len(&self) -> (r: usize)
        requires
            self.wf(),
        ensures
            r == elem_count(self.shape@),
    {
        proof {
            lemma_elem_count_pos(self.shape@);
        }
        let mut d: usize = 0;
        while d < N
            invariant
                d <= N,
                forall|j: int| 0 <= j < d ==> self.shape@[j] > 0,
            decreases N - d,
        {
            if self.shape[d] == 0 {
                proof {
                    lemma_elem_count_pos(self.shape@);
                }
                return 0;
            }
            d = d + 1;
        }
        // Every axis is non-empty, so each trailing product stays within the
        // total element count and the accumulation cannot overflow.
        let mut acc: usize = 1;
        let mut e: usize = N;
        proof {
            assert(self.shape@.skip(N as int) =~= Seq::<usize>::empty());
        }
        while e > 0
            invariant
                e <= N,
                acc == elem_count(self.shape@.skip(e as int)),
                self.wf(),
                forall|j: int| 0 <= j < N ==> self.shape@[j] > 0,
            decreases e,
        {
            e = e - 1;
            proof {
                assert(self.shape@.skip(e as int).skip(1) =~= self.shape@.skip(e + 1));
                assert(self.shape@.skip(e as int)[0] == self.shape@[e as int]);
                lemma_elem_count_skip_le(self.shape@, e as int);
            }
            acc = self.shape[e] * acc;
        }
        proof {
            let zero: int = 0;
            assert(self.shape@.skip(zero) =~= self.shape@);
        }
        acc
    }

    /// The number of dimensions.
    pub fn ndim(&self) -> (r: usize)
        ensures
            r == N,
    {
        N
    }

    /// True when the layout addresses no elements.
    pub fn is_empty(&self) -> (r: bool)
        requires
            self.wf(),
        ensures
            r == (elem_count(self.shape@) == 0),
    {
        self.len() == 0
    }

    /// The extent of axis `dim`.
    pub fn size(&self, dim: usize) -> (r: usize)
        requires
            dim < N,
        ensures
            r == self.shape@[dim as int],
    {
        self.shape[dim]
    }

    /// The stride of axis `dim`.
    pub fn stride(&self, dim: usize) -> (r: usize)
        requires
            dim < N,
        ensures
            r == self.strides@[dim as int],
    {
        self.strides[dim]
    }
}

} // verus!

verus! {

/// Dropping leading axes never increases the largest reachable offset when
/// every axis is non-empty.
pub proof fn lemma_max_offset_skip_le(shape: Seq<usize>, strides: Seq<usize>, e: int)
    requires
        0 <= e <= shape.len(),
        strides.len() == shape.len(),
        forall|d: int| 0 <= d < shape.len() ==> shape[d] > 0,
    ensures
        0 <= max_offset(shape.skip(e), strides.skip(e)) <= max_offset(shape, strides),
    decreases e,
{
    assert forall|j: int| 0 <= j < shape.skip(e).len() implies shape.skip(e)[j] > 0 by {
        assert(shape.skip(e)[j] == shape[e + j]);
    }
    lemma_max_offset_nonneg(shape.skip(e), strides.skip(e));
    if e == 0 {
        assert(shape.skip(0) =~= shape);
        assert(strides.skip(0) =~= strides);
    } else {
        lemma_max_offset_skip_le(shape, strides, e - 1);
        let sh1 = shape.skip(e - 1);
        let st1 = strides.skip(e - 1);
        assert(sh1.skip(1) =~= shape.skip(e));
        assert(st1.skip(1) =~= strides.skip(e));
        assert(sh1[0] == shape[e - 1] && st1[0] == strides[e - 1]);
        assert(max_offset(sh1, st1) == (sh1[0] - 1) * st1[0] + max_offset(
            shape.skip(e),
            strides.skip(e),
        ));
        assert((sh1[0] - 1) * st1[0] >= 0) by (nonlinear_arith)
            requires sh1[0] >= 1, st1[0] >= 0;
    }
}

/// The largest reachable offset is never negative when every axis is
/// non-empty.
pub proof fn lemma_max_offset_nonneg(shape: Seq<usize>, strides: Seq<usize>)
    requires
        strides.len() == shape.len(),
        forall|d: int| 0 <= d < shape.len() ==> shape[d] > 0,
    ensures
        max_offset(shape, strides) >= 0,
    decreases shape.len(),
{
    if shape.len() > 0 {
        assert forall|d: int| 0 <= d < shape.skip(1).len() implies shape.skip(1)[d] > 0 by {
            assert(shape.skip(1)[d] == shape[d + 1]);
        }
        lemma_max_offset_nonneg(shape.skip(1), strides.skip(1));
        assert((shape[0] - 1) * strides[0] >= 0) by (nonlinear_arith)
            requires shape[0] >= 1, strides[0] >= 0;
    }
}

impl<const N: usize> NdLayout<N> {
    /// Map `index` to its storage offset, or `None` when any coordinate is
    /// out of bounds.
    pub fn try_offset(&self, index: [usize; N]) -> (r: Option<usize>)
        requires
            self.wf(),
        ensures
            match r {
                Some(off) => index_in_bounds(index@, self.shape@) && off == offset_of(
                    index@,
                    self.strides@,
                ),
                None => !index_in_bounds(index@, self.shape@),
            },
    {
        let mut d: usize = 0;
        while d < N
            invariant
                d <= N,
                forall|j: int| 0 <= j < d ==> index@[j] < self.shape@[j],
            decreases N - d,
        {
            if index[d] >= self.shape[d] {
                return None;
            }
            d = d + 1;
        }
        Some(self.offset(index))
    }

    /// Map an in-bounds `index` to its storage offset.
    pub fn offset(&self, index: [usize; N]) -> (r: usize)
        requires
            self.wf(),
            index_in_bounds(index@, self.shape@),
        ensures
            r == offset_of(index@, self.strides@),
    {
        proof {
            lemma_elem_count_pos(self.shape@);
        }
        let mut acc: usize = 0;
        let mut e: usize = N;
        proof {
            assert(index@.skip(N as int) =~= Seq::<usize>::empty());
            assert(self.strides@.skip(N as int) =~= Seq::<usize>::empty());
        }
        while e > 0
            invariant
                e <= N,
                self.wf(),
                index_in_bounds(index@, self.shape@),
                forall|j: int| 0 <= j < N ==> self.shape@[j] > 0,
                acc == offset_of(index@.skip(e as int), self.strides@.skip(e as int)),
            decreases e,
        {
            e = e - 1;
            proof {
                let sh = self.shape@;
                let st = self.strides@;
                assert(index@.skip(e as int).skip(1) =~= index@.skip(e + 1));
                assert(st.skip(e as int).skip(1) =~= st.skip(e + 1));
                assert(index@.skip(e as int)[0] == index@[e as int]);
                assert(st.skip(e as int)[0] == st[e as int]);
                assert forall|j: int| 0 <= j < sh.skip(e as int).len() implies index@.skip(
                    e as int,
                )[j] < sh.skip(e as int)[j] && sh.skip(e as int)[j] > 0 by {
                    assert(sh.skip(e as int)[j] == sh[e + j]);
                    assert(index@.skip(e as int)[j] == index@[e + j]);
                }
                lemma_offset_bounded(index@.skip(e as int), sh.skip(e as int), st.skip(e as int));
                lemma_max_offset_skip_le(sh, st, e as int);
                assert(offset_of(index@.skip(e as int), st.skip(e as int)) == index@[e as int] * st[
                    e as int
                ] + offset_of(index@.skip(e + 1), st.skip(e + 1)));
                assert(index@[e as int] * st[e as int] + acc <= max_offset(sh, st));
                lemma_elem_count_pos(sh);
                assert(min_storage_len(sh, st) == max_offset(sh, st) + 1);
                assert(max_offset(sh, st) + 1 <= usize::MAX);
            }
            acc = index[e] * self.strides[e] + acc;
        }
        proof {
            let zero: int = 0;
            assert(index@.skip(zero) =~= index@);
            assert(self.strides@.skip(zero) =~= self.strides@);
        }
        acc
    }

    /// The smallest storage length able to hold every offset the layout can
    /// reach.
    pub fn min_data_len(&self) -> (r: usize)
        requires
            self.wf(),
        ensures
            r == min_storage_len(self.shape@, self.strides@),
    {
        if self.len() == 0 {
            return 0;
        }
        proof {
            lemma_elem_count_pos(self.shape@);
        }
        let mut acc: usize = 0;
        let mut e: usize = N;
        proof {
            assert(self.shape@.skip(N as int) =~= Seq::<usize>::empty());
            assert(self.strides@.skip(N as int) =~= Seq::<usize>::empty());
        }
        while e > 0
            invariant
                e <= N,
                self.wf(),
                elem_count(self.shape@) > 0,
                forall|j: int| 0 <= j < N ==> self.shape@[j] > 0,
                acc == max_offset(self.shape@.skip(e as int), self.strides@.skip(e as int)),
            decreases e,
        {
            e = e - 1;
            proof {
                let sh = self.shape@;
                let st = self.strides@;
                assert(sh.skip(e as int).skip(1) =~= sh.skip(e + 1));
                assert(st.skip(e as int).skip(1) =~= st.skip(e + 1));
                assert(sh.skip(e as int)[0] == sh[e as int]);
                assert(st.skip(e as int)[0] == st[e as int]);
                lemma_max_offset_skip_le(sh, st, e as int);
                assert forall|j: int| 0 <= j < sh.skip(e as int).len() implies sh.skip(
                    e as int,
                )[j] > 0 by {
                    assert(sh.skip(e as int)[j] == sh[e + j]);
                }
                lemma_max_offset_nonneg(sh.skip(e as int), st.skip(e as int));
            }
            acc = (self.shape[e] - 1) * self.strides[e] + acc;
        }
        proof {
            let zero: int = 0;
            assert(self.shape@.skip(zero) =~= self.shape@);
            assert(self.strides@.skip(zero) =~= self.strides@);
        }
        acc + 1
    }

    /// True when the layout is row-major contiguous: iterating the logical
    /// order walks the storage without gaps.
    pub fn is_contiguous(&self) -> (r: bool)
        requires
            self.wf(),
        ensures
            r == self.spec_contiguous(),
    {
        // Walks the axes from the innermost outwards, carrying the element
        // count of the axes already seen; `None` once that count no longer
        // fits in `usize`, in which case no remaining stride can match it.
        let mut expected: Option<usize> = Some(1);
        let mut e: usize = N;
        proof {
            assert(self.shape@.skip(N as int) =~= Seq::<usize>::empty());
        }
        while e > 0
            invariant
                e <= N,
                self.wf(),
                match expected {
                    Some(v) => v == elem_count(self.shape@.skip(e as int)),
                    None => elem_count(self.shape@.skip(e as int)) > usize::MAX,
                },
                forall|d: int|
                    e <= d < N && self.shape@[d] != 1 ==> self.strides@[d] == elem_count(
                        self.shape@.skip(d + 1),
                    ),
            decreases e,
        {
            e = e - 1;
            proof {
                assert(self.shape@.skip(e as int).skip(1) =~= self.shape@.skip(e + 1));
                assert(self.shape@.skip(e as int)[0] == self.shape@[e as int]);
                lemma_elem_count_pos(self.shape@.skip(e + 1));
            }
            match expected {
                Some(v) => {
                    if self.shape[e] != 1 && self.strides[e] != v {
                        return false;
                    }
                    expected = v.checked_mul(self.shape[e]);
                    proof {
                        let head = self.shape@[e as int] as int;
                        let tail = elem_count(self.shape@.skip(e + 1));
                        assert(elem_count(self.shape@.skip(e as int)) == head * tail);
                        assert(head * tail == tail * head) by (nonlinear_arith);
                    }
                },
                None => {
                    if self.shape[e] != 1 {
                        // The required stride exceeds `usize`, which no
                        // stored stride can equal.
                        return false;
                    }
                    proof {
                        let head = self.shape@[e as int] as int;
                        let tail = elem_count(self.shape@.skip(e + 1));
                        assert(elem_count(self.shape@.skip(e as int)) == head * tail);
                    }
                },
            }
        }
        true
    }
}

} // verus!

verus! {

/// The `(stride, extent)` pairs of the axes that hold more than one
/// element; only those can make two distinct indices collide.
pub open spec fn overlap_dims(shape: Seq<usize>, strides: Seq<usize>) -> Seq<(usize, usize)>
    decreases shape.len(),
{
    if shape.len() == 0 {
        Seq::empty()
    } else {
        let rest = overlap_dims(shape.skip(1), strides.skip(1));
        if shape[0] > 1 {
            seq![(strides[0], shape[0])] + rest
        } else {
            rest
        }
    }
}

/// Insert `e` into a sequence sorted by ascending stride, keeping it
/// sorted.
pub open spec fn insert_by_stride(sorted: Seq<(usize, usize)>, e: (usize, usize)) -> Seq<
    (usize, usize),
>
    decreases sorted.len(),
{
    if sorted.len() == 0 || sorted.last().0 <= e.0 {
        sorted.push(e)
    } else {
        insert_by_stride(sorted.drop_last(), e).push(sorted.last())
    }
}

/// Sort `(stride, extent)` pairs by ascending stride, by repeated
/// insertion.
pub open spec fn sort_by_stride(dims: Seq<(usize, usize)>) -> Seq<(usize, usize)>
    decreases dims.len(),
{
    if dims.len() == 0 {
        Seq::empty()
    } else {
        insert_by_stride(sort_by_stride(dims.drop_last()), dims.last())
    }
}

/// The conservative non-aliasing criterion over pairs sorted by ascending
/// stride: each stride must step past the whole span of the axes before
/// it, `span` being the largest offset those axes can reach together.
pub open spec fn no_overlap_rec(dims: Seq<(usize, usize)>, span: int) -> bool
    decreases dims.len(),
{
    if dims.len() == 0 {
        true
    } else {
        &&& dims[0].0 >= span + 1
        &&& no_overlap_rec(dims.skip(1), span + (dims[0].1 - 1) * dims[0].0)
    }
}

/// The conservative aliasing test: `true` when the criterion above cannot
/// rule out that two distinct in-bounds indices share a storage offset.
/// The test may reject layouts that do not in fact alias.
pub open spec fn may_overlap(shape: Seq<usize>, strides: Seq<usize>) -> bool {
    !no_overlap_rec(sort_by_stride(overlap_dims(shape, strides)), 0)
}

/// Every pair gathered by [`overlap_dims`] has an extent above one.
proof fn lemma_overlap_dims_sizes(shape: Seq<usize>, strides: Seq<usize>)
    ensures
        forall|j: int|
            0 <= j < overlap_dims(shape, strides).len() ==> (#[trigger] overlap_dims(
                shape,
                strides,
            )[j]).1 > 1,
    decreases shape.len(),
{
    if shape.len() > 0 {
        lemma_overlap_dims_sizes(shape.skip(1), strides.skip(1));
        let rest = overlap_dims(shape.skip(1), strides.skip(1));
        let whole = overlap_dims(shape, strides);
        if shape[0] > 1 {
            assert forall|j: int| 0 <= j < whole.len() implies (#[trigger] whole[j]).1 > 1 by {
                if j > 0 {
                    assert(whole[j] == rest[j - 1]);
                }
            }
        }
    }
}

/// Insertion preserves the bound on pair extents.
proof fn lemma_insert_sizes(s: Seq<(usize, usize)>, e: (usize, usize))
    requires
        forall|j: int| 0 <= j < s.len() ==> (#[trigger] s[j]).1 > 1,
        e.1 > 1,
    ensures
        forall|j: int|
            0 <= j < insert_by_stride(s, e).len() ==> (#[trigger] insert_by_stride(s, e)[j]).1 > 1,
    decreases s.len(),
{
    if s.len() == 0 || s.last().0 <= e.0 {
        let r = s.push(e);
        assert forall|j: int| 0 <= j < r.len() implies (#[trigger] r[j]).1 > 1 by {
            if j < s.len() {
                assert(r[j] == s[j]);
            } else {
                assert(r[j] == e);
            }
        }
    } else {
        assert forall|j: int| 0 <= j < s.drop_last().len() implies (#[trigger] s.drop_last()[j]).1
            > 1 by {
            assert(s.drop_last()[j] == s[j]);
        }
        lemma_insert_sizes(s.drop_last(), e);
        let inner = insert_by_stride(s.drop_last(), e);
        let r = inner.push(s.last());
        assert forall|j: int| 0 <= j < r.len() implies (#[trigger] r[j]).1 > 1 by {
            if j < inner.len() {
                assert(r[j] == inner[j]);
            } else {
                assert(r[j] == s.last());
            }
        }
    }
}

/// Sorting preserves the bound on pair extents.
proof fn lemma_sort_sizes(dims: Seq<(usize, usize)>)
    requires
        forall|j: int| 0 <= j < dims.len() ==> (#[trigger] dims[j]).1 > 1,
    ensures
        forall|j: int|
            0 <= j < sort_by_stride(dims).len() ==> (#[trigger] sort_by_stride(dims)[j]).1 > 1,
    decreases dims.len(),
{
    if dims.len() > 0 {
        assert forall|j: int| 0 <= j < dims.drop_last().len() implies (#[trigger] dims.drop_last()[j]).1
            > 1 by {
            assert(dims.drop_last()[j] == dims[j]);
        }
        lemma_sort_sizes(dims.drop_last());
        lemma_insert_sizes(sort_by_stride(dims.drop_last()), dims.last());
    }
}

/// Inserting at the position found by scanning from the back equals the
/// recursive insertion.
proof fn lemma_insert_at_pos(s: Seq<(usize, usize)>, e: (usize, usize), pos: int)
    requires
        0 <= pos <= s.len(),
        forall|j: int| pos <= j < s.len() ==> s[j].0 > e.0,
        pos > 0 ==> s[pos - 1].0 <= e.0,
    ensures
        insert_by_stride(s, e) == s.insert(pos, e),
    decreases s.len(),
{
    if s.len() == 0 {
        assert(insert_by_stride(s, e) =~= s.insert(0, e));
    } else if s.last().0 <= e.0 {
        assert(pos == s.len());
        assert(s.push(e) =~= s.insert(pos, e));
    } else {
        assert(pos < s.len());
        lemma_insert_at_pos(s.drop_last(), e, pos);
        assert(insert_by_stride(s.drop_last(), e).push(s.last()) =~= s.insert(pos, e));
    }
}

/// Exec insertion into a stride-sorted vector, mirroring
/// [`insert_by_stride`].
fn insert_pair_sorted(v: &mut Vec<(usize, usize)>, e: (usize, usize))
    ensures
        final(v)@ == insert_by_stride(old(v)@, e),
{
    let mut pos: usize = v.len();
    while pos > 0 && v[pos - 1].0 > e.0
        invariant
            pos <= v.len(),
            v@ == old(v)@,
            forall|j: int| pos <= j < v@.len() ==> v@[j].0 > e.0,
        decreases pos,
    {
        pos = pos - 1;
    }
    proof {
        lemma_insert_at_pos(v@, e, pos as int);
    }
    v.insert(pos, e);
}

impl<const N: usize> NdLayout<N> {
    /// The `(stride, extent)` pairs of the axes with more than one element,
    /// in axis order.
    fn collect_overlap_dims(&self) -> (r: Vec<(usize, usize)>)
        ensures
            r@ == overlap_dims(self.shape@, self.strides@),
    {
        let mut r: Vec<(usize, usize)> = Vec::new();
        let mut e: usize = N;
        proof {
            assert(self.shape@.skip(N as int) =~= Seq::<usize>::empty());
            assert(self.strides@.skip(N as int) =~= Seq::<usize>::empty());
        }
        let mut tail: Vec<(usize, usize)> = Vec::new();
        while e > 0
            invariant
                e <= N,
                tail@ == overlap_dims(self.shape@.skip(e as int), self.strides@.skip(e as int)),
            decreases e,
        {
            e = e - 1;
            proof {
                assert(self.shape@.skip(e as int).skip(1) =~= self.shape@.skip(e + 1));
                assert(self.strides@.skip(e as int).skip(1) =~= self.strides@.skip(e + 1));
                assert(self.shape@.skip(e as int)[0] == self.shape@[e as int]);
                assert(self.strides@.skip(e as int)[0] == self.strides@[e as int]);
            }
            if self.shape[e] > 1 {
                tail.insert(0, (self.strides[e], self.shape[e]));
                proof {
                    assert(tail@ =~= seq![(self.strides@[e as int], self.shape@[e as int])]
                        + overlap_dims(self.shape@.skip(e + 1), self.strides@.skip(e + 1)));
                }
            }
        }
        proof {
            let zero: int = 0;
            assert(self.shape@.skip(zero) =~= self.shape@);
            assert(self.strides@.skip(zero) =~= self.strides@);
        }
        tail
    }

    /// The conservative aliasing test of [`may_overlap`], computed by
    /// sorting the multi-element axes by stride and checking that each
    /// stride clears the span of the axes before it.
    pub fn check_may_overlap(&self) -> (r: bool)
        ensures
            r == may_overlap(self.shape@, self.strides@),
    {
        let dims = self.collect_overlap_dims();
        let mut sorted: Vec<(usize, usize)> = Vec::new();
        let mut i: usize = 0;
        while i < dims.len()
            invariant
                i <= dims@.len(),
                sorted@ == sort_by_stride(dims@.take(i as int)),
            decreases dims@.len() - i,
        {
            proof {
                assert(dims@.take(i + 1).drop_last() =~= dims@.take(i as int));
                assert(dims@.take(i + 1).last() == dims@[i as int]);
            }
            insert_pair_sorted(&mut sorted, dims[i]);
            i = i + 1;
        }
        proof {
            assert(dims@.take(dims@.len() as int) =~= dims@);
        }
        let ghost sseq = sorted@;
        let mut span: u128 = 0;
        let mut k: usize = 0;
        proof {
            let zero: int = 0;
            assert(sseq.skip(zero) =~= sseq);
            lemma_overlap_dims_sizes(self.shape@, self.strides@);
            lemma_sort_sizes(overlap_dims(self.shape@, self.strides@));
        }
        while k < sorted.len()
            invariant
                k <= sorted@.len(),
                sorted@ == sseq,
                sseq == sort_by_stride(overlap_dims(self.shape@, self.strides@)),
                forall|j: int| 0 <= j < sseq.len() ==> (#[trigger] sseq[j]).1 > 1,
                span <= u128::MAX - 0xffff_ffff_ffff_ffff,
                no_overlap_rec(sseq, 0) == no_overlap_rec(sseq.skip(k as int), span as int),
            decreases sorted@.len() - k,
        {
            proof {
                assert(sseq.skip(k as int)[0] == sseq[k as int]);
                assert(sseq.skip(k as int).skip(1) =~= sseq.skip(k + 1));
            }
            if span > usize::MAX as u128 {
                // No remaining stride fits in `usize`, so none can clear
                // the accumulated span.
                proof {
                    assert(sseq[k as int].0 <= usize::MAX);
                    assert(!no_overlap_rec(sseq.skip(k as int), span as int));
                }
                return true;
            }
            let (stride, size) = sorted[k];
            if (stride as u128) < span + 1 {
                proof {
                    assert(!no_overlap_rec(sseq.skip(k as int), span as int));
                }
                return true;
            }
            proof {
                let sz = size as int;
                let st = stride as int;
                assert((sz - 1) * st <= (0xffff_ffff_ffff_ffffu64 as int) * (
                0xffff_ffff_ffff_ffffu64 as int)) by (nonlinear_arith)
                    requires 0 <= sz - 1 <= 0xffff_ffff_ffff_ffffu64 as int, 0 <= st <= 0xffff_ffff_ffff_ffffu64 as int;
                assert((sz - 1) * st >= 0) by (nonlinear_arith)
                    requires sz >= 1, st >= 0;
            }
            span = span + (size as u128 - 1) * (stride as u128);
            k = k + 1;
        }
        proof {
            assert(sseq.skip(sseq.len() as int) =~= Seq::<(usize, usize)>::empty());
        }
        false
    }
}

} // verus!

verus! {

impl<const N: usize> NdLayout<N> {
    /// True when the element count and the reachable offsets fit in
    /// `usize`, so that every later offset computation is exact.
    pub(crate) fn check_wf(&self) -> (r: bool)
        ensures
            r == layout_wf(self.shape@, self.strides@),
    {
        let ghost sh = self.shape@;
        let ghost st = self.strides@;
        proof {
            assert(sh.len() == N && st.len() == N);
        }
        // A zero extent anywhere makes the layout empty, which always fits.
        let mut d: usize = 0;
        while d < N
            invariant
                d <= N,
                sh == self.shape@,
                st == self.strides@,
                forall|j: int| 0 <= j < d ==> self.shape@[j] > 0,
            decreases N - d,
        {
            if self.shape[d] == 0 {
                proof {
                    lemma_elem_count_pos(sh);
                    assert(elem_count(sh) == 0);
                    assert(min_storage_len(sh, st) == 0);
                }
                return true;
            }
            d = d + 1;
        }
        proof {
            lemma_elem_count_pos(sh);
        }
        // Element count, accumulated from the innermost axis outwards.
        let mut count: usize = 1;
        let mut e: usize = N;
        proof {
            assert(sh.skip(N as int) =~= Seq::<usize>::empty());
            assert(st.skip(N as int) =~= Seq::<usize>::empty());
        }
        while e > 0
            invariant
                e <= N,
                sh == self.shape@,
                forall|j: int| 0 <= j < N ==> self.shape@[j] > 0,
                count == elem_count(sh.skip(e as int)),
            decreases e,
        {
            e = e - 1;
            proof {
                assert(sh.skip(e as int).skip(1) =~= sh.skip(e + 1));
                assert(sh.skip(e as int)[0] == sh[e as int]);
            }
            match self.shape[e].checked_mul(count) {
                Some(v) => {
                    count = v;
                },
                None => {
                    proof {
                        assert(elem_count(sh.skip(e as int)) > usize::MAX);
                        assert forall|j: int| 0 <= j < sh.len() implies sh[j] > 0 by {}
                        lemma_elem_count_skip_le(sh, e as int);
                    }
                    return false;
                },
            }
        }
        proof {
            let zero: int = 0;
            assert(sh.skip(zero) =~= sh);
        }
        // Largest reachable offset, accumulated the same way.
        let mut top: usize = 0;
        let mut f: usize = N;
        while f > 0
            invariant
                f <= N,
                sh == self.shape@,
                st == self.strides@,
                forall|j: int| 0 <= j < N ==> self.shape@[j] > 0,
                top == max_offset(sh.skip(f as int), st.skip(f as int)),
            decreases f,
        {
            f = f - 1;
            proof {
                assert(sh.skip(f as int).skip(1) =~= sh.skip(f + 1));
                assert(st.skip(f as int).skip(1) =~= st.skip(f + 1));
                assert(sh.skip(f as int)[0] == sh[f as int]);
                assert(st.skip(f as int)[0] == st[f as int]);
            }
            proof {
                assert forall|j: int| 0 <= j < sh.skip(f + 1).len() implies #[trigger] sh.skip(
                    f + 1,
                )[j] > 0 by {
                    assert(sh.skip(f + 1)[j] == sh[f + 1 + j]);
                }
                lemma_max_offset_nonneg(sh.skip(f + 1), st.skip(f + 1));
                lemma_elem_count_pos(sh);
            }
            let term = match (self.shape[f] - 1).checked_mul(self.strides[f]) {
                Some(t) => t,
                None => {
                    proof {
                        assert(max_offset(sh.skip(f as int), st.skip(f as int)) > usize::MAX);
                        lemma_max_offset_skip_le(sh, st, f as int);
                        assert(min_storage_len(sh, st) > usize::MAX);
                    }
                    return false;
                },
            };
            match top.checked_add(term) {
                Some(v) => {
                    top = v;
                },
                None => {
                    proof {
                        assert(max_offset(sh.skip(f as int), st.skip(f as int)) > usize::MAX);
                        lemma_max_offset_skip_le(sh, st, f as int);
                        assert(min_storage_len(sh, st) > usize::MAX);
                    }
                    return false;
                },
            }
        }
        proof {
            let zero: int = 0;
            assert(sh.skip(zero) =~= sh);
            assert(st.skip(zero) =~= st);
        }
        top < usize::MAX
    }

    /// Construct a layout from caller-supplied strides.
    ///
    /// Under [`OverlapPolicy::DisallowOverlap`] the conservative aliasing
    /// test must pass; layouts whose offsets do not fit in `usize` are
    /// rejected as needing more storage than can exist.
    pub fn try_from_shape_and_strides(
        shape: [usize; N],
        strides: [usize; N],
        policy: OverlapPolicy,
    ) -> (r: Result<NdLayout<N>, FromDataError>)
        ensures
            match r {
                Ok(l) => {
                    &&& l.shape@ == shape@
                    &&& l.strides@ == strides@
                    &&& l.wf()
                    &&& (policy is DisallowOverlap ==> !may_overlap(shape@, strides@))
                },
                Err(e) => match e {
                    FromDataError::MayOverlap => policy is DisallowOverlap && may_overlap(
                        shape@,
                        strides@,
                    ),
                    FromDataError::StorageTooShort => !(policy is DisallowOverlap && may_overlap(
                        shape@,
                        strides@,
                    )) && !layout_wf(shape@, strides@),
                },
            },
            r is Ok <==> (layout_wf(shape@, strides@) && !(policy is DisallowOverlap
                && may_overlap(shape@, strides@))),
    {
        let l = NdLayout { shape, strides };
        match policy {
            OverlapPolicy::DisallowOverlap => {
                if l.check_may_overlap() {
                    return Err(FromDataError::MayOverlap);
                }
            },
            OverlapPolicy::AllowOverlap => {},
        }
        if !l.check_wf() {
            return Err(FromDataError::StorageTooShort);
        }
        Ok(l)
    }
}


} // verus!

verus! {

/// `p` lists each axis index below `n` exactly once.
pub open spec fn spec_is_permutation(p: Seq<usize>, n: int) -> bool {
    &&& p.len() == n
    &&& forall|i: int| 0 <= i < n ==> p[i] < n
    &&& forall|i: int, j: int| 0 <= i < n && 0 <= j < n && i != j ==> p[i] != p[j]
}

/// The sequence re-ordered by `p`: element `i` of the result is element
/// `p[i]` of `s`.
pub open spec fn permute_seq(s: Seq<usize>, p: Seq<usize>) -> Seq<usize> {
    Seq::new(p.len() as nat, |i: int| s[p[i] as int])
}

/// A permutation of `0..n` attains the value `n - 1` somewhere.
proof fn lemma_perm_hits_top(p: Seq<usize>, n: int)
    requires
        n >= 1,
        spec_is_permutation(p, n),
    ensures
        exists|j: int| 0 <= j < n && p[j] == n - 1,
{
    if forall|j: int| 0 <= j < n ==> p[j] != n - 1 {
        let pi = Seq::new(n as nat, |i: int| p[i] as int);
        assert(pi.no_duplicates());
        pi.unique_seq_to_set();
        let below = vstd::set_lib::set_int_range(0, n - 1);
        vstd::set_lib::lemma_int_range(0, n - 1);
        assert forall|x: int| pi.to_set().contains(x) implies below.contains(x) by {
            let w = choose|i: int| 0 <= i < pi.len() && pi[i] == x;
            assert(p[w] < n && p[w] != n - 1);
        }
        vstd::set_lib::lemma_len_subset(pi.to_set(), below);
        assert(false);
    }
}

/// Removing one axis divides the element count by that axis's extent.
proof fn lemma_elem_count_remove(s: Seq<usize>, j: int)
    requires
        0 <= j < s.len(),
    ensures
        elem_count(s) == s[j] * elem_count(s.remove(j)),
    decreases s.len(),
{
    if j == 0 {
        assert(s.remove(0) =~= s.skip(1));
    } else {
        let s1 = s.skip(1);
        lemma_elem_count_remove(s1, j - 1);
        assert(s1.remove(j - 1) =~= s.remove(j).skip(1));
        assert(s.remove(j)[0] == s[0]);
        assert(s1[j - 1] == s[j]);
        let a = s[0] as int;
        let b = s[j] as int;
        let c = elem_count(s1.remove(j - 1));
        assert(a * (b * c) == b * (a * c)) by (nonlinear_arith);
    }
}

/// Removing one axis subtracts that axis's term from the largest
/// reachable offset.
proof fn lemma_max_offset_remove(s: Seq<usize>, t: Seq<usize>, j: int)
    requires
        0 <= j < s.len(),
        t.len() == s.len(),
    ensures
        max_offset(s, t) == (s[j] - 1) * t[j] + max_offset(s.remove(j), t.remove(j)),
    decreases s.len(),
{
    if j == 0 {
        assert(s.remove(0) =~= s.skip(1));
        assert(t.remove(0) =~= t.skip(1));
    } else {
        lemma_max_offset_remove(s.skip(1), t.skip(1), j - 1);
        assert(s.skip(1).remove(j - 1) =~= s.remove(j).skip(1));
        assert(t.skip(1).remove(j - 1) =~= t.remove(j).skip(1));
        assert(s.remove(j)[0] == s[0] && t.remove(j)[0] == t[0]);
        assert(s.skip(1)[j - 1] == s[j] && t.skip(1)[j - 1] == t[j]);
    }
}

/// Re-ordering the axes leaves the element count unchanged.
pub proof fn lemma_permute_elem_count(s: Seq<usize>, p: Seq<usize>)
    requires
        spec_is_permutation(p, s.len() as int),
    ensures
        elem_count(permute_seq(s, p)) == elem_count(s),
    decreases s.len(),
{
    let n = s.len() as int;
    if n > 0 {
        lemma_perm_hits_top(p, n);
        let j = choose|j: int| 0 <= j < n && p[j] == n - 1;
        let p2 = p.remove(j);
        assert forall|i: int| 0 <= i < n - 1 implies p2[i] < n - 1 by {
            if i < j {
                assert(p2[i] == p[i]);
                assert(p[i] != n - 1);
            } else {
                assert(p2[i] == p[i + 1]);
                assert(p[i + 1] != n - 1);
            }
        }
        assert forall|a: int, b: int| 0 <= a < n - 1 && 0 <= b < n - 1 && a != b implies p2[a]
            != p2[b] by {
            let a1: int = if a < j { a } else { a + 1 };
            let b1: int = if b < j { b } else { b + 1 };
            assert(p2[a] == p[a1] && p2[b] == p[b1]);
        }
        assert(spec_is_permutation(p2, n - 1));
        lemma_permute_elem_count(s.drop_last(), p2);
        assert(permute_seq(s.drop_last(), p2) =~= permute_seq(s, p).remove(j)) by {
            assert forall|i: int| 0 <= i < n - 1 implies permute_seq(s.drop_last(), p2)[i]
                == permute_seq(s, p).remove(j)[i] by {
                if i < j {
                    assert(permute_seq(s, p).remove(j)[i] == s[p[i] as int]);
                } else {
                    assert(permute_seq(s, p).remove(j)[i] == s[p[i + 1] as int]);
                }
            }
        }
        lemma_elem_count_remove(permute_seq(s, p), j);
        lemma_elem_count_remove(s, n - 1);
        assert(s.remove(n - 1) =~= s.drop_last());
        assert(permute_seq(s, p)[j] == s[n - 1]);
    } else {
        assert(permute_seq(s, p) =~= s);
    }
}

/// Re-ordering the axes leaves the largest reachable offset unchanged.
pub proof fn lemma_permute_max_offset(s: Seq<usize>, t: Seq<usize>, p: Seq<usize>)
    requires
        t.len() == s.len(),
        spec_is_permutation(p, s.len() as int),
    ensures
        max_offset(permute_seq(s, p), permute_seq(t, p)) == max_offset(s, t),
    decreases s.len(),
{
    let n = s.len() as int;
    if n > 0 {
        lemma_perm_hits_top(p, n);
        let j = choose|j: int| 0 <= j < n && p[j] == n - 1;
        let p2 = p.remove(j);
        assert forall|i: int| 0 <= i < n - 1 implies p2[i] < n - 1 by {
            if i < j {
                assert(p2[i] == p[i]);
                assert(p[i] != n - 1);
            } else {
                assert(p2[i] == p[i + 1]);
                assert(p[i + 1] != n - 1);
            }
        }
        assert forall|a: int, b: int| 0 <= a < n - 1 && 0 <= b < n - 1 && a != b implies p2[a]
            != p2[b] by {
            let a1: int = if a < j { a } else { a + 1 };
            let b1: int = if b < j { b } else { b + 1 };
            assert(p2[a] == p[a1] && p2[b] == p[b1]);
        }
        assert(spec_is_permutation(p2, n - 1));
        lemma_permute_max_offset(s.drop_last(), t.drop_last(), p2);
        assert(permute_seq(s.drop_last(), p2) =~= permute_seq(s, p).remove(j)) by {
            assert forall|i: int| 0 <= i < n - 1 implies permute_seq(s.drop_last(), p2)[i]
                == permute_seq(s, p).remove(j)[i] by {
                if i < j {
                    assert(permute_seq(s, p).remove(j)[i] == s[p[i] as int]);
                } else {
                    assert(permute_seq(s, p).remove(j)[i] == s[p[i + 1] as int]);
                }
            }
        }
        assert(permute_seq(t.drop_last(), p2) =~= permute_seq(t, p).remove(j)) by {
            assert forall|i: int| 0 <= i < n - 1 implies permute_seq(t.drop_last(), p2)[i]
                == permute_seq(t, p).remove(j)[i] by {
                if i < j {
                    assert(permute_seq(t, p).remove(j)[i] == t[p[i] as int]);
                } else {
                    assert(permute_seq(t, p).remove(j)[i] == t[p[i + 1] as int]);
                }
            }
        }
        lemma_max_offset_remove(permute_seq(s, p), permute_seq(t, p), j);
        lemma_max_offset_remove(s, t, n - 1);
        assert(s.remove(n - 1) =~= s.drop_last());
        assert(t.remove(n - 1) =~= t.drop_last());
        assert(permute_seq(s, p)[j] == s[n - 1] && permute_seq(t, p)[j] == t[n - 1]);
    } else {
        assert(permute_seq(s, p) =~= s);
        assert(permute_seq(t, p) =~= t);
    }
}

impl<const N: usize> NdLayout<N> {
    /// Re-order the axes: axis `i` of the result is axis `dims[i]` of
    /// `self`. Strides move with their axes, so no element moves.
    pub fn permuted(&self, dims: [usize; N]) -> (r: NdLayout<N>)
        requires
            self.wf(),
            spec_is_permutation(dims@, N as int),
        ensures
            r.shape@ == permute_seq(self.shape@, dims@),
            r.strides@ == permute_seq(self.strides@, dims@),
            r.wf(),
            elem_count(r.shape@) == elem_count(self.shape@),
            min_storage_len(r.shape@, r.strides@) == min_storage_len(self.shape@, self.strides@),
    {
        let mut shape = vstd::array::array_fill_for_copy_types::<usize, N>(0);
        let mut strides = vstd::array::array_fill_for_copy_types::<usize, N>(0);
        let mut i: usize = 0;
        while i < N
            invariant
                i <= N,
                spec_is_permutation(dims@, N as int),
                shape@.len() == N,
                strides@.len() == N,
                forall|k: int| 0 <= k < i ==> shape@[k] == self.shape@[dims@[k] as int],
                forall|k: int| 0 <= k < i ==> strides@[k] == self.strides@[dims@[k] as int],
            decreases N - i,
        {
            shape[i] = self.shape[dims[i]];
            strides[i] = self.strides[dims[i]];
            i = i + 1;
        }
        let r = NdLayout { shape, strides };
        proof {
            assert(r.shape@ =~= permute_seq(self.shape@, dims@));
            assert(r.strides@ =~= permute_seq(self.strides@, dims@));
            lemma_permute_elem_count(self.shape@, dims@);
            lemma_permute_max_offset(self.shape@, self.strides@, dims@);
        }
        r
    }

    /// Reverse the order of the axes.
    pub fn transposed(&self) -> (r: NdLayout<N>)
        requires
            self.wf(),
        ensures
            forall|d: int| 0 <= d < N ==> r.shape@[d] == self.shape@[N - 1 - d],
            forall|d: int| 0 <= d < N ==> r.strides@[d] == self.strides@[N - 1 - d],
            r.wf(),
            elem_count(r.shape@) == elem_count(self.shape@),
            min_storage_len(r.shape@, r.strides@) == min_storage_len(self.shape@, self.strides@),
    {
        let mut dims = vstd::array::array_fill_for_copy_types::<usize, N>(0);
        let mut i: usize = 0;
        while i < N
            invariant
                i <= N,
                dims@.len() == N,
                forall|k: int| 0 <= k < i ==> dims@[k] == N - 1 - k,
            decreases N - i,
        {
            dims[i] = N - 1 - i;
            i = i + 1;
        }
        self.permuted(dims)
    }
}

} // verus!

verus! {

/// Right-aligned broadcast compatibility: every source axis must match the
/// target axis it lines up with, or have extent one.
pub open spec fn broadcast_compatible(from: Seq<usize>, to: Seq<usize>) -> bool {
    &&& to.len() >= from.len()
    &&& forall|d: int|
        0 <= d < from.len() ==> (from[d] == to[d + to.len() - from.len()] || from[d] == 1)
}

/// The stride the broadcast view uses along target axis `j`: the source
/// stride where the extents match, zero along grown or new axes.
pub open spec fn broadcast_stride(
    from: Seq<usize>,
    strides: Seq<usize>,
    to: Seq<usize>,
    j: int,
) -> usize {
    let lead = to.len() - from.len();
    if j < lead {
        0
    } else if from[j - lead] == to[j] {
        strides[j - lead]
    } else {
        0
    }
}

/// Splitting the axes splits the largest reachable offset.
proof fn lemma_max_offset_concat(s1: Seq<usize>, t1: Seq<usize>, s2: Seq<usize>, t2: Seq<usize>)
    requires
        t1.len() == s1.len(),
        t2.len() == s2.len(),
    ensures
        max_offset(s1 + s2, t1 + t2) == max_offset(s1, t1) + max_offset(s2, t2),
    decreases s1.len(),
{
    if s1.len() == 0 {
        assert(s1 + s2 =~= s2);
        assert(t1 + t2 =~= t2);
    } else {
        lemma_max_offset_concat(s1.skip(1), t1.skip(1), s2, t2);
        assert((s1 + s2).skip(1) =~= s1.skip(1) + s2);
        assert((t1 + t2).skip(1) =~= t1.skip(1) + t2);
        assert((s1 + s2)[0] == s1[0] && (t1 + t2)[0] == t1[0]);
    }
}

/// Axis-by-axis domination of terms bounds the largest reachable offset.
proof fn lemma_max_offset_pointwise_le(s1: Seq<usize>, t1: Seq<usize>, s2: Seq<usize>, t2: Seq<usize>)
    requires
        t1.len() == s1.len(),
        s2.len() == s1.len(),
        t2.len() == s1.len(),
        forall|d: int| 0 <= d < s1.len() ==> (s1[d] - 1) * t1[d] <= (s2[d] - 1) * t2[d],
    ensures
        max_offset(s1, t1) <= max_offset(s2, t2),
    decreases s1.len(),
{
    if s1.len() > 0 {
        assert forall|d: int| 0 <= d < s1.skip(1).len() implies (s1.skip(1)[d] - 1) * t1.skip(1)[d]
            <= (s2.skip(1)[d] - 1) * t2.skip(1)[d] by {
            assert(s1.skip(1)[d] == s1[d + 1] && t1.skip(1)[d] == t1[d + 1]);
            assert(s2.skip(1)[d] == s2[d + 1] && t2.skip(1)[d] == t2[d + 1]);
        }
        lemma_max_offset_pointwise_le(s1.skip(1), t1.skip(1), s2.skip(1), t2.skip(1));
    }
}

impl<const N: usize> NdLayout<N> {
    /// View the layout as a larger shape: axes are aligned at the right,
    /// and every grown or newly added axis repeats its single element by
    /// taking stride zero.
    pub fn broadcast<const M: usize>(&self, to_shape: [usize; M]) -> (r: NdLayout<M>)
        requires
            self.wf(),
            broadcast_compatible(self.shape@, to_shape@),
            elem_count(to_shape@) <= usize::MAX,
        ensures
            r.shape@ == to_shape@,
            forall|j: int|
                0 <= j < M ==> r.strides@[j] == broadcast_stride(
                    self.shape@,
                    self.strides@,
                    to_shape@,
                    j,
                ),
            r.wf(),
            min_storage_len(r.shape@, r.strides@) <= min_storage_len(self.shape@, self.strides@),
    {
        let lead: usize = M - N;
        let mut strides = vstd::array::array_fill_for_copy_types::<usize, M>(0);
        let mut j: usize = lead;
        while j < M
            invariant
                lead == M - N,
                N <= M,
                lead <= j <= M,
                broadcast_compatible(self.shape@, to_shape@),
                strides@.len() == M,
                forall|k: int| 0 <= k < lead ==> strides@[k] == 0,
                forall|k: int| j <= k < M ==> strides@[k] == 0,
                forall|k: int|
                    lead <= k < j ==> strides@[k] == broadcast_stride(
                        self.shape@,
                        self.strides@,
                        to_shape@,
                        k,
                    ),
            decreases M - j,
        {
            if self.shape[j - lead] == to_shape[j] {
                strides[j] = self.strides[j - lead];
            }
            j = j + 1;
        }
        let r = NdLayout { shape: to_shape, strides };
        proof {
            let from = self.shape@;
            let st = self.strides@;
            let to = to_shape@;
            let pre_s = to.take(lead as int);
            let suf_s = to.skip(lead as int);
            let pre_t = strides@.take(lead as int);
            let suf_t = strides@.skip(lead as int);
            assert(to =~= pre_s + suf_s);
            assert(strides@ =~= pre_t + suf_t);
            lemma_max_offset_concat(pre_s, pre_t, suf_s, suf_t);
            assert forall|d: int| 0 <= d < pre_s.len() implies (pre_s[d] - 1) * pre_t[d] == 0 by {
                assert(pre_t[d] == strides@[d]);
                assert(pre_t[d] == 0);
                assert((pre_s[d] - 1) * 0 == 0) by (nonlinear_arith);
            }
            lemma_max_offset_zero_terms(pre_s, pre_t);
            assert forall|d: int| 0 <= d < suf_s.len() implies (suf_s[d] - 1) * suf_t[d] <= (
            from[d] - 1) * st[d] by {
                assert(suf_s[d] == to[lead + d] && suf_t[d] == strides@[lead + d]);
                if from[d] == to[lead + d] {
                    assert(suf_t[d] == st[d]);
                } else {
                    assert(from[d] == 1);
                    assert(suf_t[d] == 0);
                    assert((suf_s[d] - 1) * 0 == 0) by (nonlinear_arith);
                    assert((from[d] - 1) * st[d] == 0);
                }
            }
            lemma_max_offset_pointwise_le(suf_s, suf_t, from, st);
            lemma_elem_count_pos(to);
            lemma_elem_count_pos(from);
            if elem_count(to) > 0 {
                assert forall|d: int| 0 <= d < from.len() implies from[d] > 0 by {
                    assert(from[d] == to[d + lead] || from[d] == 1);
                }
                assert(elem_count(from) > 0);
                assert(min_storage_len(from, st) == max_offset(from, st) + 1);
            } else {
                lemma_min_storage_nonneg(from, st);
            }
        }
        r
    }
}

/// A sum of terms that are each at most zero and at least zero is zero.
proof fn lemma_max_offset_zero_terms(s: Seq<usize>, t: Seq<usize>)
    requires
        t.len() == s.len(),
        forall|d: int| 0 <= d < s.len() ==> (s[d] - 1) * t[d] == 0,
    ensures
        max_offset(s, t) == 0,
    decreases s.len(),
{
    if s.len() > 0 {
        assert forall|d: int| 0 <= d < s.skip(1).len() implies (s.skip(1)[d] - 1) * t.skip(1)[d]
            == 0 by {
            assert(s.skip(1)[d] == s[d + 1] && t.skip(1)[d] == t[d + 1]);
        }
        lemma_max_offset_zero_terms(s.skip(1), t.skip(1));
    }
}

impl<const N: usize> NdLayout<N> {
    /// A contiguous layout re-shaped to `to_shape`, which must hold the
    /// same number of elements.
    pub fn reshaped<const M: usize>(&self, to_shape: [usize; M]) -> (r: NdLayout<M>)
        requires
            self.wf(),
            self.spec_contiguous(),
            elem_count(to_shape@) == elem_count(self.shape@),
            forall|d: int| 0 <= d <= M ==> elem_count(to_shape@.skip(d)) <= usize::MAX,
        ensures
            r.shape@ == to_shape@,
            r.wf(),
            r.spec_contiguous(),
            forall|d: int| 0 <= d < M ==> r.strides@[d] == elem_count(to_shape@.skip(d + 1)),
            min_storage_len(r.shape@, r.strides@) == elem_count(to_shape@),
    {
        NdLayout::<M>::from_shape(to_shape)
    }
}

} // verus!

verus! {

/// One axis of a slicing request: pick a single position (dropping the
/// axis) or keep a sub-range with a step.
#[derive(Clone, Copy, Debug)]
pub enum SliceItem {
    /// Select one position along the axis; the axis disappears.
    Index(usize),
    /// Keep `start..end` in steps of `step`; `None` means up to the end.
    Range { start: usize, end: Option<usize>, step: usize },
}

impl SliceItem {
    /// The full range of an axis.
    pub fn full() -> (r: SliceItem)
        ensures
            r == (SliceItem::Range { start: 0usize, end: None::<usize>, step: 1usize }),
    {
        SliceItem::Range { start: 0, end: None, step: 1 }
    }

    /// A stepped range, as `start..end` with `None` meaning the axis end.
    pub fn range(start: usize, end: Option<usize>, step: usize) -> (r: SliceItem)
        ensures
            r == (SliceItem::Range { start, end, step }),
    {
        SliceItem::Range { start, end, step }
    }

    /// A single position.
    pub fn index(i: usize) -> (r: SliceItem)
        ensures
            r == SliceItem::Index(i),
    {
        SliceItem::Index(i)
    }
}

/// The end position a range item denotes on an axis of extent `size`.
pub open spec fn resolved_end(size: usize, end: Option<usize>) -> int {
    match end {
        Some(e) => e as int,
        None => size as int,
    }
}

/// How many positions `start..end` by `step` visits.
pub open spec fn range_len(start: int, end: int, step: int) -> int {
    if end <= start {
        0
    } else {
        (end - start - 1) / step + 1
    }
}

/// Validity of a slicing request against `shape`, axis by axis. Steps are
/// positive, ranges lie inside the axis, and an `Index` position exists.
pub open spec fn valid_slice_items(shape: Seq<usize>, strides: Seq<usize>, items: Seq<SliceItem>) -> bool
    decreases items.len(),
{
    if items.len() > shape.len() {
        false
    } else if items.len() == 0 {
        true
    } else {
        let ok0 = match items[0] {
            SliceItem::Index(i) => i < shape[0],
            SliceItem::Range { start, end, step } => {
                &&& step >= 1
                &&& start <= resolved_end(shape[0], end) <= shape[0]
                &&& (start == 0 || start < shape[0])
                &&& step * strides[0] <= usize::MAX
            },
        };
        ok0 && valid_slice_items(shape.skip(1), strides.skip(1), items.skip(1))
    }
}

/// The storage offset where the sliced view begins.
pub open spec fn slice_offset(shape: Seq<usize>, strides: Seq<usize>, items: Seq<SliceItem>) -> int
    decreases items.len(),
{
    if items.len() == 0 || items.len() > shape.len() {
        0
    } else {
        let rest = slice_offset(shape.skip(1), strides.skip(1), items.skip(1));
        match items[0] {
            SliceItem::Index(i) => i * strides[0] + rest,
            SliceItem::Range { start, end, step } => start * strides[0] + rest,
        }
    }
}

/// The shape of the sliced view: ranges shrink their axis, indexed axes
/// disappear, axes beyond the request are kept whole.
pub open spec fn slice_shape(shape: Seq<usize>, items: Seq<SliceItem>) -> Seq<usize>
    decreases items.len(),
{
    if items.len() == 0 || items.len() > shape.len() {
        shape
    } else {
        let rest = slice_shape(shape.skip(1), items.skip(1));
        match items[0] {
            SliceItem::Index(i) => rest,
            SliceItem::Range { start, end, step } => seq![
                range_len(start as int, resolved_end(shape[0], end), step as int) as usize,
            ] + rest,
        }
    }
}

/// The strides of the sliced view: a stepped range multiplies its axis
/// stride by the step.
pub open spec fn slice_strides(shape: Seq<usize>, strides: Seq<usize>, items: Seq<SliceItem>) -> Seq<
    usize,
>
    decreases items.len(),
{
    if items.len() == 0 || items.len() > shape.len() {
        strides
    } else {
        let rest = slice_strides(shape.skip(1), strides.skip(1), items.skip(1));
        match items[0] {
            SliceItem::Index(i) => rest,
            SliceItem::Range { start, end, step } => seq![(step * strides[0]) as usize] + rest,
        }
    }
}

/// The sliced view, shifted by its starting offset, stays inside the
/// storage footprint of the original layout.
pub open spec fn slice_fits(shape: Seq<usize>, strides: Seq<usize>, items: Seq<SliceItem>) -> bool {
    slice_offset(shape, strides, items) + min_storage_len(
        slice_shape(shape, items),
        slice_strides(shape, strides, items),
    ) <= min_storage_len(shape, strides)
}

} // verus!

verus! {

/// On a non-empty layout, a valid slicing request stays within the
/// original storage footprint: the start offset plus the storage need of
/// the sliced view never exceeds the original storage need.
pub proof fn lemma_slice_fits(shape: Seq<usize>, strides: Seq<usize>, items: Seq<SliceItem>)
    requires
        strides.len() == shape.len(),
        valid_slice_items(shape, strides, items),
        forall|d: int| 0 <= d < shape.len() ==> shape[d] > 0,
    ensures
        0 <= slice_offset(shape, strides, items),
        elem_count(slice_shape(shape, items)) <= elem_count(shape),
        elem_count(slice_shape(shape, items)) >= 0,
        slice_strides(shape, strides, items).len() == slice_shape(shape, items).len(),
        slice_fits(shape, strides, items),
    decreases items.len(),
{
    lemma_elem_count_pos(shape);
    if items.len() == 0 {
        lemma_elem_count_pos(slice_shape(shape, items));
    } else {
        let sh1 = shape.skip(1);
        let st1 = strides.skip(1);
        let it1 = items.skip(1);
        assert forall|d: int| 0 <= d < sh1.len() implies sh1[d] > 0 by {
            assert(sh1[d] == shape[d + 1]);
        }
        lemma_slice_fits(sh1, st1, it1);
        lemma_elem_count_pos(sh1);
        let rest_off = slice_offset(sh1, st1, it1);
        let rest_sh = slice_shape(sh1, it1);
        let rest_st = slice_strides(sh1, st1, it1);
        let maxoff1 = max_offset(sh1, st1);
        assert(min_storage_len(sh1, st1) == maxoff1 + 1);
        let st0 = strides[0] as int;
        let sh0 = shape[0] as int;
        lemma_elem_count_pos(rest_sh);
        match items[0] {
            SliceItem::Index(i) => {
                lemma_mul_inequality(i as int, sh0 - 1, st0);
                assert(i * st0 >= 0) by (nonlinear_arith)
                    requires i >= 0, st0 >= 0;
                assert(elem_count(shape) == sh0 * elem_count(sh1));
                assert(sh0 * elem_count(sh1) >= elem_count(sh1)) by (nonlinear_arith)
                    requires sh0 >= 1, elem_count(sh1) >= 0;
            },
            SliceItem::Range { start, end, step } => {
                let e = resolved_end(shape[0], end);
                let nsize = range_len(start as int, e, step as int);
                let new_sh = slice_shape(shape, items);
                let new_st = slice_strides(shape, strides, items);
                assert(new_sh =~= seq![nsize as usize] + rest_sh);
                assert(new_st =~= seq![(step * strides[0]) as usize] + rest_st);
                assert(start * st0 >= 0) by (nonlinear_arith)
                    requires start >= 0, st0 >= 0;
                // The visited count never exceeds the axis extent.
                if e > start {
                    assert(nsize == (e - start - 1) / (step as int) + 1);
                    assert((e - start - 1) / (step as int) <= e - start - 1) by {
                        lemma_div_is_ordered_by_denominator(e - start - 1, 1, step as int);
                        assert((e - start - 1) / 1 == e - start - 1);
                    }
                    assert(1 <= nsize <= e - start);
                } else {
                    assert(nsize == 0);
                }
                assert(0 <= nsize <= sh0);
                // nsize fits in usize, so the cast below is exact.
                assert((nsize as usize) as int == nsize);
                assert((step * strides[0]) as int == step * st0);
                assert(elem_count(new_sh) == nsize * elem_count(rest_sh)) by {
                    assert(new_sh[0] == nsize as usize);
                    assert(new_sh.skip(1) =~= rest_sh);
                }
                assert(nsize * elem_count(rest_sh) <= sh0 * elem_count(sh1)) by (nonlinear_arith)
                    requires
                        0 <= nsize <= sh0,
                        0 <= elem_count(rest_sh) <= elem_count(sh1),
                ;
                assert(nsize * elem_count(rest_sh) >= 0) by (nonlinear_arith)
                    requires nsize >= 0, elem_count(rest_sh) >= 0;
                assert(elem_count(shape) == sh0 * elem_count(sh1));
                if elem_count(new_sh) == 0 {
                    assert(min_storage_len(new_sh, new_st) == 0);
                    // The start offset alone stays within the storage.
                    if start > 0 {
                        assert(start < sh0);
                        lemma_mul_inequality(start as int, sh0 - 1, st0);
                    } else {
                        assert(start * st0 == 0) by (nonlinear_arith)
                            requires start == 0;
                    }
                    assert(min_storage_len(rest_sh, rest_st) >= 0) by {
                        if elem_count(rest_sh) > 0 {
                            lemma_elem_count_pos(rest_sh);
                            lemma_max_offset_nonneg(rest_sh, rest_st);
                        }
                    }
                    assert(rest_off <= maxoff1 + 1);
                } else {
                    assert(nsize >= 1 && elem_count(rest_sh) > 0) by {
                        assert(nsize * elem_count(rest_sh) != 0);
                        assert(nsize > 0 && elem_count(rest_sh) > 0) by (nonlinear_arith)
                            requires
                                nsize >= 0,
                                elem_count(rest_sh) >= 0,
                                nsize * elem_count(rest_sh) != 0,
                        ;
                    }
                    assert(min_storage_len(rest_sh, rest_st) == max_offset(rest_sh, rest_st) + 1);
                    assert(max_offset(new_sh, new_st) == (nsize - 1) * (step * st0) + max_offset(
                        rest_sh,
                        rest_st,
                    )) by {
                        assert(new_sh.skip(1) =~= rest_sh);
                        assert(new_st.skip(1) =~= rest_st);
                    }
                    // The last visited position lies before the range end.
                    assert((nsize - 1) * (step as int) <= e - start - 1) by {
                        lemma_fundamental_div_mod(e - start - 1, step as int);
                        lemma_mod_bound(e - start - 1, step as int);
                        assert((e - start - 1) / (step as int) * (step as int) == (step as int) * (
                        (e - start - 1) / (step as int))) by (nonlinear_arith);
                    }
                    assert(start + (nsize - 1) * (step as int) <= sh0 - 1);
                    lemma_mul_inequality(start + (nsize - 1) * (step as int), sh0 - 1, st0);
                    assert((start + (nsize - 1) * (step as int)) * st0 == start * st0 + ((nsize - 1)
                        * (step as int)) * st0) by (nonlinear_arith);
                    assert(((nsize - 1) * (step as int)) * st0 == (nsize - 1) * ((step as int)
                        * st0)) by (nonlinear_arith);
                }
            },
        }
    }
}

} // verus!

verus! {

/// A slice start offset is a sum of products of naturals.
proof fn lemma_slice_offset_nonneg(shape: Seq<usize>, strides: Seq<usize>, items: Seq<SliceItem>)
    ensures
        slice_offset(shape, strides, items) >= 0,
    decreases items.len(),
{
    if 0 < items.len() <= shape.len() {
        lemma_slice_offset_nonneg(shape.skip(1), strides.skip(1), items.skip(1));
        match items[0] {
            SliceItem::Index(i) => {
                assert(i * strides[0] >= 0) by (nonlinear_arith)
                    requires i >= 0, strides[0] >= 0;
            },
            SliceItem::Range { start, end, step } => {
                assert(start * strides[0] >= 0) by (nonlinear_arith)
                    requires start >= 0, strides[0] >= 0;
            },
        }
    }
}

/// The sliced shape and strides always stay aligned.
proof fn lemma_slice_lens(shape: Seq<usize>, strides: Seq<usize>, items: Seq<SliceItem>)
    requires
        strides.len() == shape.len(),
    ensures
        slice_strides(shape, strides, items).len() == slice_shape(shape, items).len(),
    decreases items.len(),
{
    if 0 < items.len() <= shape.len() {
        lemma_slice_lens(shape.skip(1), strides.skip(1), items.skip(1));
    }
}

/// A layout never needs negative storage.
proof fn lemma_min_storage_nonneg(shape: Seq<usize>, strides: Seq<usize>)
    requires
        strides.len() == shape.len(),
    ensures
        min_storage_len(shape, strides) >= 0,
{
    lemma_elem_count_pos(shape);
    if elem_count(shape) > 0 {
        lemma_max_offset_nonneg(shape, strides);
    }
}

/// Slicing an empty layout yields an empty layout.
proof fn lemma_slice_ec_zero(shape: Seq<usize>, strides: Seq<usize>, items: Seq<SliceItem>)
    requires
        strides.len() == shape.len(),
        valid_slice_items(shape, strides, items),
        elem_count(shape) == 0,
    ensures
        elem_count(slice_shape(shape, items)) == 0,
    decreases items.len(),
{
    if items.len() == 0 {
    } else {
        let sh1 = shape.skip(1);
        let st1 = strides.skip(1);
        let it1 = items.skip(1);
        let head = shape[0] as int;
        let tail = elem_count(sh1);
        lemma_elem_count_pos(sh1);
        assert(elem_count(shape) == head * tail);
        assert(head == 0 || tail == 0) by (nonlinear_arith)
            requires head >= 0, tail >= 0, head * tail == 0;
        let rest_sh = slice_shape(sh1, it1);
        lemma_elem_count_pos(rest_sh);
        if head == 0 {
            match items[0] {
                SliceItem::Index(i) => {
                    assert(false);
                },
                SliceItem::Range { start, end, step } => {
                    let e = resolved_end(shape[0], end);
                    assert(e <= 0);
                    let nsize = range_len(start as int, e, step as int);
                    assert(nsize == 0);
                    let new_sh = slice_shape(shape, items);
                    assert(new_sh[0] == 0usize);
                    assert(elem_count(new_sh) == 0) by {
                        lemma_elem_count_pos(new_sh);
                    }
                },
            }
        } else {
            lemma_slice_ec_zero(sh1, st1, it1);
            let new_sh = slice_shape(shape, items);
            match items[0] {
                SliceItem::Index(i) => {},
                SliceItem::Range { start, end, step } => {
                    assert(new_sh.skip(1) =~= slice_shape(sh1, it1));
                    assert(elem_count(new_sh) == new_sh[0] * elem_count(new_sh.skip(1)));
                    assert(new_sh[0] * 0 == 0) by (nonlinear_arith);
                },
            }
        }
    }
}

impl<const N: usize> NdLayout<N> {
    /// Slice the layout: the result addresses storage positions
    /// `start..end` of the original storage, `start` being the returned
    /// first offset, together with the layout of the sliced view.
    pub fn slice<const M: usize>(&self, items: &[SliceItem]) -> (r: (usize, usize, NdLayout<M>))
        requires
            self.wf(),
            valid_slice_items(self.shape@, self.strides@, items@),
            slice_fits(self.shape@, self.strides@, items@),
            M == slice_shape(self.shape@, items@).len(),
        ensures
            r.0 == slice_offset(self.shape@, self.strides@, items@),
            r.2.shape@ == slice_shape(self.shape@, items@),
            r.2.strides@ == slice_strides(self.shape@, self.strides@, items@),
            r.2.wf(),
            r.1 == r.0 + min_storage_len(r.2.shape@, r.2.strides@),
            r.0 <= r.1 <= min_storage_len(self.shape@, self.strides@),
    {
        let ghost sh = self.shape@;
        let ghost st = self.strides@;
        let ghost it = items@;
        proof {
            assert(it.len() <= N) by {
                if it.len() > sh.len() {
                    assert(!valid_slice_items(sh, st, it));
                }
            }
            lemma_slice_lens(sh, st, it);
            lemma_slice_offset_nonneg(sh, st, it);
            lemma_min_storage_nonneg(slice_shape(sh, it), slice_strides(sh, st, it));
            let zero: int = 0;
            assert(sh.skip(zero) =~= sh);
            assert(st.skip(zero) =~= st);
            assert(it.skip(zero) =~= it);
            assert(slice_shape(sh, it).take(zero) =~= Seq::<usize>::empty());
        }
        let mut out_sh = vstd::array::array_fill_for_copy_types::<usize, M>(0);
        let mut out_st = vstd::array::array_fill_for_copy_types::<usize, M>(0);
        let mut acc: usize = 0;
        let mut m: usize = 0;
        let mut d: usize = 0;
        let n_items = items.len();
        while d < n_items
            invariant
                d <= n_items <= N,
                n_items == it.len(),
                sh == self.shape@,
                st == self.strides@,
                it == items@,
                self.wf(),
                valid_slice_items(sh, st, it),
                slice_fits(sh, st, it),
                valid_slice_items(sh.skip(d as int), st.skip(d as int), it.skip(d as int)),
                out_sh@.len() == M,
                out_st@.len() == M,
                m <= M,
                M == slice_shape(sh, it).len(),
                slice_offset(sh, st, it) == acc + slice_offset(
                    sh.skip(d as int),
                    st.skip(d as int),
                    it.skip(d as int),
                ),
                slice_shape(sh, it) =~= out_sh@.take(m as int) + slice_shape(
                    sh.skip(d as int),
                    it.skip(d as int),
                ),
                slice_strides(sh, st, it) =~= out_st@.take(m as int) + slice_strides(
                    sh.skip(d as int),
                    st.skip(d as int),
                    it.skip(d as int),
                ),
            decreases n_items - d,
        {
            proof {
                assert(sh.skip(d as int).skip(1) =~= sh.skip(d + 1));
                assert(st.skip(d as int).skip(1) =~= st.skip(d + 1));
                assert(it.skip(d as int).skip(1) =~= it.skip(d + 1));
                assert(sh.skip(d as int)[0] == sh[d as int]);
                assert(st.skip(d as int)[0] == st[d as int]);
                assert(it.skip(d as int)[0] == it[d as int]);
                lemma_slice_offset_nonneg(sh.skip(d + 1), st.skip(d + 1), it.skip(d + 1));
                lemma_slice_offset_nonneg(sh.skip(d as int), st.skip(d as int), it.skip(d as int));
                lemma_slice_offset_nonneg(sh, st, it);
                lemma_slice_lens(sh, st, it);
                lemma_min_storage_nonneg(slice_shape(sh, it), slice_strides(sh, st, it));
            }
            match items[d] {
                SliceItem::Index(i) => {
                    proof {
                        assert(i * st[d as int] + slice_offset(
                            sh.skip(d + 1),
                            st.skip(d + 1),
                            it.skip(d + 1),
                        ) == slice_offset(sh.skip(d as int), st.skip(d as int), it.skip(d as int)));
                        assert(i * st[d as int] >= 0) by (nonlinear_arith)
                            requires i >= 0, st[d as int] >= 0;
                    }
                    acc = acc + i * self.strides[d];
                },
                SliceItem::Range { start, end, step } => {
                    let e = match end {
                        Some(x) => x,
                        None => self.shape[d],
                    };
                    let nsize: usize = if e <= start {
                        0
                    } else {
                        (e - start - 1) / step + 1
                    };
                    proof {
                        assert(nsize as int == range_len(
                            start as int,
                            resolved_end(sh[d as int], end),
                            step as int,
                        ));
                        assert(start * st[d as int] + slice_offset(
                            sh.skip(d + 1),
                            st.skip(d + 1),
                            it.skip(d + 1),
                        ) == slice_offset(sh.skip(d as int), st.skip(d as int), it.skip(d as int)));
                        assert(start * st[d as int] >= 0) by (nonlinear_arith)
                            requires start >= 0, st[d as int] >= 0;
                        assert(m < M) by {
                            assert(slice_shape(sh, it)[m as int] == slice_shape(
                                sh.skip(d as int),
                                it.skip(d as int),
                            )[0]);
                        }
                    }
                    out_sh[m] = nsize;
                    out_st[m] = step * self.strides[d];
                    acc = acc + start * self.strides[d];
                    m = m + 1;
                    proof {
                        assert(slice_shape(sh, it) =~= out_sh@.take(m as int) + slice_shape(
                            sh.skip(d + 1),
                            it.skip(d + 1),
                        ));
                        assert(slice_strides(sh, st, it) =~= out_st@.take(m as int)
                            + slice_strides(sh.skip(d + 1), st.skip(d + 1), it.skip(d + 1)));
                    }
                },
            }
            d = d + 1;
        }
        proof {
            assert(it.skip(n_items as int) =~= Seq::<SliceItem>::empty());
            assert(slice_offset(sh.skip(d as int), st.skip(d as int), it.skip(d as int)) == 0);
        }
        while d < N
            invariant
                n_items <= d <= N,
                n_items == it.len(),
                sh == self.shape@,
                st == self.strides@,
                it == items@,
                self.wf(),
                valid_slice_items(sh, st, it),
                slice_fits(sh, st, it),
                out_sh@.len() == M,
                out_st@.len() == M,
                m <= M,
                M == slice_shape(sh, it).len(),
                acc == slice_offset(sh, st, it),
                slice_shape(sh, it) =~= out_sh@.take(m as int) + sh.skip(d as int),
                slice_strides(sh, st, it) =~= out_st@.take(m as int) + st.skip(d as int),
            decreases N - d,
        {
            proof {
                assert(sh.skip(d as int)[0] == sh[d as int]);
                assert(st.skip(d as int)[0] == st[d as int]);
                assert(m < M) by {
                    assert(slice_shape(sh, it)[m as int] == sh.skip(d as int)[0]);
                }
            }
            out_sh[m] = self.shape[d];
            out_st[m] = self.strides[d];
            m = m + 1;
            d = d + 1;
            proof {
                assert(sh.skip(d - 1).skip(1) =~= sh.skip(d as int));
                assert(st.skip(d - 1).skip(1) =~= st.skip(d as int));
                assert(slice_shape(sh, it) =~= out_sh@.take(m as int) + sh.skip(d as int));
                assert(slice_strides(sh, st, it) =~= out_st@.take(m as int) + st.skip(d as int));
            }
        }
        proof {
            assert(sh.skip(N as int) =~= Seq::<usize>::empty());
            assert(st.skip(N as int) =~= Seq::<usize>::empty());
            assert(m == M);
            assert(out_sh@.take(M as int) =~= out_sh@);
            assert(out_st@.take(M as int) =~= out_st@);
        }
        let new_layout = NdLayout::<M> { shape: out_sh, strides: out_st };
        proof {
            // Well-formedness of the sliced layout.
            lemma_elem_count_pos(sh);
            if elem_count(sh) > 0 {
                lemma_slice_fits(sh, st, it);
            } else {
                lemma_slice_ec_zero(sh, st, it);
            }
            lemma_min_storage_nonneg(new_layout.shape@, new_layout.strides@);
            lemma_slice_offset_nonneg(sh, st, it);
        }
        let end_off = acc + new_layout.min_data_len();
        (acc, end_off, new_layout)
    }
}

} // verus!

verus! {

/// Law: permuting the axes by `p` and then by any left inverse `q` of `p`
/// restores the original layout exactly, so the logical order of the
/// elements is restored as well.
pub proof fn lemma_permute_inverse<const N: usize>(
    a: NdLayout<N>,
    b: NdLayout<N>,
    c: NdLayout<N>,
    p: Seq<usize>,
    q: Seq<usize>,
)
    requires
        spec_is_permutation(p, N as int),
        spec_is_permutation(q, N as int),
        forall|i: int| 0 <= i < N ==> p[q[i] as int] == i,
        b.shape@ == permute_seq(a.shape@, p),
        b.strides@ == permute_seq(a.strides@, p),
        c.shape@ == permute_seq(b.shape@, q),
        c.strides@ == permute_seq(b.strides@, q),
    ensures
        c.shape@ == a.shape@,
        c.strides@ == a.strides@,
{
    assert forall|i: int| 0 <= i < N implies c.shape@[i] == a.shape@[i] && c.strides@[i]
        == a.strides@[i] by {
        assert(c.shape@[i] == b.shape@[q[i] as int]);
        assert(b.shape@[q[i] as int] == a.shape@[p[q[i] as int] as int]);
        assert(c.strides@[i] == b.strides@[q[i] as int]);
        assert(b.strides@[q[i] as int] == a.strides@[p[q[i] as int] as int]);
    }
    assert(c.shape@ =~= a.shape@);
    assert(c.strides@ =~= a.strides@);
}

/// The mixed-radix digits of a row-major offset recover the index: the
/// inverse direction of the layout round trip.
pub proof fn lemma_flatten_unflatten(index: Seq<usize>, shape: Seq<usize>, strides: Seq<usize>)
    requires
        index_in_bounds(index, shape),
        strides.len() == shape.len(),
        elem_count(shape) > 0,
        forall|d: int| 0 <= d < shape.len() ==> strides[d] == elem_count(shape.skip(d + 1)),
    ensures
        0 <= offset_of(index, strides) < elem_count(shape),
        unflatten_index(offset_of(index, strides), shape) == index,
    decreases shape.len(),
{
    lemma_elem_count_pos(shape);
    if shape.len() == 0 {
        assert(index =~= Seq::<usize>::empty());
        assert(unflatten_index(0, shape) =~= index);
    } else {
        let sh1 = shape.skip(1);
        let st1 = strides.skip(1);
        let tail = elem_count(sh1);
        lemma_elem_count_pos(sh1);
        assert forall|d: int| 0 <= d < sh1.len() implies #[trigger] st1[d] == elem_count(
            sh1.skip(d + 1),
        ) by {
            assert(st1[d] == strides[d + 1]);
            assert(sh1.skip(d + 1) =~= shape.skip(d + 2));
        }
        assert forall|d: int| 0 <= d < sh1.len() implies index.skip(1)[d] < sh1[d] by {
            assert(index.skip(1)[d] == index[d + 1]);
        }
        lemma_flatten_unflatten(index.skip(1), sh1, st1);
        let rest = offset_of(index.skip(1), st1);
        let zero: int = 0;
        assert(shape.skip(zero + 1) =~= sh1);
        assert(strides[0] == tail);
        let off = offset_of(index, strides);
        assert(off == index[0] * tail + rest);
        assert(0 <= rest < tail);
        // Offset bounds: the leading digit contributes whole blocks of
        // `tail` elements.
        assert(index[0] * tail + rest < elem_count(shape)) by (nonlinear_arith)
            requires
                0 <= rest < tail,
                index[0] < shape[0],
                elem_count(shape) == shape[0] * tail,
        ;
        assert(index[0] * tail >= 0) by (nonlinear_arith)
            requires index[0] >= 0, tail >= 0;
        // Division recovers the leading digit, the remainder the rest.
        assert(off / tail == index[0] && off % tail == rest) by (nonlinear_arith)
            requires
                off == index[0] * tail + rest,
                0 <= rest < tail,
                index[0] >= 0,
        ;
        assert(unflatten_index(off, shape) == seq![(off / tail) as usize] + unflatten_index(
            off % tail,
            sh1,
        ));
        assert(unflatten_index(off, shape) =~= index);
    }
}

/// A row-major contiguous layout maps distinct in-bounds indices to
/// distinct offsets.
pub open spec fn spec_unique_offsets(shape: Seq<usize>, strides: Seq<usize>) -> bool {
    forall|i1: Seq<usize>, i2: Seq<usize>|
        index_in_bounds(i1, shape) && index_in_bounds(i2, shape) && offset_of(i1, strides)
            == offset_of(i2, strides) ==> i1 == i2
}

/// A layout with exact row-major strides never maps two distinct indices
/// to one offset.
pub proof fn lemma_contiguous_unique_offsets(shape: Seq<usize>, strides: Seq<usize>)
    requires
        strides.len() == shape.len(),
        forall|d: int| 0 <= d < shape.len() ==> strides[d] == elem_count(shape.skip(d + 1)),
    ensures
        spec_unique_offsets(shape, strides),
{
    lemma_elem_count_pos(shape);
    if elem_count(shape) > 0 {
        assert forall|i1: Seq<usize>, i2: Seq<usize>|
            index_in_bounds(i1, shape) && index_in_bounds(i2, shape) && offset_of(i1, strides)
                == offset_of(i2, strides) implies i1 == i2 by {
            lemma_flatten_unflatten(i1, shape, strides);
            lemma_flatten_unflatten(i2, shape, strides);
        }
    } else {
        assert forall|i1: Seq<usize>, i2: Seq<usize>|
            index_in_bounds(i1, shape) && index_in_bounds(i2, shape) && offset_of(i1, strides)
                == offset_of(i2, strides) implies i1 == i2 by {
            let bad = choose|d: int| 0 <= d < shape.len() && shape[d] == 0;
            assert(i1[bad] < shape[bad]);
            assert(false);
        }
    }
}

} // verus!

verus! {

/// Every trailing element count of `shape` fits in `usize`, so row-major
/// strides for it can be computed exactly.
pub open spec fn shape_counts_fit(shape: Seq<usize>) -> bool {
    forall|d: int| 0 <= d <= shape.len() ==> elem_count(#[trigger] shape.skip(d)) <= usize::MAX
}

/// For a non-empty shape whose element count fits, every trailing count
/// fits as well.
pub proof fn lemma_counts_fit_of_nonempty(shape: Seq<usize>)
    requires
        0 < elem_count(shape) <= usize::MAX,
    ensures
        shape_counts_fit(shape),
{
    lemma_elem_count_pos(shape);
    assert forall|d: int| 0 <= d <= shape.len() implies elem_count(#[trigger] shape.skip(d))
        <= usize::MAX by {
        lemma_elem_count_skip_le(shape, d);
    }
}

} // verus!

verus! {

/// A contiguous layout needs exactly as much storage as it has elements.
pub proof fn lemma_contiguous_min_storage(shape: Seq<usize>, strides: Seq<usize>)
    requires
        is_contiguous_layout(shape, strides),
    ensures
        min_storage_len(shape, strides) == if elem_count(shape) == 0 {
            0int
        } else {
            elem_count(shape)
        },
    decreases shape.len(),
{
    lemma_elem_count_pos(shape);
    if elem_count(shape) > 0 && shape.len() > 0 {
        let sh1 = shape.skip(1);
        let st1 = strides.skip(1);
        assert forall|d: int|
            0 <= d < sh1.len() && sh1[d] != 1 implies #[trigger] st1[d] == elem_count(
            sh1.skip(d + 1),
        ) by {
            assert(st1[d] == strides[d + 1]);
            assert(sh1[d] == shape[d + 1]);
            assert(sh1.skip(d + 1) =~= shape.skip(d + 2));
        }
        lemma_elem_count_pos(sh1);
        lemma_contiguous_min_storage(sh1, st1);
        let zero: int = 0;
        assert(shape.skip(zero + 1) =~= sh1);
        let head = shape[0] as int;
        let tail = elem_count(sh1);
        if shape[0] == 1 {
            assert((head - 1) * strides[0] == 0) by (nonlinear_arith)
                requires head == 1;
            assert(head * tail == tail) by (nonlinear_arith)
                requires head == 1;
        } else {
            assert(strides[0] == tail);
            assert((head - 1) * tail + (tail - 1) == head * tail - 1) by (nonlinear_arith);
        }
    }
}

} // verus!

verus! {

/// Distinct logical positions have distinct mixed-radix digit strings.
pub proof fn lemma_unflatten_injective(k1: int, k2: int, shape: Seq<usize>)
    requires
        0 <= k1 < elem_count(shape),
        0 <= k2 < elem_count(shape),
        k1 != k2,
        elem_count(shape) <= usize::MAX,
    ensures
        unflatten_index(k1, shape) != unflatten_index(k2, shape),
{
    lemma_elem_count_pos(shape);
    lemma_counts_fit_of_nonempty(shape);
    let rm = Seq::new(shape.len(), |d: int| elem_count(shape.skip(d + 1)) as usize);
    assert forall|d: int| 0 <= d < shape.len() implies rm[d] == elem_count(shape.skip(d + 1)) by {
        lemma_elem_count_skip_le(shape, d + 1);
    }
    lemma_unflatten_offset(k1, shape, rm);
    lemma_unflatten_offset(k2, shape, rm);
}

} // verus!
