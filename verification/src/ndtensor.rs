//! Multi-dimensional arrays with a static dimension count.
//!
//! [`NdTensorBase`] pairs element storage with an [`NdLayout`]; the type
//! aliases [`NdTensor`], [`NdTensorView`] and [`NdTensorViewMut`] choose
//! owned, shared-borrowed or mutably-borrowed storage. The mathematical
//! model of a tensor is its *logical view*: the sequence of its elements
//! in row-major order over the current shape, independent of how they are
//! scattered through storage.
use vstd::prelude::*;
use vstd::std_specs::cmp::PartialEqSpec;

use crate::errors::{DimensionError, FromDataError};
use crate::layout::{
    broadcast_compatible, broadcast_stride, elem_count, index_in_bounds, layout_wf,
    lemma_contiguous_unique_offsets, lemma_elem_count_pos, lemma_elem_count_skip_le,
    lemma_offset_bounded, lemma_unflatten_in_bounds, lemma_unflatten_offset, max_offset,
    may_overlap, min_storage_len, offset_of, permute_seq, shape_counts_fit, slice_fits,
    slice_offset, slice_shape, slice_strides, spec_is_permutation, spec_unique_offsets,
    unflatten_index, valid_slice_items, NdLayout, OverlapPolicy, SliceItem,
};
use crate::storage::{CowData, Storage, StorageMut};

verus! {

broadcast use vstd::array::group_array_axioms;

/// Relies on `core::marker::PhantomData`'s derived `Clone`: cloning the
/// zero-sized marker yields the marker itself. Needed so that tensors can
/// derive `Clone`.
pub assume_specification<T: core::marker::PointeeSized>[ <core::marker::PhantomData<T> as Clone>::clone ](
    x: &core::marker::PhantomData<T>,
) -> (r: core::marker::PhantomData<T>)
    ensures
        r == *x,
;

/// The elements of a strided layout in row-major logical order.
pub open spec fn tensor_view_seq<T>(data: Seq<T>, shape: Seq<usize>, strides: Seq<usize>) -> Seq<
    T,
> {
    Seq::new(
        elem_count(shape) as nat,
        |k: int| data[offset_of(unflatten_index(k, shape), strides)],
    )
}

/// N-dimensional array, where `N` is specified as a generic argument.
///
/// `T` is the element type, `S` is the element storage and `N` is the
/// number of dimensions.
#[derive(Clone, Copy, Debug)]
pub struct NdTensorBase<T, S, const N: usize> {
    pub data: S,
    pub layout: NdLayout<N>,
    pub element_type: core::marker::PhantomData<T>,
}

/// Variant of [`NdTensorBase`] which owns its elements.
pub type NdTensor<T, const N: usize> = NdTensorBase<T, Vec<T>, N>;

/// Variant of [`NdTensorBase`] which borrows its elements immutably.
pub type NdTensorView<'a, T, const N: usize> = NdTensorBase<T, &'a [T], N>;

/// Variant of [`NdTensorBase`] which borrows its elements mutably.
pub type NdTensorViewMut<'a, T, const N: usize> = NdTensorBase<T, &'a mut [T], N>;

/// Alias for viewing a slice as a 2D matrix.
pub type Matrix<'a, T> = NdTensorBase<T, &'a [T], 2>;

/// Alias for viewing a mutable slice as a 2D matrix.
pub type MatrixMut<'a, T> = NdTensorBase<T, &'a mut [T], 2>;

impl<T, S: Storage<T>, const N: usize> NdTensorBase<T, S, N> {
    /// The tensor's storage holds every offset its layout can reach.
    pub open spec fn wf(&self) -> bool {
        &&& self.layout.wf()
        &&& min_storage_len(self.layout.shape@, self.layout.strides@) <= self.data.sview().len()
    }

    /// The stored elements, as a sequence.
    pub open spec fn data_seq(&self) -> Seq<T> {
        self.data.sview()
    }

    /// The shape, as a sequence.
    pub open spec fn shape_seq(&self) -> Seq<usize> {
        self.layout.shape@
    }

    /// The strides, as a sequence.
    pub open spec fn strides_seq(&self) -> Seq<usize> {
        self.layout.strides@
    }

    /// The logical view: the elements in row-major order over the current
    /// shape. This is the mathematical model every contract speaks of.
    pub open spec fn view_seq(&self) -> Seq<T> {
        tensor_view_seq(self.data.sview(), self.layout.shape@, self.layout.strides@)
    }

    /// Constructs a tensor from storage, laid out contiguously.
    pub fn from_data(shape: [usize; N], data: S) -> (r: NdTensorBase<T, S, N>)
        requires
            shape_counts_fit(shape@),
            elem_count(shape@) <= data.sview().len(),
        ensures
            r.wf(),
            r.shape_seq() == shape@,
            forall|d: int| 0 <= d < N ==> r.strides_seq()[d] == elem_count(shape@.skip(d + 1)),
            r.data_seq() == data.sview(),
            r.view_seq() == data.sview().take(elem_count(shape@) as int),
            spec_unique_offsets(r.shape_seq(), r.strides_seq()),
    {
        proof {
            assert forall|d: int| 0 <= d <= N implies elem_count(shape@.skip(d)) <= usize::MAX by {
                assert(elem_count(#[trigger] shape@.skip(d)) <= usize::MAX);
            }
        }
        let layout = NdLayout::from_shape(shape);
        let r = NdTensorBase { data, layout, element_type: core::marker::PhantomData };
        proof {
            lemma_contiguous_unique_offsets(shape@, layout.strides@);
            let ec = elem_count(shape@);
            lemma_elem_count_pos(shape@);
            assert forall|k: int| 0 <= k < ec implies r.view_seq()[k] == r.data.sview()[k] by {
                lemma_unflatten_in_bounds(k, shape@);
                lemma_unflatten_offset(k, shape@, layout.strides@);
            }
            assert(r.view_seq() =~= data.sview().take(ec as int));
        }
        r
    }

    /// Constructs a tensor from storage and explicit strides.
    ///
    /// Strides that could make two distinct indices share one storage
    /// element are rejected with [`FromDataError::MayOverlap`] by the
    /// conservative aliasing test, since this constructor is also used
    /// for mutable tensors; storage too short for the layout is rejected
    /// with [`FromDataError::StorageTooShort`].
    pub fn from_data_with_strides(shape: [usize; N], data: S, strides: [usize; N]) -> (r: Result<
        NdTensorBase<T, S, N>,
        FromDataError,
    >)
        ensures
            match r {
                Ok(t) => {
                    &&& t.wf()
                    &&& t.shape_seq() == shape@
                    &&& t.strides_seq() == strides@
                    &&& t.data_seq() == data.sview()
                    &&& !may_overlap(shape@, strides@)
                },
                Err(e) => match e {
                    FromDataError::MayOverlap => may_overlap(shape@, strides@),
                    FromDataError::StorageTooShort => !may_overlap(shape@, strides@) && !(
                    layout_wf(shape@, strides@) && min_storage_len(shape@, strides@)
                        <= data.sview().len()),
                },
            },
            r is Ok <==> (!may_overlap(shape@, strides@) && layout_wf(shape@, strides@)
                && min_storage_len(shape@, strides@) <= data.sview().len()),
    {
        let layout = match NdLayout::try_from_shape_and_strides(
            shape,
            strides,
            OverlapPolicy::DisallowOverlap,
        ) {
            Ok(l) => l,
            Err(e) => {
                return Err(e);
            },
        };
        if layout.min_data_len() > data.slen() {
            return Err(FromDataError::StorageTooShort);
        }
        Ok(NdTensorBase { data, layout, element_type: core::marker::PhantomData })
    }

    /// Consume self and return the underlying element storage.
    pub fn into_data(self) -> (r: S)
        ensures
            r == self.data,
            r.sview() == self.data_seq(),
    {
        self.data
    }

    /// Return the layout which maps indices to offsets in the data.
    pub fn layout(&self) -> (r: &NdLayout<N>)
        ensures
            r == &self.layout,
            r.shape@ == self.shape_seq(),
            r.strides@ == self.strides_seq(),
    {
        &self.layout
    }

    /// The extent of every axis.
    pub fn shape(&self) -> (r: [usize; N])
        ensures
            r@ == self.shape_seq(),
    {
        self.layout.shape
    }

    /// The stride of every axis.
    pub fn strides(&self) -> (r: [usize; N])
        ensures
            r@ == self.strides_seq(),
    {
        self.layout.strides
    }

    /// The number of dimensions.
    pub fn ndim(&self) -> (r: usize)
        ensures
            r == N,
    {
        N
    }

    /// The number of logical elements.
    pub fn len(&self) -> (r: usize)
        requires
            self.wf(),
        ensures
            r == self.view_seq().len(),
    {
        proof {
            lemma_elem_count_pos(self.layout.shape@);
        }
        self.layout.len()
    }

    /// True when the tensor holds no elements.
    pub fn is_empty(&self) -> (r: bool)
        requires
            self.wf(),
        ensures
            r == (self.view_seq().len() == 0),
    {
        self.len() == 0
    }

    /// The extent of axis `dim`.
    pub fn size(&self, dim: usize) -> (r: usize)
        requires
            dim < N,
        ensures
            r == self.shape_seq()[dim as int],
    {
        self.layout.size(dim)
    }

    /// The stride of axis `dim`.
    pub fn stride(&self, dim: usize) -> (r: usize)
        requires
            dim < N,
        ensures
            r == self.strides_seq()[dim as int],
    {
        self.layout.stride(dim)
    }

    /// The storage offset of `index`, or `None` when out of bounds.
    pub fn try_offset(&self, index: [usize; N]) -> (r: Option<usize>)
        requires
            self.wf(),
        ensures
            match r {
                Some(off) => index_in_bounds(index@, self.shape_seq()) && off == offset_of(
                    index@,
                    self.strides_seq(),
                ),
                None => !index_in_bounds(index@, self.shape_seq()),
            },
    {
        self.layout.try_offset(index)
    }

    /// The element at `index`, or `None` when out of bounds.
    pub fn get(&self, index: [usize; N]) -> (r: Option<&T>)
        requires
            self.wf(),
        ensures
            match r {
                Some(v) => index_in_bounds(index@, self.shape_seq()) && *v == self.data_seq()[
                    offset_of(index@, self.strides_seq())],
                None => !index_in_bounds(index@, self.shape_seq()),
            },
    {
        match self.layout.try_offset(index) {
            Some(off) => {
                proof {
                    lemma_elem_count_pos(self.layout.shape@);
                    lemma_offset_bounded(index@, self.layout.shape@, self.layout.strides@);
                }
                Some(self.data.sget(off))
            },
            None => None,
        }
    }

    /// The element at an in-bounds `index`.
    pub fn at(&self, index: [usize; N]) -> (r: &T)
        requires
            self.wf(),
            index_in_bounds(index@, self.shape_seq()),
        ensures
            *r == self.data_seq()[offset_of(index@, self.strides_seq())],
    {
        let off = self.layout.offset(index);
        proof {
            lemma_elem_count_pos(self.layout.shape@);
            lemma_offset_bounded(index@, self.layout.shape@, self.layout.strides@);
        }
        self.data.sget(off)
    }

    /// Return the underlying data of the tensor as a slice, if it is
    /// contiguous.
    pub fn data(&self) -> (r: Option<&[T]>)
        requires
            self.wf(),
        ensures
            match r {
                Some(s) => self.layout.spec_contiguous() && s@ == self.data_seq(),
                None => !self.layout.spec_contiguous(),
            },
    {
        if self.layout.is_contiguous() {
            Some(self.data.sborrow())
        } else {
            None
        }
    }

    /// An immutable view sharing this tensor's storage and layout.
    pub fn view(&self) -> (r: NdTensorView<'_, T, N>)
        ensures
            r.data_seq() == self.data_seq(),
            r.layout == self.layout,
            self.wf() ==> r.wf(),
            r.view_seq() == self.view_seq(),
    {
        NdTensorBase {
            data: self.data.sborrow(),
            layout: self.layout,
            element_type: core::marker::PhantomData,
        }
    }
}

} // verus!

verus! {

/// Walk a strided layout in row-major logical order and collect the
/// elements. Shared by the fixed-rank and dynamic-rank tensors.
pub(crate) fn collect_logical<T: Copy, S: Storage<T>>(
    data: &S,
    shape: &[usize],
    strides: &[usize],
) -> (r: Vec<T>)
    requires
        layout_wf(shape@, strides@),
        min_storage_len(shape@, strides@) <= data.sview().len(),
    ensures
        r@ == tensor_view_seq(data.sview(), shape@, strides@),
{
    let ghost sh = shape@;
    let ghost st = strides@;
    let n = shape.len();
    let mut out: Vec<T> = Vec::new();
    // An empty tensor needs no walk.
    let mut d: usize = 0;
    while d < n
        invariant
            d <= n,
            n == sh.len(),
            sh == shape@,
            out@.len() == 0,
            forall|j: int| 0 <= j < d ==> sh[j] > 0,
        decreases n - d,
    {
        if shape[d] == 0 {
            proof {
                lemma_elem_count_pos(sh);
                assert(tensor_view_seq(data.sview(), sh, st) =~= out@);
            }
            return out;
        }
        d = d + 1;
    }
    proof {
        lemma_elem_count_pos(sh);
    }
    // Element count, accumulated from the innermost axis outwards.
    let mut acc: usize = 1;
    let mut e: usize = n;
    proof {
        assert(sh.skip(n as int) =~= Seq::<usize>::empty());
    }
    while e > 0
        invariant
            e <= n,
            n == sh.len(),
            sh == shape@,
            forall|j: int| 0 <= j < n ==> sh[j] > 0,
            elem_count(sh) <= usize::MAX,
            acc == elem_count(sh.skip(e as int)),
        decreases e,
    {
        e = e - 1;
        proof {
            assert(sh.skip(e as int).skip(1) =~= sh.skip(e + 1));
            assert(sh.skip(e as int)[0] == sh[e as int]);
            lemma_elem_count_skip_le(sh, e as int);
        }
        acc = shape[e] * acc;
    }
    proof {
        let zero: int = 0;
        assert(sh.skip(zero) =~= sh);
    }
    let count: usize = acc;
    let ghost goal = tensor_view_seq(data.sview(), sh, st);
    let mut k: usize = 0;
    while k < count
        invariant
            k <= count,
            count == elem_count(sh),
            sh == shape@,
            st == strides@,
            n == sh.len(),
            st.len() == n,
            forall|j: int| 0 <= j < n ==> sh[j] > 0,
            layout_wf(sh, st),
            min_storage_len(sh, st) <= data.sview().len(),
            goal == tensor_view_seq(data.sview(), sh, st),
            out@.len() == k,
            forall|j: int| 0 <= j < k ==> out@[j] == goal[j],
        decreases count - k,
    {
        let ghost full = unflatten_index(k as int, sh);
        proof {
            lemma_unflatten_in_bounds(k as int, sh);
            lemma_offset_bounded(full, sh, st);
        }
        let ghost total = offset_of(full, st);
        proof {
            let zero: int = 0;
            assert(sh.skip(zero) =~= sh);
            assert(st.skip(zero) =~= st);
        }
        let mut off: usize = 0;
        let mut rem: usize = k;
        let mut cur: usize = count;
        let mut d2: usize = 0;
        while d2 < n
            invariant
                d2 <= n,
                sh == shape@,
                st == strides@,
                n == sh.len(),
                st.len() == n,
                forall|j: int| 0 <= j < n ==> sh[j] > 0,
                layout_wf(sh, st),
                total == offset_of(unflatten_index(k as int, sh), st),
                0 <= total <= max_offset(sh, st),
                elem_count(sh) > 0,
                cur == elem_count(sh.skip(d2 as int)),
                rem < cur,
                total == off + offset_of(
                    unflatten_index(rem as int, sh.skip(d2 as int)),
                    st.skip(d2 as int),
                ),
            decreases n - d2,
        {
            proof {
                assert(sh.skip(d2 as int).skip(1) =~= sh.skip(d2 + 1));
                assert(st.skip(d2 as int).skip(1) =~= st.skip(d2 + 1));
                assert(sh.skip(d2 as int)[0] == sh[d2 as int]);
                assert(st.skip(d2 as int)[0] == st[d2 as int]);
                lemma_elem_count_skip_le(sh, d2 + 1);
                lemma_elem_count_pos(sh.skip(d2 + 1));
            }
            let ghost tail_spec = elem_count(sh.skip(d2 + 1));
            proof {
                assert(cur == sh[d2 as int] * tail_spec);
                assert(cur as int / (sh[d2 as int] as int) == tail_spec) by (nonlinear_arith)
                    requires
                        cur == sh[d2 as int] * tail_spec,
                        sh[d2 as int] > 0,
                        tail_spec >= 0,
                ;
            }
            let tail = cur / shape[d2];
            proof {
                let remi = rem as int;
                let taili = tail as int;
                assert(taili == tail_spec);
                assert(taili > 0);
                assert(0 <= remi / taili) by (nonlinear_arith)
                    requires remi >= 0, taili > 0;
                assert(remi / taili < sh[d2 as int]) by (nonlinear_arith)
                    requires
                        taili > 0,
                        0 <= remi,
                        remi < sh[d2 as int] * taili,
                ;
                vstd::arithmetic::div_mod::lemma_mod_bound(remi, taili);
                let idx2 = unflatten_index(remi, sh.skip(d2 as int));
                assert(idx2[0] == remi / taili);
                assert(idx2.skip(1) =~= unflatten_index(remi % taili, sh.skip(d2 + 1)));
                assert(offset_of(idx2, st.skip(d2 as int)) == (remi / taili) * st[d2 as int]
                    + offset_of(
                    unflatten_index(remi % taili, sh.skip(d2 + 1)),
                    st.skip(d2 + 1),
                ));
                // Both remaining summands are non-negative, so each part
                // stays within the total.
                assert forall|jj: int|
                    0 <= jj < sh.skip(d2 + 1).len() implies #[trigger] sh.skip(d2 + 1)[jj]
                    > 0 by {
                    assert(sh.skip(d2 + 1)[jj] == sh[d2 + 1 + jj]);
                }
                lemma_unflatten_in_bounds(remi % taili, sh.skip(d2 + 1));
                lemma_offset_bounded(
                    unflatten_index(remi % taili, sh.skip(d2 + 1)),
                    sh.skip(d2 + 1),
                    st.skip(d2 + 1),
                );
            }
            let digit = rem / tail;
            rem = rem % tail;
            off = off + digit * strides[d2];
            cur = tail;
            d2 = d2 + 1;
        }
        proof {
            assert(sh.skip(n as int) =~= Seq::<usize>::empty());
            assert(st.skip(n as int) =~= Seq::<usize>::empty());
            assert(off == total);
            lemma_elem_count_pos(sh);
            assert(min_storage_len(sh, st) == max_offset(sh, st) + 1);
        }
        out.push(*data.sget(off));
        k = k + 1;
    }
    proof {
        assert(out@ =~= goal);
    }
    out
}

impl<T: Copy, S: Storage<T>, const N: usize> NdTensorBase<T, S, N> {
    /// Return a copy of the elements of this tensor in their logical
    /// order as a vector.
    pub fn to_vec(&self) -> (r: Vec<T>)
        requires
            self.wf(),
        ensures
            r@ == self.view_seq(),
    {
        collect_logical(
            &self.data,
            vstd::array::array_as_slice(&self.layout.shape),
            vstd::array::array_as_slice(&self.layout.strides),
        )
    }

    /// The elements in logical order. Each call walks the tensor afresh.
    pub fn iter(&self) -> (r: Vec<T>)
        requires
            self.wf(),
        ensures
            r@ == self.view_seq(),
    {
        self.to_vec()
    }

    /// Return a new contiguous tensor with the same shape and elements as
    /// this view.
    pub fn to_tensor(&self) -> (r: NdTensor<T, N>)
        requires
            self.wf(),
            shape_counts_fit(self.shape_seq()),
        ensures
            r.wf(),
            r.shape_seq() == self.shape_seq(),
            r.view_seq() == self.view_seq(),
            r.layout.spec_contiguous(),
    {
        proof {
            lemma_elem_count_pos(self.layout.shape@);
        }
        let data = self.to_vec();
        let r = NdTensor::<T, N>::from_data(self.shape(), data);
        proof {
            assert(r.view_seq() =~= self.view_seq());
        }
        r
    }

    /// Return a tensor with data laid out in contiguous order. This will
    /// be a view if the data is already contiguous, or a copy otherwise.
    pub fn to_contiguous(&self) -> (r: NdTensorBase<T, CowData<'_, T>, N>)
        requires
            self.wf(),
            shape_counts_fit(self.shape_seq()),
        ensures
            r.wf(),
            r.shape_seq() == self.shape_seq(),
            r.view_seq() == self.view_seq(),
            r.layout.spec_contiguous(),
            self.layout.spec_contiguous() ==> r.data is Borrowed && r.data_seq()
                == self.data_seq() && r.layout == self.layout,
    {
        if self.layout.is_contiguous() {
            NdTensorBase {
                data: CowData::Borrowed(self.data.sborrow()),
                layout: self.layout,
                element_type: core::marker::PhantomData,
            }
        } else {
            proof {
                lemma_elem_count_pos(self.layout.shape@);
            }
            let data = self.to_vec();
            let r = NdTensorBase::<T, CowData<'_, T>, N>::from_data(
                self.shape(),
                CowData::Owned(data),
            );
            proof {
                assert(r.view_seq() =~= self.view_seq());
            }
            r
        }
    }
}

} // verus!

verus! {

impl<T, S: Storage<T>, const N: usize> NdTensorBase<T, S, N> {
    /// Change the layout to put dimensions in the order specified by
    /// `dims`.
    ///
    /// This does not modify the order of elements in the data buffer, it
    /// just updates the strides used by indexing.
    pub fn permute(&mut self, dims: [usize; N])
        requires
            old(self).wf(),
            spec_is_permutation(dims@, N as int),
        ensures
            final(self).wf(),
            final(self).data == old(self).data,
            final(self).shape_seq() == permute_seq(old(self).shape_seq(), dims@),
            final(self).strides_seq() == permute_seq(old(self).strides_seq(), dims@),
    {
        self.layout = self.layout.permuted(dims);
    }

    /// A view with the dimensions re-ordered according to `dims`; element
    /// `index` of the view is element `dims` applied to `index` of self.
    pub fn permuted(&self, dims: [usize; N]) -> (r: NdTensorView<'_, T, N>)
        requires
            self.wf(),
            spec_is_permutation(dims@, N as int),
        ensures
            r.wf(),
            r.data_seq() == self.data_seq(),
            r.shape_seq() == permute_seq(self.shape_seq(), dims@),
            r.strides_seq() == permute_seq(self.strides_seq(), dims@),
    {
        NdTensorBase {
            data: self.data.sborrow(),
            layout: self.layout.permuted(dims),
            element_type: core::marker::PhantomData,
        }
    }

    /// A view with the order of the dimensions reversed.
    pub fn transposed(&self) -> (r: NdTensorView<'_, T, N>)
        requires
            self.wf(),
        ensures
            r.wf(),
            r.data_seq() == self.data_seq(),
            forall|d: int| 0 <= d < N ==> r.shape_seq()[d] == self.shape_seq()[N - 1 - d],
            forall|d: int| 0 <= d < N ==> r.strides_seq()[d] == self.strides_seq()[N - 1 - d],
    {
        NdTensorBase {
            data: self.data.sborrow(),
            layout: self.layout.transposed(),
            element_type: core::marker::PhantomData,
        }
    }

    /// A view of this tensor broadcast to `shape`: axes are right-aligned
    /// and each grown or new axis repeats its single element through a
    /// zero stride.
    pub fn broadcast<const M: usize>(&self, shape: [usize; M]) -> (r: NdTensorView<'_, T, M>)
        requires
            self.wf(),
            broadcast_compatible(self.shape_seq(), shape@),
            elem_count(shape@) <= usize::MAX,
        ensures
            r.wf(),
            r.data_seq() == self.data_seq(),
            r.shape_seq() == shape@,
            forall|j: int|
                0 <= j < M ==> r.strides_seq()[j] == broadcast_stride(
                    self.shape_seq(),
                    self.strides_seq(),
                    shape@,
                    j,
                ),
    {
        NdTensorBase {
            data: self.data.sborrow(),
            layout: self.layout.broadcast(shape),
            element_type: core::marker::PhantomData,
        }
    }

    /// A view with a new shape holding the same number of elements. The
    /// tensor must be contiguous, so the logical order is preserved.
    pub fn reshaped<const M: usize>(&self, shape: [usize; M]) -> (r: NdTensorView<'_, T, M>)
        requires
            self.wf(),
            self.layout.spec_contiguous(),
            elem_count(shape@) == elem_count(self.shape_seq()),
            shape_counts_fit(shape@),
        ensures
            r.wf(),
            r.data_seq() == self.data_seq(),
            r.shape_seq() == shape@,
            r.layout.spec_contiguous(),
            r.view_seq() == self.view_seq(),
    {
        proof {
            assert forall|d: int| 0 <= d <= M implies elem_count(shape@.skip(d)) <= usize::MAX by {
                assert(elem_count(#[trigger] shape@.skip(d)) <= usize::MAX);
            }
        }
        let r = NdTensorBase {
            data: self.data.sborrow(),
            layout: self.layout.reshaped(shape),
            element_type: core::marker::PhantomData,
        };
        proof {
            crate::layout::lemma_contiguous_min_storage(self.shape_seq(), self.strides_seq());
            lemma_reshape_view_eq(
                self.data.sview(),
                self.shape_seq(),
                self.strides_seq(),
                shape@,
                r.strides_seq(),
            );
        }
        r
    }

    /// An immutable view of part of this tensor. `M` is the dimension
    /// count after slicing: each `SliceItem::Index` item removes one axis.
    pub fn slice<const M: usize>(&self, items: &[SliceItem]) -> (r: NdTensorView<'_, T, M>)
        requires
            self.wf(),
            valid_slice_items(self.shape_seq(), self.strides_seq(), items@),
            slice_fits(self.shape_seq(), self.strides_seq(), items@),
            M == slice_shape(self.shape_seq(), items@).len(),
        ensures
            r.wf(),
            r.shape_seq() == slice_shape(self.shape_seq(), items@),
            r.strides_seq() == slice_strides(self.shape_seq(), self.strides_seq(), items@),
            r.data_seq() == self.data_seq().subrange(
                slice_offset(self.shape_seq(), self.strides_seq(), items@),
                slice_offset(self.shape_seq(), self.strides_seq(), items@) + min_storage_len(
                    slice_shape(self.shape_seq(), items@),
                    slice_strides(self.shape_seq(), self.strides_seq(), items@),
                ),
            ),
    {
        let (start, end, layout) = self.layout.slice::<M>(items);
        let whole = self.data.sborrow();
        let part = vstd::slice::slice_subrange(whole, start, end);
        NdTensorBase { data: part, layout, element_type: core::marker::PhantomData }
    }
}

/// Two contiguous layouts with equal element counts present the same data
/// in the same logical order.
proof fn lemma_reshape_view_eq<T>(
    data: Seq<T>,
    shape1: Seq<usize>,
    strides1: Seq<usize>,
    shape2: Seq<usize>,
    strides2: Seq<usize>,
)
    requires
        elem_count(shape1) == elem_count(shape2),
        strides1.len() == shape1.len(),
        strides2.len() == shape2.len(),
        forall|d: int| 0 <= d < shape1.len() && shape1[d] != 1 ==> strides1[d] == elem_count(
            shape1.skip(d + 1),
        ),
        forall|d: int| 0 <= d < shape2.len() ==> strides2[d] == elem_count(shape2.skip(d + 1)),
    ensures
        tensor_view_seq(data, shape1, strides1) == tensor_view_seq(data, shape2, strides2),
{
    let ec = elem_count(shape1);
    lemma_elem_count_pos(shape1);
    lemma_elem_count_pos(shape2);
    if ec > 0 {
        assert forall|k: int| 0 <= k < ec implies tensor_view_seq(data, shape1, strides1)[k]
            == tensor_view_seq(data, shape2, strides2)[k] by {
            lemma_unflatten_in_bounds(k, shape1);
            lemma_unflatten_in_bounds(k, shape2);
            lemma_contig_offset_eq(k, shape1, strides1);
            lemma_unflatten_offset(k, shape2, strides2);
        }
    }
    assert(tensor_view_seq(data, shape1, strides1) =~= tensor_view_seq(data, shape2, strides2));
}

/// Over a contiguous layout the offset of the `k`-th logical index is `k`,
/// also when axes of extent one carry arbitrary strides.
proof fn lemma_contig_offset_eq(k: int, shape: Seq<usize>, strides: Seq<usize>)
    requires
        0 <= k < elem_count(shape),
        strides.len() == shape.len(),
        forall|d: int| 0 <= d < shape.len() && shape[d] != 1 ==> strides[d] == elem_count(
            shape.skip(d + 1),
        ),
    ensures
        offset_of(unflatten_index(k, shape), strides) == k,
    decreases shape.len(),
{
    lemma_elem_count_pos(shape);
    if shape.len() == 0 {
    } else {
        let sh1 = shape.skip(1);
        let st1 = strides.skip(1);
        let tail = elem_count(sh1);
        lemma_elem_count_pos(sh1);
        assert forall|d: int|
            0 <= d < sh1.len() && sh1[d] != 1 implies #[trigger] st1[d] == elem_count(
            sh1.skip(d + 1),
        ) by {
            assert(st1[d] == strides[d + 1]);
            assert(sh1[d] == shape[d + 1]);
            assert(sh1.skip(d + 1) =~= shape.skip(d + 2));
        }
        vstd::arithmetic::div_mod::lemma_mod_bound(k, tail);
        lemma_contig_offset_eq(k % tail, sh1, st1);
        let idx = unflatten_index(k, shape);
        assert(idx.skip(1) =~= unflatten_index(k % tail, sh1));
        assert(0 <= k / tail < shape[0]) by (nonlinear_arith)
            requires tail > 0, 0 <= k, k < shape[0] * tail;
        assert(idx[0] == k / tail);
        if shape[0] == 1 {
            // One block only: the leading digit is zero whatever the
            // stride says.
            assert(k < tail);
            assert(k / tail == 0) by (nonlinear_arith)
                requires 0 <= k < tail;
            assert(idx[0] * strides[0] == 0) by (nonlinear_arith)
                requires idx[0] == 0;
            assert(k % tail == k) by (nonlinear_arith)
                requires 0 <= k < tail;
        } else {
            let zero: int = 0;
            assert(shape.skip(zero + 1) =~= sh1);
            assert(strides[0] == tail);
            vstd::arithmetic::div_mod::lemma_fundamental_div_mod(k, tail);
            assert((k / tail) * tail == tail * (k / tail)) by (nonlinear_arith);
        }
    }
}

} // verus!

verus! {

/// The storage offset of the `k`-th element in logical order.
pub(crate) fn logical_offset(shape: &[usize], strides: &[usize], k: usize) -> (r: usize)
    requires
        layout_wf(shape@, strides@),
        k < elem_count(shape@),
    ensures
        r == offset_of(unflatten_index(k as int, shape@), strides@),
        r < min_storage_len(shape@, strides@),
{
    let ghost sh = shape@;
    let ghost st = strides@;
    let n = shape.len();
    proof {
        lemma_elem_count_pos(sh);
        lemma_unflatten_in_bounds(k as int, sh);
        lemma_offset_bounded(unflatten_index(k as int, sh), sh, st);
        let zero: int = 0;
        assert(sh.skip(zero) =~= sh);
        assert(st.skip(zero) =~= st);
    }
    let ghost total = offset_of(unflatten_index(k as int, sh), st);
    // The element count of the axes not yet processed.
    let mut cur: usize = {
        let mut acc: usize = 1;
        let mut e: usize = n;
        proof {
            assert(sh.skip(n as int) =~= Seq::<usize>::empty());
        }
        while e > 0
            invariant
                e <= n,
                n == sh.len(),
                sh == shape@,
                forall|j: int| 0 <= j < n ==> sh[j] > 0,
                elem_count(sh) <= usize::MAX,
                acc == elem_count(sh.skip(e as int)),
            decreases e,
        {
            e = e - 1;
            proof {
                assert(sh.skip(e as int).skip(1) =~= sh.skip(e + 1));
                assert(sh.skip(e as int)[0] == sh[e as int]);
                lemma_elem_count_skip_le(sh, e as int);
            }
            acc = shape[e] * acc;
        }
        proof {
            let zero: int = 0;
            assert(sh.skip(zero) =~= sh);
        }
        acc
    };
    let mut off: usize = 0;
    let mut rem: usize = k;
    let mut d2: usize = 0;
    while d2 < n
        invariant
            d2 <= n,
            sh == shape@,
            st == strides@,
            n == sh.len(),
            st.len() == n,
            forall|j: int| 0 <= j < n ==> sh[j] > 0,
            layout_wf(sh, st),
            total == offset_of(unflatten_index(k as int, sh), st),
            0 <= total <= max_offset(sh, st),
            elem_count(sh) > 0,
            cur == elem_count(sh.skip(d2 as int)),
            rem < cur,
            total == off + offset_of(
                unflatten_index(rem as int, sh.skip(d2 as int)),
                st.skip(d2 as int),
            ),
        decreases n - d2,
    {
        proof {
            assert(sh.skip(d2 as int).skip(1) =~= sh.skip(d2 + 1));
            assert(st.skip(d2 as int).skip(1) =~= st.skip(d2 + 1));
            assert(sh.skip(d2 as int)[0] == sh[d2 as int]);
            assert(st.skip(d2 as int)[0] == st[d2 as int]);
            lemma_elem_count_skip_le(sh, d2 + 1);
            lemma_elem_count_pos(sh.skip(d2 + 1));
        }
        let ghost tail_spec = elem_count(sh.skip(d2 + 1));
        proof {
            assert(cur == sh[d2 as int] * tail_spec);
            assert(cur as int / (sh[d2 as int] as int) == tail_spec) by (nonlinear_arith)
                requires
                    cur == sh[d2 as int] * tail_spec,
                    sh[d2 as int] > 0,
                    tail_spec >= 0,
            ;
        }
        let tail = cur / shape[d2];
        proof {
            let remi = rem as int;
            let taili = tail as int;
            assert(taili == tail_spec);
            assert(taili > 0);
            assert(0 <= remi / taili) by (nonlinear_arith)
                requires remi >= 0, taili > 0;
            assert(remi / taili < sh[d2 as int]) by (nonlinear_arith)
                requires
                    taili > 0,
                    0 <= remi,
                    remi < sh[d2 as int] * taili,
            ;
            vstd::arithmetic::div_mod::lemma_mod_bound(remi, taili);
            let idx2 = unflatten_index(remi, sh.skip(d2 as int));
            assert(idx2[0] == remi / taili);
            assert(idx2.skip(1) =~= unflatten_index(remi % taili, sh.skip(d2 + 1)));
            assert(offset_of(idx2, st.skip(d2 as int)) == (remi / taili) * st[d2 as int]
                + offset_of(unflatten_index(remi % taili, sh.skip(d2 + 1)), st.skip(d2 + 1)));
            assert forall|jj: int|
                0 <= jj < sh.skip(d2 + 1).len() implies #[trigger] sh.skip(d2 + 1)[jj] > 0 by {
                assert(sh.skip(d2 + 1)[jj] == sh[d2 + 1 + jj]);
            }
            lemma_unflatten_in_bounds(remi % taili, sh.skip(d2 + 1));
            lemma_offset_bounded(
                unflatten_index(remi % taili, sh.skip(d2 + 1)),
                sh.skip(d2 + 1),
                st.skip(d2 + 1),
            );
        }
        let digit = rem / tail;
        rem = rem % tail;
        off = off + digit * strides[d2];
        cur = tail;
        d2 = d2 + 1;
    }
    proof {
        assert(sh.skip(n as int) =~= Seq::<usize>::empty());
        assert(st.skip(n as int) =~= Seq::<usize>::empty());
        assert(off == total);
        assert(min_storage_len(sh, st) == max_offset(sh, st) + 1);
    }
    off
}

impl<T, S: StorageMut<T>, const N: usize> NdTensorBase<T, S, N> {
    /// Overwrite the element at an in-bounds `index`.
    ///
    /// Every logical position whose storage offset equals the written one
    /// takes the new value; with non-aliasing strides that is exactly the
    /// position `index`.
    pub fn set(&mut self, index: [usize; N], value: T)
        requires
            old(self).wf(),
            index_in_bounds(index@, old(self).shape_seq()),
        ensures
            final(self).wf(),
            final(self).layout == old(self).layout,
            final(self).data_seq() == old(self).data_seq().update(
                offset_of(index@, old(self).strides_seq()),
                value,
            ),
    {
        let off = self.layout.offset(index);
        proof {
            lemma_elem_count_pos(self.layout.shape@);
            lemma_offset_bounded(index@, self.layout.shape@, self.layout.strides@);
        }
        self.data.sset(off, value);
    }

    /// Return a mutable reference to the element at a given index.
    pub fn get_mut(&mut self, index: [usize; N]) -> (r: Option<&mut T>)
        requires
            old(self).wf(),
        ensures
            final(self).layout == old(self).layout,
            match r {
                Some(v) => {
                    &&& index_in_bounds(index@, old(self).shape_seq())
                    &&& *v == old(self).data_seq()[offset_of(index@, old(self).strides_seq())]
                    &&& final(self).data_seq() == old(self).data_seq().update(
                        offset_of(index@, old(self).strides_seq()),
                        *final(v),
                    )
                },
                None => {
                    &&& !index_in_bounds(index@, old(self).shape_seq())
                    &&& final(self).data_seq() == old(self).data_seq()
                },
            },
    {
        match self.layout.try_offset(index) {
            Some(off) => {
                proof {
                    lemma_elem_count_pos(self.layout.shape@);
                    lemma_offset_bounded(index@, self.layout.shape@, self.layout.strides@);
                }
                let whole = self.data.sborrow_mut();
                let (_, tail) = whole.split_at_mut(off);
                let elem = tail.first_mut();
                match elem {
                    Some(v) => Some(v),
                    None => {
                        proof {
                            assert(false);
                        }
                        None
                    },
                }
            },
            None => None,
        }
    }

}

impl<T: Copy, S: StorageMut<T>, const N: usize> NdTensorBase<T, S, N> {
    /// Replace all elements of this tensor with `value`.
    pub fn fill(&mut self, value: T)
        requires
            old(self).wf(),
        ensures
            final(self).wf(),
            final(self).layout == old(self).layout,
            final(self).data_seq().len() == old(self).data_seq().len(),
            final(self).view_seq() == Seq::new(old(self).view_seq().len(), |k: int| value),
            forall|j: int|
                0 <= j < old(self).data_seq().len() && !(exists|idx: Seq<usize>|
                    index_in_bounds(idx, old(self).shape_seq()) && j == #[trigger] offset_of(
                        idx,
                        old(self).strides_seq(),
                    )) ==> final(self).data_seq()[j] == old(self).data_seq()[j],
    {
        let ghost sh = self.layout.shape@;
        let ghost st = self.layout.strides@;
        proof {
            lemma_elem_count_pos(sh);
        }
        let n = self.len();
        let mut k: usize = 0;
        while k < n
            invariant
                k <= n,
                self.wf(),
                self.layout == old(self).layout,
                sh == self.layout.shape@,
                st == self.layout.strides@,
                n == elem_count(sh),
                self.data.sview().len() == old(self).data.sview().len(),
                forall|j: int|
                    0 <= j < k ==> self.data.sview()[offset_of(unflatten_index(j, sh), st)]
                        == value,
                forall|j: int|
                    0 <= j < old(self).data_seq().len() && !(exists|idx: Seq<usize>|
                        index_in_bounds(idx, old(self).shape_seq()) && j == #[trigger] offset_of(
                            idx,
                            old(self).strides_seq(),
                        )) ==> self.data.sview()[j] == old(self).data_seq()[j],
            decreases n - k,
        {
            let off = logical_offset(
                vstd::array::array_as_slice(&self.layout.shape),
                vstd::array::array_as_slice(&self.layout.strides),
                k,
            );
            proof {
                lemma_elem_count_pos(sh);
                lemma_unflatten_in_bounds(k as int, sh);
            }
            let ghost before = self.data.sview();
            self.data.sset(off, value);
            k = k + 1;
            proof {
                assert forall|j: int|
                    0 <= j < k implies self.data.sview()[offset_of(unflatten_index(j, sh), st)]
                    == value by {
                    lemma_unflatten_in_bounds(j, sh);
                    lemma_offset_bounded(unflatten_index(j, sh), sh, st);
                    assert(self.data.sview() == before.update(off as int, value));
                }
                assert forall|j: int|
                    0 <= j < old(self).data_seq().len() && !(exists|idx: Seq<usize>|
                        index_in_bounds(idx, old(self).shape_seq()) && j == #[trigger] offset_of(
                            idx,
                            old(self).strides_seq(),
                        )) implies self.data.sview()[j] == old(self).data_seq()[j] by {
                    assert(index_in_bounds(unflatten_index(k - 1, sh), old(self).shape_seq()));
                    assert(offset_of(unflatten_index(k - 1, sh), old(self).strides_seq())
                        == offset_of(unflatten_index(k - 1, sh), st));
                    assert(j != offset_of(unflatten_index(k - 1, sh), st));
                    assert(self.data.sview() == before.update(off as int, value));
                }
            }
        }
        proof {
            assert(final(self).view_seq() =~= Seq::new(old(self).view_seq().len(), |j: int| value));
        }
    }
}

} // verus!

verus! {

impl<T, S: StorageMut<T>, const N: usize> NdTensorBase<T, S, N> {
    /// A mutable view sharing this tensor's storage and layout; writes
    /// through the view land back in this tensor.
    pub fn view_mut(&mut self) -> (r: NdTensorViewMut<'_, T, N>)
        requires
            old(self).wf(),
        ensures
            r.layout == old(self).layout,
            r.data_seq() == old(self).data_seq(),
            r.wf(),
            final(self).layout == old(self).layout,
            final(self).data_seq() == final(r.data)@,
    {
        NdTensorBase {
            data: self.data.sborrow_mut(),
            layout: self.layout,
            element_type: core::marker::PhantomData,
        }
    }
}

} // verus!

verus! {

impl<T, S: StorageMut<T>, const N: usize> NdTensorBase<T, S, N> {
    /// Return the underlying data of the tensor as a mutable slice, if it
    /// is contiguous; writes through it land back in this tensor.
    pub fn data_mut(&mut self) -> (r: Option<&mut [T]>)
        requires
            old(self).wf(),
        ensures
            final(self).layout == old(self).layout,
            match r {
                Some(s) => {
                    &&& old(self).layout.spec_contiguous()
                    &&& s@ == old(self).data_seq()
                    &&& final(self).data_seq() == final(s)@
                },
                None => {
                    &&& !old(self).layout.spec_contiguous()
                    &&& final(self).data_seq() == old(self).data_seq()
                },
            },
    {
        if self.layout.is_contiguous() {
            Some(self.data.sborrow_mut())
        } else {
            None
        }
    }

    /// A mutable view of part of this tensor; writes through the view
    /// land back in the sliced region of this tensor's storage.
    pub fn slice_mut<const M: usize>(&mut self, items: &[SliceItem]) -> (r: NdTensorViewMut<
        '_,
        T,
        M,
    >)
        requires
            old(self).wf(),
            valid_slice_items(old(self).shape_seq(), old(self).strides_seq(), items@),
            slice_fits(old(self).shape_seq(), old(self).strides_seq(), items@),
            M == slice_shape(old(self).shape_seq(), items@).len(),
        ensures
            r.wf(),
            r.shape_seq() == slice_shape(old(self).shape_seq(), items@),
            r.strides_seq() == slice_strides(
                old(self).shape_seq(),
                old(self).strides_seq(),
                items@,
            ),
            r.data_seq() == old(self).data_seq().subrange(
                slice_offset(old(self).shape_seq(), old(self).strides_seq(), items@),
                slice_offset(old(self).shape_seq(), old(self).strides_seq(), items@)
                    + min_storage_len(r.shape_seq(), r.strides_seq()),
            ),
            final(self).layout == old(self).layout,
            final(self).data_seq() == old(self).data_seq().take(
                slice_offset(old(self).shape_seq(), old(self).strides_seq(), items@),
            ) + final(r.data)@ + old(self).data_seq().skip(
                slice_offset(old(self).shape_seq(), old(self).strides_seq(), items@)
                    + min_storage_len(r.shape_seq(), r.strides_seq()),
            ),
    {
        let (start, end, layout) = self.layout.slice::<M>(items);
        let whole = self.data.sborrow_mut();
        let (_head, rest) = whole.split_at_mut(start);
        let (mid, _tail) = rest.split_at_mut(end - start);
        let r = NdTensorBase { data: mid, layout, element_type: core::marker::PhantomData };
        proof {
            assert(r.data@ =~= old(self).data_seq().subrange(start as int, end as int));
        }
        r
    }
}

impl<T: Copy, S: StorageMut<T>, const N: usize> NdTensorBase<T, S, N> {
    /// Replace elements of this tensor with `f(element)`.
    ///
    /// This is the in-place version of `map`, visiting the elements in an
    /// unspecified order. The layout must not alias two logical positions
    /// onto one storage element, which holds for every layout accepted
    /// for mutable tensors.
    pub fn apply<F: Fn(&T) -> T>(&mut self, f: F)
        requires
            old(self).wf(),
            spec_unique_offsets(old(self).shape_seq(), old(self).strides_seq()),
            forall|x: &T| #[trigger] call_requires(f, (x,)),
        ensures
            final(self).wf(),
            final(self).layout == old(self).layout,
            final(self).data_seq().len() == old(self).data_seq().len(),
            final(self).view_seq().len() == old(self).view_seq().len(),
            forall|k: int|
                0 <= k < old(self).view_seq().len() ==> call_ensures(
                    f,
                    (&old(self).view_seq()[k],),
                    #[trigger] final(self).view_seq()[k],
                ),
            forall|j: int|
                0 <= j < old(self).data_seq().len() && !(exists|idx: Seq<usize>|
                    index_in_bounds(idx, old(self).shape_seq()) && j == #[trigger] offset_of(
                        idx,
                        old(self).strides_seq(),
                    )) ==> final(self).data_seq()[j] == old(self).data_seq()[j],
    {
        let ghost sh = self.layout.shape@;
        let ghost st = self.layout.strides@;
        proof {
            lemma_elem_count_pos(sh);
        }
        let n = self.len();
        let ghost orig = self.data.sview();
        let mut k: usize = 0;
        while k < n
            invariant
                k <= n,
                self.wf(),
                self.layout == old(self).layout,
                sh == self.layout.shape@,
                st == self.layout.strides@,
                n == elem_count(sh),
                n <= usize::MAX,
                spec_unique_offsets(sh, st),
                forall|x: &T| #[trigger] call_requires(f, (x,)),
                orig == old(self).data.sview(),
                self.data.sview().len() == orig.len(),
                forall|j: int|
                    k <= j < n ==> self.data.sview()[offset_of(unflatten_index(j, sh), st)]
                        == orig[offset_of(unflatten_index(j, sh), st)],
                forall|j: int|
                    0 <= j < k ==> call_ensures(
                        f,
                        (&orig[offset_of(unflatten_index(j, sh), st)],),
                        #[trigger] self.data.sview()[offset_of(unflatten_index(j, sh), st)],
                    ),
                forall|j: int|
                    0 <= j < old(self).data_seq().len() && !(exists|idx: Seq<usize>|
                        index_in_bounds(idx, old(self).shape_seq()) && j == #[trigger] offset_of(
                            idx,
                            old(self).strides_seq(),
                        )) ==> self.data.sview()[j] == old(self).data_seq()[j],
            decreases n - k,
        {
            let off = logical_offset(
                vstd::array::array_as_slice(&self.layout.shape),
                vstd::array::array_as_slice(&self.layout.strides),
                k,
            );
            proof {
                lemma_elem_count_pos(sh);
                lemma_unflatten_in_bounds(k as int, sh);
                lemma_offset_bounded(unflatten_index(k as int, sh), sh, st);
            }
            let cur = self.data.sget(off);
            proof {
                assert(call_requires(f, (cur,)));
            }
            let v = f(cur);
            let ghost before = self.data.sview();
            self.data.sset(off, v);
            k = k + 1;
            proof {
                assert forall|j: int|
                    k <= j < n implies self.data.sview()[offset_of(unflatten_index(j, sh), st)]
                    == orig[offset_of(unflatten_index(j, sh), st)] by {
                    lemma_unflatten_in_bounds(j, sh);
                    lemma_offset_bounded(unflatten_index(j, sh), sh, st);
                    crate::layout::lemma_unflatten_injective(j, k - 1, sh);
                    assert(unflatten_index(j, sh) != unflatten_index(k - 1, sh));
                    assert(offset_of(unflatten_index(j, sh), st) != off);
                }
                assert forall|j: int|
                    0 <= j < k implies call_ensures(
                    f,
                    (&orig[offset_of(unflatten_index(j, sh), st)],),
                    #[trigger] self.data.sview()[offset_of(unflatten_index(j, sh), st)],
                ) by {
                    lemma_unflatten_in_bounds(j, sh);
                    lemma_offset_bounded(unflatten_index(j, sh), sh, st);
                    if j < k - 1 {
                        crate::layout::lemma_unflatten_injective(j, k - 1, sh);
                        assert(offset_of(unflatten_index(j, sh), st) != off);
                        assert(self.data.sview()[offset_of(unflatten_index(j, sh), st)] == before[
                            offset_of(unflatten_index(j, sh), st)]);
                    }
                }
                assert forall|j: int|
                    0 <= j < old(self).data_seq().len() && !(exists|idx: Seq<usize>|
                        index_in_bounds(idx, old(self).shape_seq()) && j == #[trigger] offset_of(
                            idx,
                            old(self).strides_seq(),
                        )) implies self.data.sview()[j] == old(self).data_seq()[j] by {
                    lemma_unflatten_in_bounds(k - 1, sh);
                    assert(index_in_bounds(unflatten_index(k - 1, sh), old(self).shape_seq()));
                    assert(offset_of(unflatten_index(k - 1, sh), old(self).strides_seq())
                        == offset_of(unflatten_index(k - 1, sh), st));
                    assert(j != offset_of(unflatten_index(k - 1, sh), st));
                    assert(self.data.sview() == before.update(off as int, v));
                }
            }
        }
        proof {
            assert forall|k2: int|
                0 <= k2 < old(self).view_seq().len() implies call_ensures(
                f,
                (&old(self).view_seq()[k2],),
                #[trigger] final(self).view_seq()[k2],
            ) by {
                lemma_unflatten_in_bounds(k2, sh);
            }
        }
    }

    /// Copy elements from another tensor of the same shape into this
    /// tensor.
    pub fn copy_from(&mut self, other: &NdTensorView<'_, T, N>)
        requires
            old(self).wf(),
            other.wf(),
            other.shape_seq() == old(self).shape_seq(),
            spec_unique_offsets(old(self).shape_seq(), old(self).strides_seq()),
        ensures
            final(self).wf(),
            final(self).layout == old(self).layout,
            final(self).data_seq().len() == old(self).data_seq().len(),
            final(self).view_seq() == other.view_seq(),
    {
        let ghost sh = self.layout.shape@;
        let ghost st = self.layout.strides@;
        proof {
            lemma_elem_count_pos(sh);
        }
        let src = other.to_vec();
        let n = self.len();
        let mut k: usize = 0;
        while k < n
            invariant
                k <= n,
                self.wf(),
                self.layout == old(self).layout,
                sh == self.layout.shape@,
                st == self.layout.strides@,
                n == elem_count(sh),
                n <= usize::MAX,
                spec_unique_offsets(sh, st),
                src@.len() == n,
                src@ == other.view_seq(),
                self.data.sview().len() == old(self).data.sview().len(),
                forall|j: int|
                    0 <= j < k ==> self.data.sview()[offset_of(unflatten_index(j, sh), st)]
                        == src@[j],
            decreases n - k,
        {
            let off = logical_offset(
                vstd::array::array_as_slice(&self.layout.shape),
                vstd::array::array_as_slice(&self.layout.strides),
                k,
            );
            proof {
                lemma_elem_count_pos(sh);
            }
            let ghost before = self.data.sview();
            let v = src[k];
            self.data.sset(off, v);
            k = k + 1;
            proof {
                assert forall|j: int|
                    0 <= j < k implies self.data.sview()[offset_of(unflatten_index(j, sh), st)]
                    == src@[j] by {
                    lemma_unflatten_in_bounds(j, sh);
                    lemma_offset_bounded(unflatten_index(j, sh), sh, st);
                    lemma_unflatten_in_bounds(k - 1, sh);
                    if j < k - 1 {
                        crate::layout::lemma_unflatten_injective(j, k - 1, sh);
                        assert(offset_of(unflatten_index(j, sh), st) != off);
                        assert(self.data.sview()[offset_of(unflatten_index(j, sh), st)] == before[
                            offset_of(unflatten_index(j, sh), st)]);
                    }
                }
            }
        }
        proof {
            assert(final(self).view_seq() =~= other.view_seq());
        }
    }
}

} // verus!

verus! {

/// A source of values used to fill tensors, implemented by callers.
///
/// The trait carries no contract: a spec-level model of the stream
/// would appear in the erased trait signature and make the trait
/// unimplementable from unverified client code.
pub trait RandomSource<T> {
    /// The next value from the source.
    fn next(&mut self) -> T;
}

impl<T: Copy, const N: usize> NdTensor<T, N> {
    /// A tensor of shape `shape`, contiguous, every element `element`.
    pub fn full(shape: [usize; N], element: T) -> (r: NdTensor<T, N>)
        requires
            shape_counts_fit(shape@),
        ensures
            r.wf(),
            r.shape_seq() == shape@,
            r.layout.spec_contiguous(),
            spec_unique_offsets(r.shape_seq(), r.strides_seq()),
            r.view_seq() == Seq::new(elem_count(shape@) as nat, |k: int| element),
    {
        proof {
            assert forall|d: int| 0 <= d <= N implies elem_count(shape@.skip(d)) <= usize::MAX by {
                assert(elem_count(#[trigger] shape@.skip(d)) <= usize::MAX);
            }
            lemma_elem_count_pos(shape@);
        }
        let layout = NdLayout::from_shape(shape);
        let n = layout.len();
        let mut data: Vec<T> = Vec::new();
        let mut i: usize = 0;
        while i < n
            invariant
                i <= n,
                data@.len() == i,
                forall|j: int| 0 <= j < i ==> data@[j] == element,
            decreases n - i,
        {
            data.push(element);
            i = i + 1;
        }
        let r = NdTensor::<T, N>::from_data(shape, data);
        proof {
            assert(r.view_seq() =~= Seq::new(elem_count(shape@) as nat, |k: int| element));
        }
        r
    }

    /// A tensor of shape `shape` filled with the source's next values,
    /// in logical order.
    ///
    /// The source trait carries no contract (see [`RandomSource`]), so
    /// only the shape, layout and element count can be promised here;
    /// the body takes exactly one value per element, in logical order.
    pub fn rand<R: RandomSource<T>>(shape: [usize; N], rand_src: &mut R) -> (r: NdTensor<T, N>)
        requires
            shape_counts_fit(shape@),
        ensures
            r.wf(),
            r.shape_seq() == shape@,
            r.layout.spec_contiguous(),
            r.view_seq().len() == elem_count(shape@),
    {
        proof {
            assert forall|d: int| 0 <= d <= N implies elem_count(shape@.skip(d)) <= usize::MAX by {
                assert(elem_count(#[trigger] shape@.skip(d)) <= usize::MAX);
            }
            lemma_elem_count_pos(shape@);
        }
        let layout = NdLayout::from_shape(shape);
        let n = layout.len();
        let mut data: Vec<T> = Vec::new();
        let mut i: usize = 0;
        while i < n
            invariant
                i <= n,
                data@.len() == i,
            decreases n - i,
        {
            data.push(rand_src.next());
            i = i + 1;
        }
        NdTensor::<T, N>::from_data(shape, data)
    }
}

impl<T: Copy + Default, const N: usize> NdTensor<T, N> {
    /// A tensor of shape `shape`, contiguous, every element the default
    /// value of `T`.
    pub fn zeros(shape: [usize; N]) -> (r: NdTensor<T, N>)
        requires
            shape_counts_fit(shape@),
        ensures
            r.wf(),
            r.shape_seq() == shape@,
            r.layout.spec_contiguous(),
            spec_unique_offsets(r.shape_seq(), r.strides_seq()),
            r.view_seq().len() == elem_count(shape@),
    {
        proof {
            lemma_elem_count_pos(shape@);
        }
        NdTensor::<T, N>::full(shape, T::default())
    }
}

impl<'a, T> NdTensorView<'a, T, 1> {
    /// View a slice as a contiguous 1-dimensional tensor.
    pub fn from_slice(data: &'a [T]) -> (r: NdTensorView<'a, T, 1>)
        ensures
            r.wf(),
            r.shape_seq() == seq![data@.len() as usize],
            r.view_seq() == data@,
    {
        let shape: [usize; 1] = [data.len()];
        proof {
            assert(shape@ =~= seq![data@.len() as usize]);
            assert(shape@.skip(1) =~= Seq::<usize>::empty());
            let zero: int = 0;
            assert(shape@.skip(zero) =~= shape@);
            assert(elem_count(Seq::<usize>::empty()) == 1);
            assert(elem_count(shape@) == shape@[0] * elem_count(shape@.skip(1)));
            assert(elem_count(shape@) == data@.len());
            assert forall|d: int| 0 <= d <= 1 implies elem_count(
                #[trigger] shape@.skip(d),
            ) <= usize::MAX by {
                if d == 0 {
                    assert(shape@.skip(0) =~= shape@);
                } else {
                    assert(shape@.skip(1) =~= Seq::<usize>::empty());
                }
            }
        }
        let r = NdTensorView::<'a, T, 1>::from_data(shape, data);
        proof {
            assert(r.view_seq() =~= data@);
        }
        r
    }
}

impl<'a, T: Copy> NdTensor<T, 1> {
    /// A 1-dimensional tensor owning the elements of `data`.
    pub fn from_vec(data: Vec<T>) -> (r: NdTensor<T, 1>)
        ensures
            r.wf(),
            r.shape_seq() == seq![data@.len() as usize],
            r.view_seq() == data@,
    {
        let shape: [usize; 1] = [data.len()];
        proof {
            assert(shape@ =~= seq![data@.len() as usize]);
            assert(shape@.skip(1) =~= Seq::<usize>::empty());
            let zero: int = 0;
            assert(shape@.skip(zero) =~= shape@);
            assert(elem_count(Seq::<usize>::empty()) == 1);
            assert(elem_count(shape@) == shape@[0] * elem_count(shape@.skip(1)));
            assert(elem_count(shape@) == data@.len());
            assert forall|d: int| 0 <= d <= 1 implies elem_count(
                #[trigger] shape@.skip(d),
            ) <= usize::MAX by {
                if d == 0 {
                    assert(shape@.skip(0) =~= shape@);
                } else {
                    assert(shape@.skip(1) =~= Seq::<usize>::empty());
                }
            }
        }
        let r = NdTensor::<T, 1>::from_data(shape, data);
        proof {
            assert(r.view_seq() =~= r.data_seq().take(r.data_seq().len() as int));
            assert(r.view_seq() =~= r.data_seq());
        }
        r
    }
}

} // verus!

verus! {

impl<T: Copy + Default, S: Storage<T>, const N: usize> NdTensorBase<T, S, N> {
    /// Load an array of `M` elements from successive entries along the
    /// `dim` axis, starting at index `base`.
    pub fn get_array<const M: usize>(&self, base: [usize; N], dim: usize) -> (r: [T; M])
        requires
            self.wf(),
            dim < N,
            index_in_bounds(base@, self.shape_seq()),
            base@[dim as int] + M <= self.shape_seq()[dim as int],
        ensures
            r@.len() == M,
            forall|i: int|
                0 <= i < M ==> r@[i] == self.data_seq()[offset_of(
                    base@.update(dim as int, (base@[dim as int] + i) as usize),
                    self.strides_seq(),
                )],
    {
        let mut r = vstd::array::array_fill_for_copy_types::<T, M>(T::default());
        let mut i: usize = 0;
        while i < M
            invariant
                i <= M,
                self.wf(),
                dim < N,
                index_in_bounds(base@, self.shape_seq()),
                base@[dim as int] + M <= self.shape_seq()[dim as int],
                r@.len() == M,
                forall|j: int|
                    0 <= j < i ==> r@[j] == self.data_seq()[offset_of(
                        base@.update(dim as int, (base@[dim as int] + j) as usize),
                        self.strides_seq(),
                    )],
            decreases M - i,
        {
            let mut index = base;
            index[dim] = base[dim] + i;
            proof {
                assert(index@ =~= base@.update(dim as int, (base@[dim as int] + i as int) as usize));
                assert(index_in_bounds(index@, self.shape_seq()));
            }
            r[i] = *self.at(index);
            i = i + 1;
        }
        r
    }
}

impl<T: Copy + Default, S: Storage<T>> NdTensorBase<T, S, 1> {
    /// Convert this vector to a static array of length `M`, which must
    /// not exceed the vector's length.
    pub fn to_array<const M: usize>(&self) -> (r: [T; M])
        requires
            self.wf(),
            0 < M <= self.shape_seq()[0],
        ensures
            r@.len() == M,
            forall|i: int|
                0 <= i < M ==> r@[i] == self.data_seq()[offset_of(
                    seq![i as usize],
                    self.strides_seq(),
                )],
    {
        let base: [usize; 1] = [0];
        proof {
            assert(base@ =~= seq![0usize]);
            assert forall|i: int| 0 <= i < M implies #[trigger] base@.update(0, i as usize)
                =~= seq![i as usize] by {}
        }
        self.get_array(base, 0)
    }
}

impl<T: Copy, S: StorageMut<T>, const N: usize> NdTensorBase<T, S, N> {
    /// Store an array of `M` elements into successive entries along the
    /// `dim` axis, starting at index `base`.
    ///
    /// When the axis stride is non-zero the `M` entries land on distinct
    /// storage elements; storage offsets outside the written window keep
    /// their values.
    pub fn set_array<const M: usize>(&mut self, base: [usize; N], dim: usize, values: [T; M])
        requires
            old(self).wf(),
            dim < N,
            index_in_bounds(base@, old(self).shape_seq()),
            base@[dim as int] + M <= old(self).shape_seq()[dim as int],
        ensures
            final(self).wf(),
            final(self).layout == old(self).layout,
            final(self).data_seq().len() == old(self).data_seq().len(),
            old(self).strides_seq()[dim as int] != 0 ==> forall|i: int|
                0 <= i < M ==> final(self).data_seq()[offset_of(
                    base@.update(dim as int, (base@[dim as int] + i) as usize),
                    old(self).strides_seq(),
                )] == values@[i],
            forall|j: int|
                0 <= j < old(self).data_seq().len() && !(exists|i: int|
                    0 <= i < M && j == offset_of(
                        #[trigger] base@.update(dim as int, (base@[dim as int] + i) as usize),
                        old(self).strides_seq(),
                    )) ==> #[trigger] final(self).data_seq()[j] == old(self).data_seq()[j],
    {
        let ghost sh = self.layout.shape@;
        let ghost st = self.layout.strides@;
        let mut i: usize = 0;
        while i < M
            invariant
                i <= M,
                self.wf(),
                self.layout == old(self).layout,
                sh == self.layout.shape@,
                st == self.layout.strides@,
                dim < N,
                index_in_bounds(base@, sh),
                base@[dim as int] + M <= sh[dim as int],
                self.data.sview().len() == old(self).data.sview().len(),
                st[dim as int] != 0 ==> forall|j: int|
                    0 <= j < i ==> self.data.sview()[offset_of(
                        base@.update(dim as int, (base@[dim as int] + j) as usize),
                        st,
                    )] == values@[j],
                forall|j: int|
                    0 <= j < old(self).data_seq().len() && !(exists|w: int|
                        0 <= w < i && j == offset_of(
                            #[trigger] base@.update(dim as int, (base@[dim as int] + w) as usize),
                            st,
                        )) ==> #[trigger] self.data.sview()[j] == old(self).data_seq()[j],
            decreases M - i,
        {
            let mut index = base;
            index[dim] = base[dim] + i;
            proof {
                assert(index@ =~= base@.update(dim as int, (base@[dim as int] + i as int) as usize));
                assert(index_in_bounds(index@, sh));
                lemma_elem_count_pos(sh);
                lemma_offset_bounded(index@, sh, st);
            }
            let off = self.layout.offset(index);
            let ghost before = self.data.sview();
            self.data.sset(off, values[i]);
            i = i + 1;
            proof {
                if st[dim as int] != 0 {
                    assert forall|j: int|
                        0 <= j < i implies self.data.sview()[offset_of(
                        base@.update(dim as int, (base@[dim as int] + j) as usize),
                        st,
                    )] == values@[j] by {
                        let idxj = base@.update(dim as int, (base@[dim as int] + j) as usize);
                        assert(index_in_bounds(idxj, sh));
                        lemma_offset_bounded(idxj, sh, st);
                        if j < i - 1 {
                            lemma_offset_shift(base@, st, dim as int, j, i - 1);
                        }
                    }
                }
            }
        }
    }

    /// Fill this vector-like tensor with values from a static array.
    pub fn assign_array<const M: usize>(&mut self, values: [T; M])
        requires
            old(self).wf(),
            N == 1,
            M == old(self).shape_seq()[0],
        ensures
            final(self).wf(),
            final(self).layout == old(self).layout,
            final(self).data_seq().len() == old(self).data_seq().len(),
            old(self).strides_seq()[0] != 0 ==> forall|i: int|
                0 <= i < M ==> final(self).data_seq()[offset_of(
                    Seq::new(1, |w: int| i as usize),
                    old(self).strides_seq(),
                )] == values@[i],
    {
        let base = vstd::array::array_fill_for_copy_types::<usize, N>(0);
        proof {
            assert(index_in_bounds(base@, old(self).shape_seq()) || M == 0) by {
                if M > 0 {
                    assert forall|d: int| 0 <= d < N implies base@[d] < old(self).shape_seq()[d] by {}
                }
            }
            if M == 0 {
                assert(index_in_bounds(base@, old(self).shape_seq()) || old(self).shape_seq()[0]
                    == 0);
            }
        }
        if M == 0 {
            return;
        }
        self.set_array(base, 0, values);
        proof {
            if old(self).strides_seq()[0] != 0 {
                assert forall|i: int|
                    0 <= i < M implies final(self).data_seq()[offset_of(
                    Seq::new(1, |w: int| i as usize),
                    old(self).strides_seq(),
                )] == values@[i] by {
                    assert(base@.update(0, (base@[0] + i) as usize) =~= Seq::new(
                        1,
                        |w: int| i as usize,
                    ));
                }
            }
        }
    }
}

/// Along an axis with a non-zero stride, indices that differ only in that
/// axis map to different offsets.
proof fn lemma_offset_shift(base: Seq<usize>, strides: Seq<usize>, dim: int, a: int, b: int)
    requires
        0 <= dim < base.len(),
        base.len() == strides.len(),
        strides[dim] != 0,
        0 <= a < b,
        base[dim] + b <= usize::MAX,
    ensures
        offset_of(base.update(dim, (base[dim] + a) as usize), strides) != offset_of(
            base.update(dim, (base[dim] + b) as usize),
            strides,
        ),
    decreases base.len(),
{
    let ia = base.update(dim, (base[dim] + a) as usize);
    let ib = base.update(dim, (base[dim] + b) as usize);
    if dim == 0 {
        assert(ia.skip(1) =~= base.skip(1));
        assert(ib.skip(1) =~= base.skip(1));
        assert(ia[0] == base[0] + a && ib[0] == base[0] + b);
        let s0 = strides[0] as int;
        assert((base[0] + a) * s0 < (base[0] + b) * s0) by (nonlinear_arith)
            requires
                s0 >= 1,
                0 <= base[0] + a,
                base[0] + a < base[0] + b,
        ;
    } else {
        assert(ia.skip(1) =~= base.skip(1).update(dim - 1, (base.skip(1)[dim - 1] + a) as usize));
        assert(ib.skip(1) =~= base.skip(1).update(dim - 1, (base.skip(1)[dim - 1] + b) as usize));
        assert(ia[0] == base[0] && ib[0] == base[0]);
        lemma_offset_shift(base.skip(1), strides.skip(1), dim - 1, a, b);
    }
}

} // verus!

verus! {

impl<T: Copy, S: Storage<T>, const N: usize> NdTensorBase<T, S, N> {
    /// Return a new contiguous tensor with each element replaced by
    /// `f(element)`, visiting elements in an unspecified order.
    pub fn map<F: Fn(&T) -> U, U>(&self, f: F) -> (r: NdTensor<U, N>)
        requires
            self.wf(),
            shape_counts_fit(self.shape_seq()),
            forall|x: &T| #[trigger] call_requires(f, (x,)),
        ensures
            r.wf(),
            r.shape_seq() == self.shape_seq(),
            r.layout.spec_contiguous(),
            r.view_seq().len() == self.view_seq().len(),
            forall|k: int|
                0 <= k < self.view_seq().len() ==> call_ensures(
                    f,
                    (&self.view_seq()[k],),
                    #[trigger] r.view_seq()[k],
                ),
    {
        let src = self.to_vec();
        let mut out: Vec<U> = Vec::new();
        let n = src.len();
        let mut k: usize = 0;
        while k < n
            invariant
                k <= n,
                n == src@.len(),
                src@ == self.view_seq(),
                out@.len() == k,
                forall|x: &T| #[trigger] call_requires(f, (x,)),
                forall|j: int|
                    0 <= j < k ==> call_ensures(f, (&src@[j],), #[trigger] out@[j]),
            decreases n - k,
        {
            let x = &src[k];
            proof {
                assert(call_requires(f, (x,)));
            }
            out.push(f(x));
            k = k + 1;
        }
        proof {
            lemma_elem_count_pos(self.shape_seq());
        }
        let r = NdTensor::<U, N>::from_data(self.shape(), out);
        proof {
            assert forall|k2: int|
                0 <= k2 < self.view_seq().len() implies call_ensures(
                f,
                (&self.view_seq()[k2],),
                #[trigger] r.view_seq()[k2],
            ) by {}
        }
        r
    }
}

impl<T, S: Storage<T>> NdTensorBase<T, S, 2> {
    /// The number of matrix rows.
    pub fn rows(&self) -> (r: usize)
        ensures
            r == self.shape_seq()[0],
    {
        self.layout.size(0)
    }

    /// The number of matrix columns.
    pub fn cols(&self) -> (r: usize)
        ensures
            r == self.shape_seq()[1],
    {
        self.layout.size(1)
    }

    /// The stride between matrix rows.
    pub fn row_stride(&self) -> (r: usize)
        ensures
            r == self.strides_seq()[0],
    {
        self.layout.stride(0)
    }

    /// The stride between matrix columns.
    pub fn col_stride(&self) -> (r: usize)
        ensures
            r == self.strides_seq()[1],
    {
        self.layout.stride(1)
    }
}

/// A tensor wrapper whose indexing checks only that the computed storage
/// offset is valid, not each coordinate; faster, but able to hide
/// out-of-bounds coordinates that alias into the storage.
pub struct UncheckedNdTensor<T, S, const N: usize> {
    pub base: NdTensorBase<T, S, N>,
}

impl<T, S: Storage<T>, const N: usize> UncheckedNdTensor<T, S, N> {
    /// The element whose storage offset `index` names; the caller asserts
    /// the coordinates, only the offset is checked.
    pub fn at(&self, index: [usize; N]) -> (r: &T)
        requires
            index@.len() == self.base.strides_seq().len(),
            0 <= offset_of(index@, self.base.strides_seq()) < self.base.data_seq().len(),
        ensures
            *r == self.base.data_seq()[offset_of(index@, self.base.strides_seq())],
    {
        let cap = self.base.data.slen();
        let mut acc: usize = 0;
        let ghost st = self.base.layout.strides@;
        let mut e: usize = N;
        proof {
            assert(index@.skip(N as int) =~= Seq::<usize>::empty());
            assert(st.skip(N as int) =~= Seq::<usize>::empty());
        }
        while e > 0
            invariant
                e <= N,
                st == self.base.layout.strides@,
                index@.len() == N,
                st.len() == N,
                0 <= offset_of(index@, st) < self.base.data.sview().len(),
                self.base.data.sview().len() == cap,
                acc == offset_of(index@.skip(e as int), st.skip(e as int)),
                0 <= acc <= offset_of(index@, st),
            decreases e,
        {
            e = e - 1;
            proof {
                assert(index@.skip(e as int).skip(1) =~= index@.skip(e + 1));
                assert(st.skip(e as int).skip(1) =~= st.skip(e + 1));
                assert(index@.skip(e as int)[0] == index@[e as int]);
                assert(st.skip(e as int)[0] == st[e as int]);
                assert(index@[e as int] * st[e as int] >= 0) by (nonlinear_arith)
                    requires index@[e as int] >= 0, st[e as int] >= 0;
                lemma_offset_prefix_le(index@, st, e as int);
                assert(offset_of(index@.skip(e as int), st.skip(e as int)) == index@[e as int] * st[
                    e as int
                ] + offset_of(index@.skip(e + 1), st.skip(e + 1)));
            }
            acc = index[e] * self.layout_strides_at(e) + acc;
        }
        proof {
            let zero: int = 0;
            assert(index@.skip(zero) =~= index@);
            assert(st.skip(zero) =~= st);
        }
        self.base.data.sget(acc)
    }

    fn layout_strides_at(&self, e: usize) -> (r: usize)
        requires
            e < N,
        ensures
            r == self.base.layout.strides@[e as int],
    {
        self.base.layout.strides[e]
    }
}

/// A suffix of the offset sum never exceeds the whole when every term is
/// a product of naturals.
proof fn lemma_offset_prefix_le(index: Seq<usize>, strides: Seq<usize>, e: int)
    requires
        0 <= e <= index.len(),
        strides.len() == index.len(),
    ensures
        0 <= offset_of(index.skip(e), strides.skip(e)) <= offset_of(index, strides),
    decreases e,
{
    if e == 0 {
        assert(index.skip(0) =~= index);
        assert(strides.skip(0) =~= strides);
        lemma_offset_nonneg_all(index, strides);
    } else {
        lemma_offset_prefix_le(index, strides, e - 1);
        lemma_offset_nonneg_all(index.skip(e), strides.skip(e));
        let i1 = index.skip(e - 1);
        let s1 = strides.skip(e - 1);
        assert(i1.skip(1) =~= index.skip(e));
        assert(s1.skip(1) =~= strides.skip(e));
        assert(i1[0] == index[e - 1] && s1[0] == strides[e - 1]);
        assert(i1[0] * s1[0] >= 0) by (nonlinear_arith)
            requires i1[0] >= 0, s1[0] >= 0;
    }
}

/// Offsets are sums of products of naturals, hence never negative.
proof fn lemma_offset_nonneg_all(index: Seq<usize>, strides: Seq<usize>)
    requires
        strides.len() == index.len(),
    ensures
        offset_of(index, strides) >= 0,
    decreases index.len(),
{
    if index.len() > 0 {
        lemma_offset_nonneg_all(index.skip(1), strides.skip(1));
        assert(index[0] * strides[0] >= 0) by (nonlinear_arith)
            requires index[0] >= 0, strides[0] >= 0;
    }
}

impl<T, S: Storage<T>, const N: usize> NdTensorBase<T, S, N> {
    /// A wrapper of this tensor that checks only storage offsets when
    /// indexing.
    pub fn unchecked(&self) -> (r: UncheckedNdTensor<T, &[T], N>)
        ensures
            r.base.data_seq() == self.data_seq(),
            r.base.layout == self.layout,
    {
        UncheckedNdTensor {
            base: NdTensorBase {
                data: self.data.sborrow(),
                layout: self.layout,
                element_type: core::marker::PhantomData,
            },
        }
    }
}

impl<T, S: StorageMut<T>, const N: usize> NdTensorBase<T, S, N> {
    /// A mutable wrapper of this tensor that checks only storage offsets
    /// when indexing.
    pub fn unchecked_mut(&mut self) -> (r: UncheckedNdTensor<T, &mut [T], N>)
        ensures
            r.base.data_seq() == old(self).data_seq(),
            r.base.layout == old(self).layout,
            final(self).layout == old(self).layout,
            final(self).data_seq() == final(r.base.data)@,
    {
        UncheckedNdTensor {
            base: NdTensorBase {
                data: self.data.sborrow_mut(),
                layout: self.layout,
                element_type: core::marker::PhantomData,
            },
        }
    }
}

impl<T, const N: usize> UncheckedNdTensor<T, &mut [T], N> {
    /// Overwrite the element whose storage offset `index` names.
    pub fn set(&mut self, index: [usize; N], value: T)
        requires
            index@.len() == old(self).base.strides_seq().len(),
            0 <= offset_of(index@, old(self).base.strides_seq()) < old(self).base.data_seq().len(),
        ensures
            final(self).base.layout == old(self).base.layout,
            final(self).base.data_seq() == old(self).base.data_seq().update(
                offset_of(index@, old(self).base.strides_seq()),
                value,
            ),
    {
        let cap = self.base.data.slen();
        let mut acc: usize = 0;
        let ghost st = self.base.layout.strides@;
        let mut e: usize = N;
        proof {
            assert(index@.skip(N as int) =~= Seq::<usize>::empty());
            assert(st.skip(N as int) =~= Seq::<usize>::empty());
        }
        while e > 0
            invariant
                e <= N,
                st == self.base.layout.strides@,
                self.base.layout == old(self).base.layout,
                self.base.data@ == old(self).base.data@,
                index@.len() == N,
                st.len() == N,
                0 <= offset_of(index@, st) < self.base.data.sview().len(),
                self.base.data.sview().len() == cap,
                acc == offset_of(index@.skip(e as int), st.skip(e as int)),
                0 <= acc <= offset_of(index@, st),
            decreases e,
        {
            e = e - 1;
            proof {
                assert(index@.skip(e as int).skip(1) =~= index@.skip(e + 1));
                assert(st.skip(e as int).skip(1) =~= st.skip(e + 1));
                assert(index@.skip(e as int)[0] == index@[e as int]);
                assert(st.skip(e as int)[0] == st[e as int]);
                assert(index@[e as int] * st[e as int] >= 0) by (nonlinear_arith)
                    requires index@[e as int] >= 0, st[e as int] >= 0;
                lemma_offset_prefix_le(index@, st, e as int);
                assert(offset_of(index@.skip(e as int), st.skip(e as int)) == index@[e as int] * st[
                    e as int
                ] + offset_of(index@.skip(e + 1), st.skip(e + 1)));
            }
            let se = self.base.layout.strides[e];
            acc = index[e] * se + acc;
        }
        proof {
            let zero: int = 0;
            assert(index@.skip(zero) =~= index@);
            assert(st.skip(zero) =~= st);
        }
        self.base.data.sset(acc, value);
    }
}

} // verus!

verus! {

impl<T: PartialEq, S1: Storage<T>, S2: Storage<T>, const N: usize> PartialEq<
    NdTensorBase<T, S2, N>,
> for NdTensorBase<T, S1, N> {
    /// Two tensors are equal when both are well formed, they have the
    /// same shape, and their logical views agree element by element.
    fn eq(&self, other: &NdTensorBase<T, S2, N>) -> (r: bool) {
        if !(self.layout.check_wf() && self.layout.min_data_len() <= self.data.slen()) {
            return false;
        }
        if !(other.layout.check_wf() && other.layout.min_data_len() <= other.data.slen()) {
            return false;
        }
        let mut d: usize = 0;
        while d < N
            invariant
                d <= N,
                forall|j: int| 0 <= j < d ==> self.shape_seq()[j] == other.shape_seq()[j],
            decreases N - d,
        {
            if self.layout.shape[d] != other.layout.shape[d] {
                proof {
                    assert(self.shape_seq()[d as int] != other.shape_seq()[d as int]);
                }
                return false;
            }
            d = d + 1;
        }
        proof {
            assert(self.shape_seq() =~= other.shape_seq());
        }
        let n = self.len();
        let mut k: usize = 0;
        while k < n
            invariant
                k <= n,
                self.wf(),
                other.wf(),
                self.shape_seq() == other.shape_seq(),
                n == self.view_seq().len(),
                n == other.view_seq().len(),
                forall|j: int|
                    0 <= j < k ==> (#[trigger] self.view_seq()[j]).eq_spec(&other.view_seq()[j])
                        || !T::obeys_eq_spec(),
            decreases n - k,
        {
            let ghost sh = self.layout.shape@;
            proof {
                lemma_elem_count_pos(sh);
                lemma_unflatten_in_bounds(k as int, sh);
                lemma_offset_bounded(unflatten_index(k as int, sh), sh, self.layout.strides@);
                lemma_offset_bounded(unflatten_index(k as int, sh), sh, other.layout.strides@);
            }
            let off_a = logical_offset(
                vstd::array::array_as_slice(&self.layout.shape),
                vstd::array::array_as_slice(&self.layout.strides),
                k,
            );
            let off_b = logical_offset(
                vstd::array::array_as_slice(&other.layout.shape),
                vstd::array::array_as_slice(&other.layout.strides),
                k,
            );
            let a = self.data.sget(off_a);
            let b = other.data.sget(off_b);
            if !(a == b) {
                proof {
                    if T::obeys_eq_spec() {
                        assert(self.view_seq()[k as int] == self.data.sview()[offset_of(
                            unflatten_index(k as int, sh),
                            self.layout.strides@,
                        )]);
                        assert(other.view_seq()[k as int] == other.data.sview()[offset_of(
                            unflatten_index(k as int, sh),
                            other.layout.strides@,
                        )]);
                        assert(!(self.view_seq()[k as int]).eq_spec(&other.view_seq()[k as int]));
                    }
                }
                return false;
            }
            k = k + 1;
        }
        true
    }
}

impl<T: PartialEq, S1: Storage<T>, S2: Storage<T>, const N: usize> vstd::std_specs::cmp::PartialEqSpecImpl<
    NdTensorBase<T, S2, N>,
> for NdTensorBase<T, S1, N> {
    open spec fn obeys_eq_spec() -> bool {
        T::obeys_eq_spec()
    }

    open spec fn eq_spec(&self, other: &NdTensorBase<T, S2, N>) -> bool {
        &&& self.wf()
        &&& other.wf()
        &&& self.shape_seq() == other.shape_seq()
        &&& forall|k: int|
            0 <= k < self.view_seq().len() ==> (#[trigger] self.view_seq()[k]).eq_spec(
                &other.view_seq()[k],
            )
    }
}

} // verus!

verus! {

impl<T, S: Storage<T>, const N: usize> NdTensorBase<T, S, N> {
    /// A view of this tensor with a dynamic dimension count.
    pub fn as_dyn(&self) -> (r: crate::dyntensor::TensorView<'_, T>)
        ensures
            r.data_seq() == self.data_seq(),
            r.shape_seq() == self.shape_seq(),
            r.strides_seq() == self.strides_seq(),
            self.wf() ==> r.wf(),
            r.view_seq() == self.view_seq(),
    {
        let shape = vstd::slice::slice_to_vec(vstd::array::array_as_slice(&self.layout.shape));
        let strides = vstd::slice::slice_to_vec(vstd::array::array_as_slice(&self.layout.strides));
        crate::dyntensor::TensorBase {
            data: self.data.sborrow(),
            shape,
            strides,
            element_type: core::marker::PhantomData,
        }
    }

    /// Consume self and return a dynamic-rank tensor over the same
    /// storage.
    pub fn into_dyn(self) -> (r: crate::dyntensor::TensorBase<T, S>)
        ensures
            r.data == self.data,
            r.shape_seq() == self.shape_seq(),
            r.strides_seq() == self.strides_seq(),
            self.wf() ==> r.wf(),
            r.view_seq() == self.view_seq(),
    {
        let shape = vstd::slice::slice_to_vec(vstd::array::array_as_slice(&self.layout.shape));
        let strides = vstd::slice::slice_to_vec(vstd::array::array_as_slice(&self.layout.strides));
        crate::dyntensor::TensorBase {
            data: self.data,
            shape,
            strides,
            element_type: core::marker::PhantomData,
        }
    }

    /// Convert a dynamic-rank tensor into one of static rank `N`, failing
    /// when the dimension counts disagree.
    pub fn try_from_dyn(t: crate::dyntensor::TensorBase<T, S>) -> (r: Result<
        NdTensorBase<T, S, N>,
        DimensionError,
    >)
        ensures
            match r {
                Ok(n) => {
                    &&& t.shape_seq().len() == N
                    &&& n.data == t.data
                    &&& n.shape_seq() == t.shape_seq()
                    &&& n.strides_seq() == t.strides_seq()
                    &&& (t.wf() ==> n.wf())
                    &&& n.view_seq() == t.view_seq()
                },
                Err(e) => t.shape_seq().len() != N || t.strides_seq().len() != N,
            },
    {
        if t.shape.len() != N || t.strides.len() != N {
            return Err(DimensionError {});
        }
        let mut shape = vstd::array::array_fill_for_copy_types::<usize, N>(0);
        let mut strides = vstd::array::array_fill_for_copy_types::<usize, N>(0);
        let mut d: usize = 0;
        while d < N
            invariant
                d <= N,
                t.shape@.len() == N,
                t.strides@.len() == N,
                shape@.len() == N,
                strides@.len() == N,
                forall|j: int| 0 <= j < d ==> shape@[j] == t.shape@[j],
                forall|j: int| 0 <= j < d ==> strides@[j] == t.strides@[j],
            decreases N - d,
        {
            shape[d] = t.shape[d];
            strides[d] = t.strides[d];
            d = d + 1;
        }
        let layout = NdLayout { shape, strides };
        proof {
            assert(layout.shape@ =~= t.shape@);
            assert(layout.strides@ =~= t.strides@);
        }
        Ok(NdTensorBase { data: t.data, layout, element_type: core::marker::PhantomData })
    }
}

impl<T, S: StorageMut<T>, const N: usize> NdTensorBase<T, S, N> {
    /// A mutable view of this tensor with a dynamic dimension count;
    /// writes through it land back in this tensor.
    pub fn as_dyn_mut(&mut self) -> (r: crate::dyntensor::TensorViewMut<'_, T>)
        requires
            old(self).wf(),
        ensures
            r.data_seq() == old(self).data_seq(),
            r.shape_seq() == old(self).shape_seq(),
            r.strides_seq() == old(self).strides_seq(),
            r.wf(),
            final(self).layout == old(self).layout,
            final(self).data_seq() == final(r.data)@,
    {
        let shape = vstd::slice::slice_to_vec(vstd::array::array_as_slice(&self.layout.shape));
        let strides = vstd::slice::slice_to_vec(vstd::array::array_as_slice(&self.layout.strides));
        crate::dyntensor::TensorBase {
            data: self.data.sborrow_mut(),
            shape,
            strides,
            element_type: core::marker::PhantomData,
        }
    }
}

} // verus!

verus! {

impl<'a, T, const N: usize> NdTensorView<'a, T, N> {
    /// Constructs a view from a slice and explicit strides.
    ///
    /// Unlike [`NdTensorBase::from_data_with_strides`], strides under
    /// which several indices share one storage element are allowed:
    /// the returned view is immutable, so read-only aliasing is safe.
    pub fn from_slice_with_strides(shape: [usize; N], data: &'a [T], strides: [usize; N]) -> (r:
        Result<NdTensorView<'a, T, N>, FromDataError>)
        ensures
            match r {
                Ok(t) => {
                    &&& t.wf()
                    &&& t.shape_seq() == shape@
                    &&& t.strides_seq() == strides@
                    &&& t.data_seq() == data@
                },
                Err(e) => e is StorageTooShort && !(layout_wf(shape@, strides@)
                    && min_storage_len(shape@, strides@) <= data@.len()),
            },
            r is Ok <==> (layout_wf(shape@, strides@) && min_storage_len(shape@, strides@)
                <= data@.len()),
    {
        let layout = match NdLayout::try_from_shape_and_strides(
            shape,
            strides,
            OverlapPolicy::AllowOverlap,
        ) {
            Ok(l) => l,
            Err(e) => {
                return Err(FromDataError::StorageTooShort);
            },
        };
        if layout.min_data_len() > data.len() {
            return Err(FromDataError::StorageTooShort);
        }
        Ok(NdTensorBase { data, layout, element_type: core::marker::PhantomData })
    }
}

} // verus!

verus! {

/// Law: re-ordering a tensor's axes by a permutation and then by its
/// inverse restores the original logical element order, since the data
/// never moves and the layout returns to its starting value.
pub proof fn lemma_tensor_permute_inverse<T>(
    data: Seq<T>,
    shape: Seq<usize>,
    strides: Seq<usize>,
    p: Seq<usize>,
    q: Seq<usize>,
)
    requires
        strides.len() == shape.len(),
        spec_is_permutation(p, shape.len() as int),
        spec_is_permutation(q, shape.len() as int),
        forall|i: int| 0 <= i < shape.len() ==> p[q[i] as int] == i,
    ensures
        tensor_view_seq(
            data,
            permute_seq(permute_seq(shape, p), q),
            permute_seq(permute_seq(strides, p), q),
        ) == tensor_view_seq(data, shape, strides),
{
    assert(permute_seq(permute_seq(shape, p), q) =~= shape) by {
        assert forall|i: int| 0 <= i < shape.len() implies permute_seq(permute_seq(shape, p), q)[i]
            == shape[i] by {
            assert(permute_seq(permute_seq(shape, p), q)[i] == permute_seq(shape, p)[q[i] as int]);
            assert(permute_seq(shape, p)[q[i] as int] == shape[p[q[i] as int] as int]);
        }
    }
    assert(permute_seq(permute_seq(strides, p), q) =~= strides) by {
        assert forall|i: int|
            0 <= i < strides.len() implies permute_seq(permute_seq(strides, p), q)[i]
            == strides[i] by {
            assert(permute_seq(permute_seq(strides, p), q)[i] == permute_seq(strides, p)[q[i] as int]);
            assert(permute_seq(strides, p)[q[i] as int] == strides[p[q[i] as int] as int]);
        }
    }
}

} // verus!
