//! Multi-dimensional arrays whose dimension count is chosen at run time.
//!
//! [`TensorBase`] is the dynamic-rank counterpart of
//! [`crate::ndtensor::NdTensorBase`]: shape and strides live in vectors
//! instead of arrays. Fixed-rank tensors convert to and from this form,
//! the conversion back failing when the dimension counts disagree.
use vstd::prelude::*;

use crate::layout::{
    elem_count, index_in_bounds, is_contiguous_layout, layout_wf, lemma_elem_count_pos,
    lemma_elem_count_skip_le, lemma_offset_bounded, min_storage_len, offset_of, shape_counts_fit,
    spec_unique_offsets, unflatten_index,
};
use crate::ndtensor::{collect_logical, tensor_view_seq};
use crate::storage::{Storage, StorageMut};

verus! {

/// A tensor whose dimension count is a run-time value. `T` is the element
/// type and `S` the element storage.
#[derive(Clone, Debug)]
pub struct TensorBase<T, S> {
    pub data: S,
    pub shape: Vec<usize>,
    pub strides: Vec<usize>,
    pub element_type: core::marker::PhantomData<T>,
}

/// Variant of [`TensorBase`] which owns its elements.
pub type Tensor<T> = TensorBase<T, Vec<T>>;

/// Variant of [`TensorBase`] which borrows its elements immutably.
pub type TensorView<'a, T> = TensorBase<T, &'a [T]>;

/// Variant of [`TensorBase`] which borrows its elements mutably.
pub type TensorViewMut<'a, T> = TensorBase<T, &'a mut [T]>;

impl<T, S: Storage<T>> TensorBase<T, S> {
    /// The tensor's storage holds every offset its layout can reach.
    pub open spec fn wf(&self) -> bool {
        &&& layout_wf(self.shape@, self.strides@)
        &&& min_storage_len(self.shape@, self.strides@) <= self.data.sview().len()
    }

    /// The stored elements, as a sequence.
    pub open spec fn data_seq(&self) -> Seq<T> {
        self.data.sview()
    }

    /// The shape, as a sequence.
    pub open spec fn shape_seq(&self) -> Seq<usize> {
        self.shape@
    }

    /// The strides, as a sequence.
    pub open spec fn strides_seq(&self) -> Seq<usize> {
        self.strides@
    }

    /// The logical view: the elements in row-major order.
    pub open spec fn view_seq(&self) -> Seq<T> {
        tensor_view_seq(self.data.sview(), self.shape@, self.strides@)
    }

    /// The number of dimensions.
    pub fn ndim(&self) -> (r: usize)
        ensures
            r == self.shape_seq().len(),
    {
        self.shape.len()
    }

    /// The extent of every axis.
    pub fn shape(&self) -> (r: &[usize])
        ensures
            r@ == self.shape_seq(),
    {
        self.shape.as_slice()
    }

    /// The stride of every axis.
    pub fn strides(&self) -> (r: &[usize])
        ensures
            r@ == self.strides_seq(),
    {
        self.strides.as_slice()
    }

    /// The number of logical elements.
    pub fn len(&self) -> (r: usize)
        requires
            self.wf(),
        ensures
            r == self.view_seq().len(),
    {
        proof {
            lemma_elem_count_pos(self.shape@);
        }
        count_elems(self.shape.as_slice())
    }

    /// True when the tensor holds no elements.
    pub fn is_empty(&self) -> (r: bool)
        requires
            self.wf(),
        ensures
            r == (self.view_seq().len() == 0),
    {
        self.len() == 0
    }

    /// The underlying data as a slice, if the layout is contiguous.
    pub fn data(&self) -> (r: Option<&[T]>)
        requires
            self.wf(),
        ensures
            match r {
                Some(s) => is_contiguous_layout(self.shape_seq(), self.strides_seq()) && s@
                    == self.data_seq(),
                None => !is_contiguous_layout(self.shape_seq(), self.strides_seq()),
            },
    {
        if slice_is_contiguous(self.shape.as_slice(), self.strides.as_slice()) {
            Some(self.data.sborrow())
        } else {
            None
        }
    }

    /// The single element of a one-element tensor, or `None`.
    pub fn item(&self) -> (r: Option<&T>)
        requires
            self.wf(),
        ensures
            match r {
                Some(v) => self.view_seq().len() == 1 && *v == self.view_seq()[0],
                None => self.view_seq().len() != 1,
            },
    {
        proof {
            lemma_elem_count_pos(self.shape@);
        }
        if self.len() == 1 {
            proof {
                lemma_elem_count_one(self.shape@);
                let z = unflatten_index(0, self.shape@);
                crate::layout::lemma_unflatten_in_bounds(0, self.shape@);
                lemma_offset_bounded(z, self.shape@, self.strides@);
                lemma_offset_zero_index(z, self.shape@, self.strides@);
            }
            Some(self.data.sget(0))
        } else {
            None
        }
    }

}

impl<T: Copy, S: Storage<T>> TensorBase<T, S> {
    /// A copy of the elements in their logical order.
    pub fn to_vec(&self) -> (r: Vec<T>)
        requires
            self.wf(),
        ensures
            r@ == self.view_seq(),
    {
        collect_logical(&self.data, self.shape.as_slice(), self.strides.as_slice())
    }

    /// The elements in logical order. Each call walks the tensor afresh.
    pub fn iter(&self) -> (r: Vec<T>)
        requires
            self.wf(),
        ensures
            r@ == self.view_seq(),
    {
        self.to_vec()
    }
}

impl<T, S: StorageMut<T>> TensorBase<T, S> {
    /// A mutable view sharing this tensor's storage and layout; writes
    /// through the view land back in this tensor.
    pub fn view_mut(&mut self) -> (r: TensorViewMut<'_, T>)
        requires
            old(self).wf(),
        ensures
            r.shape_seq() == old(self).shape_seq(),
            r.strides_seq() == old(self).strides_seq(),
            r.data_seq() == old(self).data_seq(),
            r.wf(),
            final(self).shape@ == old(self).shape@,
            final(self).strides@ == old(self).strides@,
            final(self).data_seq() == final(r.data)@,
    {
        let shape = vstd::slice::slice_to_vec(self.shape.as_slice());
        let strides = vstd::slice::slice_to_vec(self.strides.as_slice());
        TensorBase {
            data: self.data.sborrow_mut(),
            shape,
            strides,
            element_type: core::marker::PhantomData,
        }
    }

    /// The underlying data as a mutable slice, if the layout is
    /// contiguous; writes through it land back in this tensor.
    pub fn data_mut(&mut self) -> (r: Option<&mut [T]>)
        requires
            old(self).wf(),
        ensures
            final(self).shape@ == old(self).shape@,
            final(self).strides@ == old(self).strides@,
            match r {
                Some(s) => {
                    &&& is_contiguous_layout(old(self).shape_seq(), old(self).strides_seq())
                    &&& s@ == old(self).data_seq()
                    &&& final(self).data_seq() == final(s)@
                },
                None => {
                    &&& !is_contiguous_layout(old(self).shape_seq(), old(self).strides_seq())
                    &&& final(self).data_seq() == old(self).data_seq()
                },
            },
    {
        if slice_is_contiguous(self.shape.as_slice(), self.strides.as_slice()) {
            Some(self.data.sborrow_mut())
        } else {
            None
        }
    }
}

/// A layout with exactly one element has extent one along every axis.
proof fn lemma_elem_count_one(shape: Seq<usize>)
    requires
        elem_count(shape) == 1,
    ensures
        forall|d: int| 0 <= d < shape.len() ==> shape[d] == 1,
    decreases shape.len(),
{
    lemma_elem_count_pos(shape);
    if shape.len() > 0 {
        let head = shape[0] as int;
        let tail = elem_count(shape.skip(1));
        lemma_elem_count_pos(shape.skip(1));
        assert(head == 1 && tail == 1) by (nonlinear_arith)
            requires head >= 1, tail >= 1, head * tail == 1;
        lemma_elem_count_one(shape.skip(1));
        assert forall|d: int| 0 <= d < shape.len() implies shape[d] == 1 by {
            if d > 0 {
                assert(shape.skip(1)[d - 1] == shape[d]);
            }
        }
    }
}

/// An all-zero index always maps to storage offset zero.
proof fn lemma_offset_zero_index(index: Seq<usize>, shape: Seq<usize>, strides: Seq<usize>)
    requires
        forall|d: int| 0 <= d < shape.len() ==> shape[d] == 1,
        index_in_bounds(index, shape),
        strides.len() == shape.len(),
    ensures
        offset_of(index, strides) == 0,
    decreases index.len(),
{
    if index.len() > 0 {
        assert forall|d: int| 0 <= d < shape.skip(1).len() implies shape.skip(1)[d] == 1 by {
            assert(shape.skip(1)[d] == shape[d + 1]);
        }
        assert forall|d: int| 0 <= d < index.skip(1).len() implies index.skip(1)[d] < shape.skip(
            1,
        )[d] by {
            assert(index.skip(1)[d] == index[d + 1]);
        }
        lemma_offset_zero_index(index.skip(1), shape.skip(1), strides.skip(1));
        assert(index[0] == 0);
        assert(index[0] * strides[0] == 0) by (nonlinear_arith)
            requires index[0] == 0;
    }
}

/// The number of logical elements of a shape whose count fits in `usize`.
pub(crate) fn count_elems(shape: &[usize]) -> (r: usize)
    requires
        elem_count(shape@) <= usize::MAX,
    ensures
        r == elem_count(shape@),
{
    let ghost sh = shape@;
    let n = shape.len();
    let mut d: usize = 0;
    while d < n
        invariant
            d <= n,
            sh == shape@,
            n == sh.len(),
            forall|j: int| 0 <= j < d ==> sh[j] > 0,
        decreases n - d,
    {
        if shape[d] == 0 {
            proof {
                lemma_elem_count_pos(sh);
            }
            return 0;
        }
        d = d + 1;
    }
    proof {
        lemma_elem_count_pos(sh);
        assert(sh.skip(n as int) =~= Seq::<usize>::empty());
    }
    let mut acc: usize = 1;
    let mut e: usize = n;
    while e > 0
        invariant
            e <= n,
            sh == shape@,
            n == sh.len(),
            forall|j: int| 0 <= j < n ==> sh[j] > 0,
            elem_count(sh) <= usize::MAX,
            acc == elem_count(sh.skip(e as int)),
        decreases e,
    {
        e = e - 1;
        proof {
            assert(sh.skip(e as int).skip(1) =~= sh.skip(e + 1));
            assert(sh.skip(e as int)[0] == sh[e as int]);
            lemma_elem_count_skip_le(sh, e as int);
        }
        acc = shape[e] * acc;
    }
    proof {
        let zero: int = 0;
        assert(sh.skip(zero) =~= sh);
    }
    acc
}

/// Row-major contiguity of a dynamic layout.
pub(crate) fn slice_is_contiguous(shape: &[usize], strides: &[usize]) -> (r: bool)
    requires
        layout_wf(shape@, strides@),
    ensures
        r == is_contiguous_layout(shape@, strides@),
{
    let ghost sh = shape@;
    let ghost st = strides@;
    let n = shape.len();
    let mut expected: Option<usize> = Some(1);
    let mut e: usize = n;
    proof {
        assert(sh.skip(n as int) =~= Seq::<usize>::empty());
    }
    while e > 0
        invariant
            e <= n,
            sh == shape@,
            st == strides@,
            n == sh.len(),
            st.len() == n,
            match expected {
                Some(v) => v == elem_count(sh.skip(e as int)),
                None => elem_count(sh.skip(e as int)) > usize::MAX,
            },
            forall|d: int|
                e <= d < n && sh[d] != 1 ==> st[d] == elem_count(sh.skip(d + 1)),
        decreases e,
    {
        e = e - 1;
        proof {
            assert(sh.skip(e as int).skip(1) =~= sh.skip(e + 1));
            assert(sh.skip(e as int)[0] == sh[e as int]);
            lemma_elem_count_pos(sh.skip(e + 1));
        }
        match expected {
            Some(v) => {
                if shape[e] != 1 && strides[e] != v {
                    return false;
                }
                expected = v.checked_mul(shape[e]);
                proof {
                    let head = sh[e as int] as int;
                    let tail = elem_count(sh.skip(e + 1));
                    assert(elem_count(sh.skip(e as int)) == head * tail);
                    assert(head * tail == tail * head) by (nonlinear_arith);
                }
            },
            None => {
                if shape[e] != 1 {
                    return false;
                }
                proof {
                    let head = sh[e as int] as int;
                    let tail = elem_count(sh.skip(e + 1));
                    assert(elem_count(sh.skip(e as int)) == head * tail);
                }
            },
        }
    }
    true
}

/// Create a tensor from its shape and elements, laid out contiguously in
/// row-major order.
pub fn from_data<T>(shape: Vec<usize>, data: Vec<T>) -> (r: Tensor<T>)
    requires
        shape_counts_fit(shape@),
        elem_count(shape@) <= data@.len(),
    ensures
        r.wf(),
        r.shape_seq() == shape@,
        forall|d: int| 0 <= d < shape@.len() ==> r.strides_seq()[d] == elem_count(shape@.skip(d + 1)),
        r.data_seq() == data@,
        r.view_seq() == data@.take(elem_count(shape@)),
        spec_unique_offsets(r.shape_seq(), r.strides_seq()),
        is_contiguous_layout(r.shape_seq(), r.strides_seq()),
{
    let ghost sh = shape@;
    let n = shape.len();
    let mut strides: Vec<usize> = Vec::new();
    let mut e: usize = n;
    proof {
        assert(sh.skip(n as int) =~= Seq::<usize>::empty());
    }
    let mut acc: usize = 1;
    while e > 0
        invariant
            e <= n,
            sh == shape@,
            n == sh.len(),
            shape_counts_fit(sh),
            acc == elem_count(sh.skip(e as int)),
            strides@.len() == n - e,
            forall|i: int|
                0 <= i < strides@.len() ==> #[trigger] strides@[i] == elem_count(
                    sh.skip(e + i + 1),
                ),
        decreases e,
    {
        e = e - 1;
        let ghost prev = strides@;
        strides.insert(0, acc);
        proof {
            assert(sh.skip(e as int).skip(1) =~= sh.skip(e + 1));
            assert(sh.skip(e as int)[0] == sh[e as int]);
            assert(elem_count(#[trigger] sh.skip(e as int)) <= usize::MAX);
            assert(strides@ =~= seq![acc] + prev);
            assert forall|i: int| 0 <= i < strides@.len() implies #[trigger] strides@[i]
                == elem_count(sh.skip(e + i + 1)) by {
                if i > 0 {
                    assert(strides@[i] == prev[i - 1]);
                    assert(prev[i - 1] == elem_count(sh.skip(e + 1 + (i - 1) + 1)));
                }
            }
        }
        acc = shape[e] * acc;
    }
    proof {
        let zero: int = 0;
        assert(sh.skip(zero) =~= sh);
        assert forall|j: int| 0 <= j < n implies #[trigger] strides@[j] == elem_count(
            sh.skip(j + 1),
        ) by {
            assert(strides@[j] == elem_count(sh.skip(0 + j + 1)));
        }
    }
    let r = TensorBase { data, shape, strides, element_type: core::marker::PhantomData };
    proof {
        lemma_elem_count_pos(sh);
        crate::layout::lemma_contiguous_unique_offsets(sh, r.strides@);
        if elem_count(sh) > 0 {
            crate::layout::lemma_contiguous_max_offset(sh, r.strides@);
        }
        let ec = elem_count(sh);
        assert forall|k: int| 0 <= k < ec implies r.view_seq()[k] == r.data.sview()[k] by {
            crate::layout::lemma_unflatten_in_bounds(k, sh);
            crate::layout::lemma_unflatten_offset(k, sh, r.strides@);
        }
        assert(r.view_seq() =~= r.data_seq().take(ec));
    }
    r
}

/// A tensor holding one scalar value, of dimension count zero.
pub fn from_scalar<T>(value: T) -> (r: Tensor<T>)
    ensures
        r.wf(),
        r.shape_seq() == Seq::<usize>::empty(),
        r.view_seq() == seq![value],
{
    let mut data: Vec<T> = Vec::new();
    data.push(value);
    let shape: Vec<usize> = Vec::new();
    proof {
        assert(shape@ =~= Seq::<usize>::empty());
        assert forall|d: int| 0 <= d <= shape@.len() implies elem_count(
            #[trigger] shape@.skip(d),
        ) <= usize::MAX by {
            assert(shape@.skip(d) =~= Seq::<usize>::empty());
        }
    }
    let r = from_data(shape, data);
    proof {
        assert(r.view_seq() =~= seq![value]);
    }
    r
}

/// A one-dimensional tensor owning the elements of `data`.
pub fn from_vec<T>(data: Vec<T>) -> (r: Tensor<T>)
    ensures
        r.wf(),
        r.shape_seq() == seq![data@.len() as usize],
        r.view_seq() == data@,
{
    let mut shape: Vec<usize> = Vec::new();
    shape.push(data.len());
    proof {
        assert(shape@ =~= seq![data@.len() as usize]);
        assert(shape@.skip(1) =~= Seq::<usize>::empty());
        let zero: int = 0;
        assert(shape@.skip(zero) =~= shape@);
        assert(elem_count(Seq::<usize>::empty()) == 1);
        assert(elem_count(shape@) == shape@[0] * elem_count(shape@.skip(1)));
        assert forall|d: int| 0 <= d <= shape@.len() implies elem_count(
            #[trigger] shape@.skip(d),
        ) <= usize::MAX by {
            if d == 0 {
                assert(shape@.skip(0) =~= shape@);
            } else {
                assert(shape@.skip(1) =~= Seq::<usize>::empty());
            }
        }
    }
    let ghost dl = data@.len();
    let r = from_data(shape, data);
    proof {
        assert(r.view_seq() =~= r.data_seq().take(dl as int));
        assert(r.view_seq() =~= r.data_seq());
    }
    r
}

/// A contiguous tensor of the given shape with every element the default
/// value of `T`.
pub fn zeros<T: Copy + Default>(shape: &[usize]) -> (r: Tensor<T>)
    requires
        shape_counts_fit(shape@),
    ensures
        r.wf(),
        r.shape_seq() == shape@,
        r.view_seq().len() == elem_count(shape@),
        forall|k1: int, k2: int|
            0 <= k1 < r.view_seq().len() && 0 <= k2 < r.view_seq().len() ==> r.view_seq()[k1]
                == r.view_seq()[k2],
        is_contiguous_layout(r.shape_seq(), r.strides_seq()),
        spec_unique_offsets(r.shape_seq(), r.strides_seq()),
{
    proof {
        let zero: int = 0;
        assert(shape@.skip(zero) =~= shape@);
        assert(elem_count(#[trigger] shape@.skip(zero)) <= usize::MAX);
        lemma_elem_count_pos(shape@);
    }
    let n = count_elems(shape);
    let value: T = T::default();
    let mut data: Vec<T> = Vec::new();
    let mut i: usize = 0;
    while i < n
        invariant
            i <= n,
            data@.len() == i,
            forall|j: int| 0 <= j < i ==> data@[j] == value,
        decreases n - i,
    {
        data.push(value);
        i = i + 1;
    }
    let r = from_data(vstd::slice::slice_to_vec(shape), data);
    proof {
        lemma_elem_count_pos(shape@);
    }
    r
}

/// A tensor of the given shape with every element zeroed; another name
/// for [`zeros`], kept for callers that build graphs.
pub fn zero_tensor<T: Copy + Default>(shape: &[usize]) -> (r: Tensor<T>)
    requires
        shape_counts_fit(shape@),
    ensures
        r.wf(),
        r.shape_seq() == shape@,
        r.view_seq().len() == elem_count(shape@),
{
    zeros(shape)
}

} // verus!
