//! Behaviour of the fixed-rank tensor type: construction, views,
//! broadcasting, permutation, slicing and mutation.
use wasnn::errors::{DimensionError, FromDataError};
use wasnn::layout::SliceItem;
use wasnn::ndtensor::{NdTensor, NdTensorBase, NdTensorView, NdTensorViewMut, RandomSource};

/// Return elements of `tensor` in their logical order.
fn tensor_elements<T: Copy, const N: usize>(tensor: NdTensorView<T, N>) -> Vec<T> {
    tensor.to_vec()
}

/// Create a tensor where the value of each element is its logical index
/// plus one.
fn steps<const N: usize>(shape: [usize; N]) -> NdTensor<i32, N> {
    let count: usize = shape.iter().product();
    let data: Vec<i32> = (0..count).map(|index| (index + 1) as i32).collect();
    NdTensor::from_data(shape, data)
}

#[test]
fn test_ndtensor_apply() {
    let mut tensor = NdTensor::from_data([2, 2], vec![1, 2, 3, 4]);

    // Whole tensor
    tensor.apply(|x| x * 2);
    assert_eq!(tensor.to_vec(), &[2, 4, 6, 8]);

    // Non-contiguous slice
    tensor
        .slice_mut::<1>(&[SliceItem::full(), SliceItem::index(0)])
        .apply(|_| 0);
    assert_eq!(tensor.to_vec(), &[0, 4, 0, 8]);
}

#[test]
fn test_ndtensor_fill() {
    let mut x = NdTensor::zeros([2, 2]);
    x.fill(1i32);
    assert_eq!(x.to_vec(), &[1, 1, 1, 1]);

    x.slice_mut::<1>(&[SliceItem::index(0)]).fill(2);
    x.slice_mut::<1>(&[SliceItem::index(1)]).fill(3);

    assert_eq!(x.to_vec(), &[2, 2, 3, 3]);
}

// Test conversion of a static-dim tensor with default strides, to a
// dynamic dim tensor.
#[test]
fn test_ndtensor_as_dyn() {
    let tensor = NdTensor::from_data([2, 2], vec![1, 2, 3, 4]);
    let dyn_tensor = tensor.as_dyn();
    assert_eq!(tensor.shape().as_slice(), dyn_tensor.shape());
    assert_eq!(tensor.data(), dyn_tensor.data());
}

#[test]
fn test_ndtensor_as_dyn_mut() {
    let mut tensor = NdTensor::from_data([2, 2], vec![1, 2, 3, 4]);
    let mut dyn_tensor = tensor.as_dyn_mut();
    assert_eq!(dyn_tensor.shape(), [2, 2]);
    assert_eq!(&dyn_tensor.data_mut().unwrap()[..], &[1, 2, 3, 4][..]);
}

// Test conversion of a static-dim tensor with broadcasting strides (ie.
// some strides are 0), to a dynamic dim tensor.
#[test]
fn test_ndtensor_as_dyn_broadcast() {
    let data = [1, 2, 3, 4];
    let view = NdTensorView::from_slice_with_strides([4, 4], &data, [0, 1]).unwrap();
    let dyn_view = view.as_dyn();
    let elements: Vec<_> = dyn_view.to_vec();
    assert_eq!(elements, &[1, 2, 3, 4, 1, 2, 3, 4, 1, 2, 3, 4, 1, 2, 3, 4]);
}

#[test]
fn test_ndtensor_broadcast() {
    let x = NdTensor::from_data([2], vec![1, 2]);
    let bx = x.broadcast([3, 2]);
    assert_eq!(bx.shape(), [3, 2]);
    assert_eq!(bx.strides(), [0, 1]);
    assert_eq!(bx.as_dyn().to_vec(), &[1, 2, 1, 2, 1, 2]);

    let x = NdTensor::from_data([], vec![3]);
    let bx = x.broadcast([2, 4]);
    assert_eq!(bx.shape(), [2, 4]);
    assert_eq!(bx.strides(), [0, 0]);
    assert_eq!(bx.as_dyn().to_vec(), &[3, 3, 3, 3, 3, 3, 3, 3]);
}

#[test]
fn test_ndtensor_copy_from() {
    let x = NdTensor::from_data([2, 2], vec![1, 2, 3, 4]);
    let mut y = NdTensor::zeros(x.shape());

    y.copy_from(&x.view());

    assert_eq!(y, x);
}

#[test]
fn test_ndtensor_from_data() {
    let data = vec![1., 2., 3., 4.];
    let view = NdTensorView::<f32, 2>::from_data([2, 2], &data);
    assert_eq!(view.data(), Some(data.as_slice()));
    assert_eq!(view.shape(), [2, 2]);
    assert_eq!(view.strides(), [2, 1]);
}

#[test]
fn test_ndtensor_from_data_custom_strides() {
    struct Case {
        data: Vec<f32>,
        shape: [usize; 2],
        strides: [usize; 2],
    }

    let cases = [
        // Contiguous view (no gaps, shortest stride last)
        Case {
            data: vec![1., 2., 3., 4.],
            shape: [2, 2],
            strides: [2, 1],
        },
        // Transposed view (reversed strides)
        Case {
            data: vec![1., 2., 3., 4.],
            shape: [2, 2],
            strides: [1, 2],
        },
        // Sliced view (gaps between elements)
        Case {
            data: vec![1.; 10],
            shape: [2, 2],
            strides: [4, 2],
        },
        // Sliced view (gaps between rows)
        Case {
            data: vec![1.; 10],
            shape: [2, 2],
            strides: [4, 1],
        },
    ];

    for case in cases {
        let result =
            NdTensorView::<f32, 2>::from_data_with_strides(case.shape, &case.data, case.strides)
                .unwrap();
        assert_eq!(result.shape(), case.shape);
        assert_eq!(result.strides(), case.strides);
        assert_eq!(
            result.data(),
            result.layout().is_contiguous().then_some(case.data.as_slice())
        );
    }
}

#[test]
fn test_ndtensor_from_iterator() {
    let tensor: NdTensor<f32, 1> = NdTensor::from_vec([1., 2., 3., 4.].into_iter().collect());
    assert_eq!(tensor_elements(tensor.view()), [1., 2., 3., 4.]);
}

#[test]
fn test_slice_into_1d_ndtensor() {
    let data = &[1., 2., 3., 4.];
    let view: NdTensorView<f32, 1> = NdTensorView::from_slice(data);
    assert_eq!(view.data(), Some(data.as_slice()));
    assert_eq!(view.shape(), [4]);
    assert_eq!(view.strides(), [1]);
}

#[test]
fn test_ndtensor_from_slice_with_strides() {
    let data = vec![1., 2., 3., 4.];
    let view = NdTensorView::<f32, 2>::from_slice_with_strides([2, 2], &data, [2, 1]).unwrap();
    assert_eq!(view.data(), Some(data.as_slice()));
    assert_eq!(view.shape(), [2, 2]);
    assert_eq!(view.strides(), [2, 1]);
}

#[test]
fn test_ndtensor_from_slice_with_strides_too_short() {
    let data = vec![1., 2., 3., 4.];
    let result = NdTensorView::<f32, 2>::from_slice_with_strides([3, 3], &data, [2, 1]);
    assert_eq!(result.err(), Some(FromDataError::StorageTooShort));
}

#[test]
fn test_ndtensor_from_data_fails_if_overlap() {
    struct Case {
        data: Vec<f32>,
        shape: [usize; 3],
        strides: [usize; 3],
    }

    let cases = [
        // Broadcasting view (zero strides)
        Case {
            data: vec![1., 2., 3., 4.],
            shape: [10, 2, 2],
            strides: [0, 2, 1],
        },
        // Case where there is actually no overlap, but the constructor
        // fails with a `MayOverlap` error due to the conservative logic
        // it uses.
        Case {
            data: vec![1.; (3 * 3) + (3 * 4) + 1],
            shape: [1, 4, 4],
            strides: [20, 3, 4],
        },
    ];

    for case in cases {
        let result =
            NdTensorView::<f32, 3>::from_data_with_strides(case.shape, &case.data, case.strides);
        assert_eq!(result.err(), Some(FromDataError::MayOverlap));
    }
}

#[test]
fn test_ndtensor_from_slice_allows_overlap() {
    let data = vec![1., 2., 3., 4.];
    let result = NdTensorView::<f32, 3>::from_slice_with_strides([10, 2, 2], &data, [0, 2, 1]);
    assert!(result.is_ok());
}

#[test]
fn test_ndtensor_try_from_tensor() {
    // Tensor -> NdTensor
    let tensor = wasnn::zeros::<i32>(&[1, 10, 20]);
    let ndtensor: NdTensor<i32, 3> = NdTensorBase::try_from_dyn(tensor.clone()).unwrap();
    assert_eq!(ndtensor.data(), tensor.data());
    assert_eq!(ndtensor.shape().as_slice(), tensor.shape());
    assert_eq!(ndtensor.strides().as_slice(), tensor.strides());

    // Failed Tensor -> NdTensor
    let matrix: Result<NdTensor<i32, 2>, _> = NdTensorBase::try_from_dyn(tensor.clone());
    assert_eq!(matrix, Err(DimensionError {}));

    // TensorViewMut -> NdTensorViewMut
    let mut tensor = wasnn::zeros::<i32>(&[1, 10, 20]);
    let mut ndview: NdTensorViewMut<i32, 3> = NdTensorBase::try_from_dyn(tensor.view_mut()).unwrap();
    ndview.set([0, 0, 0], 1);
    assert_eq!(tensor.to_vec()[0], 1);
}

#[test]
fn test_ndtensor_get() {
    let tensor = NdTensor::<i32, 3>::zeros([5, 10, 15]);

    assert_eq!(tensor.get([0, 0, 0]), Some(&0));
    assert_eq!(tensor.get([4, 9, 14]), Some(&0));
    assert_eq!(tensor.get([5, 9, 14]), None);
    assert_eq!(tensor.get([4, 10, 14]), None);
    assert_eq!(tensor.get([4, 9, 15]), None);
}

#[test]
fn test_ndtensor_get_array() {
    let tensor = steps([4, 2, 2]);

    // First dim, zero base.
    let values: [i32; 4] = tensor.get_array([0, 0, 0], 0);
    assert_eq!(values, [1, 5, 9, 13]);

    // First dim, different base.
    let values: [i32; 4] = tensor.get_array([0, 1, 1], 0);
    assert_eq!(values, [4, 8, 12, 16]);

    // Last dim, zero base.
    let values: [i32; 2] = tensor.get_array([0, 0, 0], 2);
    assert_eq!(values, [1, 2]);
}

#[test]
fn test_ndtensor_set_array() {
    let mut tensor = steps([4, 2, 2]);
    tensor.set_array([0, 0, 0], 0, [-1, -2, -3, -4]);
    assert_eq!(
        tensor.to_vec(),
        &[-1, 2, 3, 4, -2, 6, 7, 8, -3, 10, 11, 12, -4, 14, 15, 16]
    );
}

#[test]
fn test_ndtensor_assign_array() {
    let mut tensor = NdTensor::zeros([2, 2]);
    let mut transposed = tensor.view_mut();

    transposed.permute([1, 0]);
    transposed
        .slice_mut::<1>(&[SliceItem::index(0)])
        .assign_array([1, 2]);
    transposed
        .slice_mut::<1>(&[SliceItem::index(1)])
        .assign_array([3, 4]);
    drop(transposed);

    assert_eq!(tensor.to_vec(), [1, 3, 2, 4]);
}

#[test]
fn test_ndtensor_get_mut() {
    let mut tensor = NdTensor::<i32, 3>::zeros([5, 10, 15]);

    assert_eq!(tensor.get_mut([0, 0, 0]), Some(&mut 0));
    assert_eq!(tensor.get_mut([4, 9, 14]), Some(&mut 0));
    assert_eq!(tensor.get_mut([5, 9, 14]), None);
    assert_eq!(tensor.get_mut([4, 10, 14]), None);
    assert_eq!(tensor.get_mut([4, 9, 15]), None);
}

#[test]
fn test_ndtensor_into_dyn() {
    let nd_tensor = NdTensor::from_data([2, 3], vec![0., 1., 2., 3., 4., 5.]);
    let tensor = nd_tensor.into_dyn();
    assert_eq!(tensor.shape(), [2, 3]);
    assert_eq!(tensor.to_vec(), [0., 1., 2., 3., 4., 5.]);
}

#[test]
fn test_ndtensor_iter() {
    let tensor = NdTensor::<i32, 2>::from_data([2, 2], vec![1, 2, 3, 4]);
    let elements: Vec<_> = tensor.iter();
    assert_eq!(elements, &[1, 2, 3, 4]);
}

#[test]
fn test_ndtensor_map() {
    let tensor = NdTensor::<i32, 2>::from_data([2, 2], vec![1, 2, 3, 4]);
    let doubled = tensor.map(|x| x * 2);
    assert_eq!(tensor_elements(doubled.view()), &[2, 4, 6, 8]);
}

#[test]
fn test_ndtensor_to_array() {
    let tensor = NdTensor::from_data([2, 2], vec![1., 2., 3., 4.]);
    let col0: [f32; 2] = tensor
        .view()
        .transposed()
        .slice::<1>(&[SliceItem::index(0)])
        .to_array();
    let col1: [f32; 2] = tensor
        .view()
        .transposed()
        .slice::<1>(&[SliceItem::index(1)])
        .to_array();
    assert_eq!(col0, [1., 3.]);
    assert_eq!(col1, [2., 4.]);
}

#[test]
fn test_ndtensor_to_tensor() {
    let data = vec![1., 2., 3., 4.];
    let base = NdTensorView::<f32, 2>::from_data([2, 2], &data);
    let view = base.permuted([1, 0]);
    let owned = view.to_tensor();
    assert_eq!(owned.shape(), view.shape());
    assert!(owned.layout().is_contiguous());
}

#[test]
fn test_ndtensor_to_vec() {
    let tensor = NdTensor::from_data([2, 2], vec![1, 2, 3, 4]);
    let view = tensor.view();
    let transposed = view.transposed();
    assert_eq!(transposed.to_vec(), &[1, 3, 2, 4]);
}

#[test]
fn test_ndtensor_partial_eq() {
    let a = NdTensor::from_data([2, 2], vec![1, 2, 3, 4]);
    let b = NdTensor::from_data([2, 2], vec![1, 2, 3, 4]);
    let c = NdTensor::from_data([1, 4], vec![1, 2, 3, 4]);
    let d = NdTensor::from_data([2, 2], vec![1, 2, 3, 5]);

    assert_eq!(a, b);
    assert_ne!(a, c);
    assert_ne!(a, d);
}

#[test]
fn test_ndtensor_permuted() {
    let data = vec![1, 2, 3, 4];
    let flat = NdTensorView::from_slice(&data);
    let view = flat.reshaped([2, 2]);
    let transposed = view.permuted([1, 0]);
    assert_eq!(tensor_elements(transposed), &[1, 3, 2, 4]);

    let transposed = transposed.permuted([1, 0]);
    assert_eq!(tensor_elements(transposed), &[1, 2, 3, 4]);
}

#[test]
fn test_ndtensor_permute() {
    let data = vec![1, 2, 3, 4];
    let flat = NdTensorView::from_slice(&data);
    let mut view = flat.reshaped([2, 2]);
    view.permute([1, 0]);
    assert_eq!(tensor_elements(view), &[1, 3, 2, 4]);
    view.permute([1, 0]);
    assert_eq!(tensor_elements(view), &[1, 2, 3, 4]);
}

#[test]
fn test_ndtensor_rand() {
    struct NotRandom {
        next: f32,
    }

    impl RandomSource<f32> for NotRandom {
        fn next(&mut self) -> f32 {
            let curr = self.next;
            self.next += 1.0;
            curr
        }
    }

    let mut rng = NotRandom { next: 0. };

    let tensor = NdTensor::rand([2, 2], &mut rng);
    assert_eq!(tensor.shape(), [2, 2]);
    assert_eq!(tensor.to_vec(), &[0., 1., 2., 3.]);
}

#[test]
fn test_ndtensor_reshaped() {
    let data = vec![1, 2, 3, 4];
    let view = NdTensorView::from_slice(&data);
    let matrix = view.reshaped([2, 2]);
    assert_eq!(matrix.shape(), [2, 2]);
    assert_eq!(tensor_elements(matrix), &[1, 2, 3, 4]);
}

#[test]
fn test_ndtensor_to_contiguous() {
    let x = NdTensor::from_data([3, 3], vec![1, 2, 3, 4, 5, 6, 7, 8, 9]);
    let y = x.to_contiguous();
    assert!(y.layout().is_contiguous());
    assert_eq!(y.data().unwrap().as_ptr(), x.data().unwrap().as_ptr());

    let x = x.permuted([1, 0]);
    assert!(!x.layout().is_contiguous());

    let y = x.to_contiguous();
    assert!(y.layout().is_contiguous());
    assert_eq!(
        y.data(),
        Some(x.to_vec().as_slice())
    );
}

#[test]
fn test_ndtensor_transposed() {
    let data = vec![1, 2, 3, 4];
    let flat = NdTensorView::from_slice(&data);
    let view = flat.reshaped([2, 2]);
    assert_eq!(tensor_elements(view.view()), &[1, 2, 3, 4]);
    let view = view.transposed();
    assert_eq!(tensor_elements(view), &[1, 3, 2, 4]);

    let data = vec![1, 2, 3, 4];
    let flat = NdTensorView::from_slice(&data);
    let view = flat.reshaped([1, 1, 4]);
    let transposed = view.transposed();
    assert_eq!(transposed.shape(), [4, 1, 1]);
}

#[test]
fn test_ndtensor_slice() {
    let data: Vec<i32> = (1..=16).collect();
    let flat = NdTensorView::from_slice(&data);
    let view = flat.reshaped([4, 4]);
    let slice: NdTensorView<_, 2> = view.slice(&[
        SliceItem::range(1, Some(3), 1),
        SliceItem::range(1, Some(3), 1),
    ]);
    assert_eq!(tensor_elements(slice), &[6, 7, 10, 11]);
}

#[test]
fn test_ndtensor_slice_step() {
    let data: Vec<i32> = (0..25).collect();
    let flat = NdTensorView::from_slice(&data);
    let view = flat.reshaped([5, 5]);
    let slice: NdTensorView<_, 2> =
        view.slice(&[SliceItem::range(0, None, 2), SliceItem::range(0, None, 2)]);
    assert_eq!(slice.shape(), [3, 3]);
    assert_eq!(slice.to_vec(), [0, 2, 4, 10, 12, 14, 20, 22, 24]);
}

#[test]
fn test_ndtensor_slice_mut() {
    let mut data: Vec<i32> = (1..=16).collect();
    let mut view = NdTensorViewMut::<i32, 2>::from_data([4, 4], &mut data);
    let mut slice = view.slice_mut::<2>(&[
        SliceItem::range(1, Some(3), 1),
        SliceItem::range(1, Some(3), 1),
    ]);
    slice.set([0, 0], -1);
    slice.set([0, 1], -2);
    slice.set([1, 0], -3);
    slice.set([1, 1], -4);
    assert_eq!(
        tensor_elements(view.view()),
        &[1, 2, 3, 4, 5, -1, -2, 8, 9, -3, -4, 12, 13, 14, 15, 16]
    );
}

#[test]
fn test_matrix_layout() {
    let data = vec![1., 2., 3., 4.];
    let flat = NdTensorView::from_slice(&data);
    let mat = flat.reshaped([2, 2]);
    assert_eq!(mat.data(), Some(data.as_slice()));
    assert_eq!(mat.rows(), 2);
    assert_eq!(mat.cols(), 2);
    assert_eq!(mat.row_stride(), 2);
    assert_eq!(mat.col_stride(), 1);
}

#[test]
fn test_ndtensor_iter_mut() {
    // The library has no mutable iterator; element writes in logical
    // order take its place.
    let mut tensor = NdTensor::<i32, 2>::zeros([2, 2]);
    let mut i: i32 = 0;
    for y in 0..2 {
        for x in 0..2 {
            tensor.set([y, x], i);
            i += 1;
        }
    }
    let elements: Vec<_> = tensor.to_vec();
    assert_eq!(elements, &[0, 1, 2, 3]);
}
