//! Cross-cutting behaviour: the layout round trip, permutation
//! inverses, and the exhaustive bit-pattern walk.
use wasnn::layout::{NdLayout, OverlapPolicy};
use wasnn::ndtensor::{NdTensor, NdTensorView};
use wasnn::errors::{DimensionError, FromDataError};
use wasnn::testing::AllF32s;

#[test]
fn test_layout_offset_round_trip() {
    // For every valid index the offset is the dot product of index and
    // strides; any out-of-range coordinate yields `None`.
    let layout = NdLayout::try_from_shape_and_strides(
        [2, 3, 4],
        [12, 4, 1],
        OverlapPolicy::DisallowOverlap,
    )
    .unwrap();
    for y in 0..2 {
        for x in 0..3 {
            for z in 0..4 {
                assert_eq!(layout.try_offset([y, x, z]), Some(y * 12 + x * 4 + z));
            }
        }
    }
    assert_eq!(layout.try_offset([2, 0, 0]), None);
    assert_eq!(layout.try_offset([0, 3, 0]), None);
    assert_eq!(layout.try_offset([0, 0, 4]), None);
}

#[test]
fn test_permute_then_inverse_restores_order() {
    // Applying a permutation and then its inverse restores the original
    // logical element order.
    let data: Vec<i32> = (0..24).collect();
    let flat = NdTensorView::from_slice(&data);
    let view = flat.reshaped([2, 3, 4]);
    let permutations: [[usize; 3]; 6] = [
        [0, 1, 2],
        [0, 2, 1],
        [1, 0, 2],
        [1, 2, 0],
        [2, 0, 1],
        [2, 1, 0],
    ];
    for p in permutations {
        let mut inverse = [0usize; 3];
        for (i, &axis) in p.iter().enumerate() {
            inverse[axis] = i;
        }
        let once = view.permuted(p);
        let round_trip = once.permuted(inverse);
        assert_eq!(round_trip.shape(), view.shape());
        assert_eq!(round_trip.strides(), view.strides());
        assert_eq!(round_trip.to_vec(), view.to_vec());
    }
}

#[test]
fn test_broadcast_shares_single_buffer() {
    // Broadcasting never copies: the view reads the same backing data.
    let x = NdTensor::from_data([1, 2], vec![5, 6]);
    let b = x.broadcast([4, 2]);
    assert_eq!(b.strides(), [0, 1]);
    assert_eq!(b.to_vec(), vec![5, 6, 5, 6, 5, 6, 5, 6]);
}

#[test]
fn test_all_f32s_bit_patterns() {
    // The walk yields every pattern once, in order, and restarting
    // yields the same sequence.
    let mut a = AllF32s::new();
    assert_eq!(a.next_bits(), Some(0));
    assert_eq!(a.next_bits(), Some(1));
    assert_eq!(a.next_bits(), Some(2));
    assert_eq!(a.remaining(), u32::MAX as usize - 3);
    let mut b = AllF32s::new();
    assert_eq!(b.next_bits(), Some(0));
    // Each pattern converts to the float with those bits.
    let mut c = AllF32s::new();
    c.next_bits();
    let one_bits = f32::to_bits(1.0);
    let mut c2 = AllF32s { next: one_bits };
    assert_eq!(c2.next_bits().map(f32::from_bits), Some(1.0));
}

#[test]
fn test_unchecked_indexing() {
    let tensor = NdTensor::from_data([2, 3], vec![1, 2, 3, 4, 5, 6]);
    let view = tensor.view();
    let unchecked = view.unchecked();
    assert_eq!(*unchecked.at([1, 2]), 6);
    let mut tensor = tensor;
    let mut unchecked_mut = tensor.unchecked_mut();
    unchecked_mut.set([0, 1], 9);
    drop(unchecked_mut);
    assert_eq!(tensor.to_vec(), vec![1, 9, 3, 4, 5, 6]);
}

#[test]
fn test_dyn_tensor_basics() {
    let t = wasnn::from_vec(vec![1, 2, 3]);
    assert_eq!(t.shape(), &[3]);
    assert_eq!(t.to_vec(), vec![1, 2, 3]);

    let s = wasnn::from_scalar(7i32);
    assert_eq!(s.shape(), &[] as &[usize]);
    assert_eq!(s.item(), Some(&7));

    let z = wasnn::zero_tensor::<i32>(&[2, 2]);
    assert_eq!(z.to_vec(), vec![0, 0, 0, 0]);
    assert_eq!(z.item(), None);
}

#[test]
fn test_errors_have_messages() {
    assert_eq!(DimensionError {}.message(), "dim count is incorrect");
    assert_eq!(FromDataError::StorageTooShort.message(), "Data too short");
    assert_eq!(
        FromDataError::MayOverlap.message(),
        "May have internal overlap"
    );
}
