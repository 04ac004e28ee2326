//! A strided multi-dimensional array library: tensors that pair a flat
//! element buffer with a shape-and-strides layout, supporting zero-copy
//! views, broadcasting, slicing and permutation, together with the
//! shape-manipulating `concat` operator and integer raster drawing
//! helpers used for image pre- and post-processing.
pub mod concat;
pub mod dyntensor;
pub mod errors;
pub mod imageproc;
pub mod layout;
pub mod ndtensor;
pub mod ops;
pub mod storage;
pub mod testing;

pub use crate::concat::concat;
pub use crate::dyntensor::{
    from_data, from_scalar, from_vec, zero_tensor, zeros, Tensor, TensorBase, TensorView,
    TensorViewMut,
};
pub use crate::errors::{DimensionError, FromDataError};
pub use crate::imageproc::{
    draw_line, draw_polygon, fill_rect, stroke_rect, BreshamPoints, Edge, FillIter, Line, Point,
    Polygon, Rect,
};
pub use crate::layout::{NdLayout, OverlapPolicy, SliceItem};
pub use crate::ndtensor::{
    Matrix, MatrixMut, NdTensor, NdTensorBase, NdTensorView, NdTensorViewMut, RandomSource,
    UncheckedNdTensor,
};
pub use crate::ops::{resolve_axes, DataType, OpError, Padding};
pub use crate::testing::AllF32s;
