//! Operator plumbing shared by compute kernels: the error taxonomy every
//! operator reports, axis resolution for negative axis arguments, and the
//! attribute carriers of shape-manipulating operators.
use vstd::prelude::*;

verus! {

/// How much padding a windowed operator applies around its input.
#[derive(Copy, Clone, Debug)]
pub enum Padding {
    /// Apply enough padding such that the output and input have the same
    /// size.
    ///
    /// If the required amount of padding along each dimension is even, it
    /// is divided equally between the start and the end. If it is odd,
    /// one more unit is added on the end than the start.
    Same,
    /// Apply a given amount of padding to the top, left, bottom and right
    /// of the input.
    Fixed([usize; 4]),
}

/// The element types a value node of a graph can carry.
#[derive(Copy, Clone, Debug)]
pub enum DataType {
    Int32,
    Float,
}

/// Possible reasons why an operator may fail on a given input.
///
/// Every variant reports bad input data; all are recoverable at the call
/// boundary.
#[derive(Eq, PartialEq, Debug)]
pub enum OpError {
    /// Input tensors have an element type that is unsupported or
    /// incompatible with other inputs.
    IncorrectInputType,
    /// Input tensor shapes are not compatible with each other or with the
    /// operator's attributes.
    IncompatibleInputShapes(&'static str),
    /// The number of inputs was less than the required number.
    MissingInputs,
    /// An input has a value that is incorrect.
    InvalidValue(&'static str),
    /// An input or attribute has a value that is valid, but not currently
    /// supported.
    UnsupportedValue(&'static str),
}

impl OpError {
    /// A short description of the error.
    pub fn message(&self) -> (r: &'static str)
        ensures
            *self is IncorrectInputType ==> r@ == "incorrect or unsupported input type"@,
            *self is MissingInputs ==> r@ == "required inputs were missing"@,
            forall|m: &'static str| *self == OpError::IncompatibleInputShapes(m) ==> r == m,
            forall|m: &'static str| *self == OpError::InvalidValue(m) ==> r == m,
            forall|m: &'static str| *self == OpError::UnsupportedValue(m) ==> r == m,
    {
        match self {
            OpError::IncorrectInputType => "incorrect or unsupported input type",
            OpError::IncompatibleInputShapes(d) => d,
            OpError::MissingInputs => "required inputs were missing",
            OpError::InvalidValue(d) => d,
            OpError::UnsupportedValue(d) => d,
        }
    }
}

/// The zero-based axis that a possibly negative axis argument names in a
/// tensor of `ndim` dimensions, counting backwards from the end when
/// negative.
pub open spec fn spec_resolve_axis(ndim: int, axis: int) -> int {
    if axis >= 0 {
        axis
    } else {
        ndim + axis
    }
}

/// Resolve an axis given as a value in `[-ndim, ndim-1]` to the zero-based
/// dimension of a tensor with `ndim` dimensions.
///
/// Negative axis values count backwards from the last dimension.
pub fn resolve_axis(ndim: usize, axis: isize) -> (r: Result<usize, OpError>)
    ensures
        match r {
            Ok(d) => {
                &&& -(ndim as int) <= axis < ndim as int
                &&& d == spec_resolve_axis(ndim as int, axis as int)
                &&& d < ndim
            },
            Err(e) => {
                &&& !(-(ndim as int) <= axis < ndim as int)
                &&& e matches OpError::InvalidValue(m) && m@ == "axis is invalid"@
            },
        },
{
    if ndim > (isize::MAX as usize) {
        // More dimensions than `isize` can count: every representable
        // axis argument is valid and non-negative axes stay as they are.
        if axis >= 0 {
            return Ok(axis as usize);
        }
        let down: usize = if axis == isize::MIN {
            (isize::MAX as usize) + 1
        } else {
            (-axis) as usize
        };
        return Ok(ndim - down);
    }
    let rank = ndim as isize;
    if axis < -rank || axis >= rank {
        return Err(OpError::InvalidValue("axis is invalid"));
    }
    if axis >= 0 {
        Ok(axis as usize)
    } else {
        Ok((rank + axis) as usize)
    }
}

/// Resolve an array of axes values in `[-ndim, ndim-1]` to zero-based
/// dimension indexes in a tensor with `ndim` dimensions.
///
/// Negative axis values count backwards from the last dimension.
pub fn resolve_axes(ndim: usize, axes: &[i32]) -> (r: Result<Vec<usize>, OpError>)
    ensures
        match r {
            Ok(rs) => {
                &&& rs@.len() == axes@.len()
                &&& forall|i: int|
                    0 <= i < axes@.len() ==> -(ndim as int) <= #[trigger] axes@[i] < ndim as int
                &&& forall|i: int|
                    0 <= i < axes@.len() ==> #[trigger] rs@[i] == spec_resolve_axis(
                        ndim as int,
                        axes@[i] as int,
                    ) && rs@[i] < ndim
            },
            Err(e) => {
                &&& exists|i: int|
                    0 <= i < axes@.len() && !(-(ndim as int) <= #[trigger] axes@[i] < ndim as int)
                &&& e matches OpError::InvalidValue(m) && m@ == "axis is invalid"@
            },
        },
{
    let mut resolved_axes: Vec<usize> = Vec::new();
    let mut i: usize = 0;
    while i < axes.len()
        invariant
            i <= axes@.len(),
            resolved_axes@.len() == i,
            forall|j: int| 0 <= j < i ==> -(ndim as int) <= #[trigger] axes@[j] < ndim as int,
            forall|j: int|
                0 <= j < i ==> #[trigger] resolved_axes@[j] == spec_resolve_axis(
                    ndim as int,
                    axes@[j] as int,
                ) && resolved_axes@[j] < ndim,
        decreases axes@.len() - i,
    {
        let a = axes[i];
        match resolve_axis(ndim, a as isize) {
            Ok(d) => {
                resolved_axes.push(d);
            },
            Err(e) => {
                return Err(e);
            },
        }
        i = i + 1;
    }
    Ok(resolved_axes)
}

} // verus!
