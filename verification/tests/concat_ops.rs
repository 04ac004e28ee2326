//! Behaviour of the concat operator and of the shared operator plumbing.
use wasnn::concat::Concat;
use wasnn::dyntensor::{from_data, zeros, Tensor};
use wasnn::ops::{resolve_axes, OpError};

fn from_slice<T: Copy>(data: &[T]) -> Tensor<T> {
    from_data(vec![data.len()], data.into())
}

/// Compare two float tensors element by element.
fn expect_equal(result: &Tensor<f32>, expected: &Tensor<f32>) -> Result<(), String> {
    if result.shape() != expected.shape() {
        return Err("shapes differ".to_string());
    }
    let a = result.to_vec();
    let b = expected.to_vec();
    if a != b {
        return Err("elements differ".to_string());
    }
    Ok(())
}

#[test]
fn test_concat() -> Result<(), String> {
    let a = from_data(vec![2, 2, 1], vec![0.1, 0.2, 0.3, 0.4]);
    let b = from_data(vec![2, 2, 1], vec![1.0, 2.0, 3.0, 4.0]);

    // Concatenation along the first dimension
    let expected = from_data(vec![4, 2, 1], vec![0.1, 0.2, 0.3, 0.4, 1.0, 2.0, 3.0, 4.0]);
    let result = wasnn::concat::concat(&[&a, &b], 0).unwrap();
    expect_equal(&result, &expected)?;

    // Concatenation along a non-first dimension
    let expected = from_data(vec![2, 2, 2], vec![0.1, 1.0, 0.2, 2.0, 0.3, 3.0, 0.4, 4.0]);
    let result = wasnn::concat::concat(&[&a, &b], 2).unwrap();
    expect_equal(&result, &expected)?;

    // Concatenation with one input
    let result = wasnn::concat::concat(&[&a], 0).unwrap();
    expect_equal(&result, &a)?;

    // Concatenation with more than two inputs
    let result = wasnn::concat::concat(&[&a, &b, &a], 0).unwrap();
    assert_eq!(result.shape(), &[6, 2, 1]);

    // Concatentation with some empty inputs
    let a = from_slice(&[1, 2, 3]);
    let b = from_slice(&[]);
    let c = from_slice(&[4, 5, 6]);
    let result = wasnn::concat::concat(&[&a, &b, &c], 0).unwrap();
    assert_eq!(result.shape(), &[6]);
    assert_eq!(result.data(), Some([1, 2, 3, 4, 5, 6].as_slice()));

    Ok(())
}

#[test]
fn test_concat_invalid_inputs() {
    // Invalid `dim` attribute
    let input = from_slice(&[1, 2, 3]);
    let result = wasnn::concat::concat(&[&input, &input], 1);
    assert_eq!(
        result.err(),
        Some(OpError::InvalidValue("dim is larger than input rank"))
    );

    // Shape mismatch
    let a = zeros::<f32>(&[1]);
    let b = zeros::<f32>(&[1, 2]);
    let result = wasnn::concat::concat(&[&a, &b], 0);
    assert_eq!(
        result.err(),
        Some(OpError::IncompatibleInputShapes(
            "Tensors must have the same number of dimensions"
        ))
    );

    // Shape mismatch in non-`dim` dimension
    let a = zeros::<f32>(&[5, 10]);
    let b = zeros::<f32>(&[5, 11]);
    let result = wasnn::concat::concat(&[&a, &b], 0);
    assert_eq!(
        result.err(),
        Some(OpError::IncompatibleInputShapes(
            "Dimensions must be the same except for concat dim"
        ))
    );
}

#[test]
fn test_concat_operator_runs() {
    let op = Concat { dim: 0 };
    assert_eq!(op.name(), "Concat");
    let a = from_slice(&[1, 2]);
    let b = from_slice(&[3]);
    let out = op.run(&[&a, &b]).unwrap();
    assert_eq!(out.shape(), &[3]);
    assert_eq!(out.to_vec(), vec![1, 2, 3]);
}

#[test]
fn test_concat_round_robin_chunks() {
    // Concatenating along axis 1 interleaves one row from each input per
    // outer index.
    let a = from_data(vec![2, 2], vec![1, 2, 3, 4]);
    let b = from_data(vec![2, 1], vec![9, 8]);
    let out = wasnn::concat::concat(&[&a, &b], 1).unwrap();
    assert_eq!(out.shape(), &[2, 3]);
    assert_eq!(out.to_vec(), vec![1, 2, 9, 3, 4, 8]);
}

#[test]
fn test_resolve_axes_values() {
    // Negative axes count backwards from the last dimension.
    let resolved = resolve_axes(3, &[0, -1, -3, 2]).unwrap();
    assert_eq!(resolved, vec![0, 2, 0, 2]);

    // An axis outside `[-ndim, ndim-1]` is rejected.
    let err = resolve_axes(3, &[0, 3]);
    assert_eq!(err.err(), Some(OpError::InvalidValue("axis is invalid")));
    let err = resolve_axes(3, &[-4]);
    assert_eq!(err.err(), Some(OpError::InvalidValue("axis is invalid")));
}

#[test]
fn test_op_error_messages() {
    assert_eq!(
        OpError::IncorrectInputType.message(),
        "incorrect or unsupported input type"
    );
    assert_eq!(OpError::MissingInputs.message(), "required inputs were missing");
    assert_eq!(OpError::InvalidValue("axis is invalid").message(), "axis is invalid");
    assert_eq!(
        OpError::UnsupportedValue("mode").message(),
        "mode"
    );
    assert_eq!(
        OpError::IncompatibleInputShapes("ranks differ").message(),
        "ranks differ"
    );
}

#[test]
fn test_concat_operator_missing_inputs() {
    // The operator form reports an empty input list as a missing input,
    // rather than failing some other way.
    let op = Concat { dim: 0 };
    let none: [&Tensor<i32>; 0] = [];
    let r = op.run(&none);
    assert_eq!(r.err(), Some(OpError::MissingInputs));
}
