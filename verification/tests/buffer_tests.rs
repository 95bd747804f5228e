use lau_cudaclaw_bridge::layout::transpose;
use lau_cudaclaw_bridge::{BridgeError, TensorBridge, UnifiedBuffer};

#[test]
fn test_unified_buffer_new() {
    let buf = UnifiedBuffer::new(vec![1.0, 2.0, 3.0, 4.0], vec![2, 2]).unwrap();
    assert_eq!(buf.shape(), &[2, 2]);
    assert_eq!(buf.data(), &[1.0, 2.0, 3.0, 4.0]);
}

#[test]
fn test_unified_buffer_shape_mismatch() {
    let res = UnifiedBuffer::new(vec![1.0, 2.0], vec![2, 2]);
    assert!(matches!(res, Err(BridgeError::ShapeMismatch { .. })));
}

#[test]
fn test_unified_buffer_shape_mismatch_contents() {
    match UnifiedBuffer::new(vec![1.0, 2.0], vec![2, 2]) {
        Err(BridgeError::ShapeMismatch { expected, got }) => {
            assert_eq!(expected, vec![4]);
            assert_eq!(got, vec![2]);
        }
        _ => panic!("expected a shape mismatch"),
    }
}

#[test]
fn test_unified_buffer_empty_shape_holds_one() {
    let buf = UnifiedBuffer::new(vec![7u8], vec![]).unwrap();
    assert_eq!(buf.len(), 1);
    assert!(UnifiedBuffer::new(vec![0u8; 0], vec![3, 0, 5]).is_ok());
}

#[test]
fn test_unified_buffer_from_flat() {
    let buf = UnifiedBuffer::from_flat(vec![5.0, 6.0]);
    assert_eq!(buf.shape(), &[2]);
    assert_eq!(buf.len(), 2);
}

#[test]
fn test_unified_buffer_from_flat_equals_new_flat() {
    let a = UnifiedBuffer::from_flat(vec![1, 2, 3]);
    let b = UnifiedBuffer::new(vec![1, 2, 3], vec![3]).unwrap();
    assert_eq!(a.data(), b.data());
    assert_eq!(a.shape(), b.shape());
}

#[test]
fn test_unified_buffer_reshape() {
    let buf = UnifiedBuffer::from_flat(vec![1.0, 2.0, 3.0, 4.0, 5.0, 6.0]);
    let reshaped = buf.reshape(vec![2, 3]).unwrap();
    assert_eq!(reshaped.shape(), &[2, 3]);
}

#[test]
fn test_unified_buffer_reshape_roundtrip() {
    let buf = UnifiedBuffer::new(vec![1, 2, 3, 4, 5, 6], vec![3, 2]).unwrap();
    let back = buf.reshape(vec![6]).unwrap().reshape(vec![3, 2]).unwrap();
    assert_eq!(back.shape(), &[3, 2]);
    assert_eq!(back.data(), &[1, 2, 3, 4, 5, 6]);
}

#[test]
fn test_unified_buffer_reshape_fail() {
    let buf = UnifiedBuffer::from_flat(vec![1.0, 2.0, 3.0]);
    let res = buf.reshape(vec![2, 2]);
    assert!(res.is_err());
}

#[test]
fn test_unified_buffer_reshape_fail_reports_shapes() {
    let buf = UnifiedBuffer::from_flat(vec![1.0, 2.0, 3.0]);
    match buf.reshape(vec![2, 2]) {
        Err(BridgeError::ShapeMismatch { expected, got }) => {
            assert_eq!(expected, vec![2, 2]);
            assert_eq!(got, vec![3]);
        }
        _ => panic!("expected a shape mismatch"),
    }
}

#[test]
fn test_unified_buffer_is_empty() {
    let buf: UnifiedBuffer<f64> = UnifiedBuffer::from_flat(vec![]);
    assert!(buf.is_empty());
}

#[test]
fn test_unified_buffer_data_mut() {
    let mut buf = UnifiedBuffer::from_flat(vec![1.0, 2.0]);
    buf.data_mut()[0] = 99.0;
    assert_eq!(buf.data()[0], 99.0);
}

#[test]
fn test_tensor_to_unified() {
    let buf = TensorBridge::to_unified(vec![1.0, 2.0, 3.0], vec![3]).unwrap();
    assert_eq!(buf.shape(), &[3]);
}

#[test]
fn test_tensor_from_unified() {
    let buf = UnifiedBuffer::new(vec![1.0, 2.0], vec![2]).unwrap();
    let (data, shape) = TensorBridge::from_unified(&buf);
    assert_eq!(data, vec![1.0, 2.0]);
    assert_eq!(shape, vec![2]);
}

#[test]
fn test_matrix_to_unified() {
    let m = nalgebra::DMatrix::from_row_slice(2, 3, &[
        1.0, 2.0, 3.0,
        4.0, 5.0, 6.0,
    ]);
    let buf = TensorBridge::column_major_to_unified(m.nrows(), m.ncols(), m.as_slice());
    assert_eq!(buf.shape(), &[2, 3]);
    // row-major: 1,2,3,4,5,6
    assert_eq!(buf.data(), &[1.0, 2.0, 3.0, 4.0, 5.0, 6.0]);
}

#[test]
fn test_unified_to_matrix() {
    let buf = UnifiedBuffer::new(vec![1.0, 2.0, 3.0, 4.0, 5.0, 6.0], vec![2, 3]).unwrap();
    let (nrows, ncols, col_major) = TensorBridge::unified_to_column_major(&buf).unwrap();
    let m = nalgebra::DMatrix::from_vec(nrows, ncols, col_major);
    assert_eq!(m[(0, 0)], 1.0);
    assert_eq!(m[(0, 2)], 3.0);
    assert_eq!(m[(1, 0)], 4.0);
    assert_eq!(m[(1, 2)], 6.0);
}

#[test]
fn test_roundtrip_matrix_unified() {
    let m = nalgebra::DMatrix::from_row_slice(3, 2, &[
        1.0, 2.0,
        3.0, 4.0,
        5.0, 6.0,
    ]);
    let buf = TensorBridge::column_major_to_unified(m.nrows(), m.ncols(), m.as_slice());
    let (nrows, ncols, col_major) = TensorBridge::unified_to_column_major(&buf).unwrap();
    let m2 = nalgebra::DMatrix::from_vec(nrows, ncols, col_major);
    assert_eq!(m, m2);
}

#[test]
fn test_unified_to_matrix_wrong_dims() {
    let buf = UnifiedBuffer::from_flat(vec![1.0, 2.0, 3.0]);
    let res = TensorBridge::unified_to_column_major(&buf);
    assert!(res.is_err());
}

#[test]
fn test_unified_to_matrix_wrong_dims_message() {
    let buf = UnifiedBuffer::new(vec![1.0; 8], vec![2, 2, 2]).unwrap();
    match TensorBridge::unified_to_column_major(&buf) {
        Err(BridgeError::Other(msg)) => assert_eq!(msg, "expected 2-D buffer"),
        _ => panic!("expected an error"),
    }
}

#[test]
fn test_transpose() {
    let input = vec![1.0, 2.0, 3.0, 4.0, 5.0, 6.0];
    let out = transpose(&input, 2, 3).unwrap();
    assert_eq!(out, vec![1.0, 4.0, 2.0, 5.0, 3.0, 6.0]);
}

#[test]
fn test_transpose_twice_gives_back_input() {
    let input: Vec<u32> = (0..12).collect();
    let once = transpose(&input, 3, 4).unwrap();
    let twice = transpose(&once, 4, 3).unwrap();
    assert_eq!(twice, input);
}

#[test]
fn test_transpose_length_mismatch() {
    match transpose(&[1, 2, 3], 2, 2) {
        Err(BridgeError::ShapeMismatch { expected, got }) => {
            assert_eq!(expected, vec![2, 2]);
            assert_eq!(got, vec![3]);
        }
        _ => panic!("expected a shape mismatch"),
    }
}
