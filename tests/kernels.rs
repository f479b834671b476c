use onnx::convolution_op::{
    conv_geometry, conv_output_size, get_padding_size, lower_windows, rows_to_nchw, ConvolutionLayer,
    KernelError, Padding,
};
use onnx::model_inference::{broadcast_to, concat_dims, concatenate_op, reshape_dims, tensor_payload, u8_to_words, TensorData};
use onnx::onnx_structure::TensorProto;

fn image_1_to_16() -> Vec<i64> {
    (1..=16).collect()
}

/// Multiplies the im2col matrix by a single all-ones filter.
fn conv_with_ones(cols: &[i64], width: usize) -> Vec<i64> {
    cols.chunks(width).map(|row| row.iter().sum()).collect()
}

#[test]
fn conv_valid_no_dilation() {
    let layer = ConvolutionLayer::new_onnx_tensor_flow(
        vec![1i64; 9], (1, 1, 3, 3), None, Padding::Valid, (1, 1), 1, (0, 0, 0, 0), (1, 1),
    )
    .unwrap();
    let (cols, g) = layer.lower(&image_1_to_16(), 1, 1, 4, 4, 0).unwrap();
    assert_eq!((g.out_h, g.out_w), (2, 2));
    let out = rows_to_nchw(&conv_with_ones(&cols, 9), 1, 1, 2, 2);
    assert_eq!(out, vec![54, 63, 90, 99]);
}

#[test]
fn conv_same_upper() {
    let layer = ConvolutionLayer::new_onnx_tensor_flow(
        vec![1i64; 9], (1, 1, 3, 3), None, Padding::SameUpper, (1, 1), 1, (0, 0, 0, 0), (2, 2),
    )
    .unwrap();
    let (cols, g) = layer.lower(&image_1_to_16(), 1, 1, 4, 4, 0).unwrap();
    assert_eq!((g.out_h, g.out_w), (2, 2));
    assert_eq!((g.top, g.bottom, g.left, g.right), (0, 1, 0, 1));
    let out = rows_to_nchw(&conv_with_ones(&cols, 9), 1, 1, 2, 2);
    assert_eq!(out, vec![54, 45, 72, 54]);
}

#[test]
fn conv_same_lower_puts_extra_on_top() {
    let g = conv_geometry(4, 4, 3, 3, Padding::SameLower, (0, 0, 0, 0), (2, 2), (1, 1)).unwrap();
    assert_eq!((g.top, g.bottom, g.left, g.right), (1, 0, 1, 0));
    assert_eq!((g.out_h, g.out_w), (2, 2));
}

#[test]
fn conv_explicit_pads() {
    let layer = ConvolutionLayer::new_onnx_tensor_flow(
        vec![1i64; 9], (1, 1, 3, 3), None, Padding::NotSet, (1, 1), 1, (1, 1, 1, 1), (1, 1),
    )
    .unwrap();
    let (cols, g) = layer.lower(&image_1_to_16(), 1, 1, 4, 4, 0).unwrap();
    assert_eq!((g.out_h, g.out_w), (4, 4));
    let out = rows_to_nchw(&conv_with_ones(&cols, 9), 1, 1, 4, 4);
    assert_eq!(out[0], 1 + 2 + 5 + 6);
    assert_eq!(out[5], 1 + 2 + 3 + 5 + 6 + 7 + 9 + 10 + 11);
}

#[test]
fn conv_dilation_two() {
    let layer = ConvolutionLayer::new_onnx_tensor_flow(
        vec![1i64; 4], (1, 1, 2, 2), None, Padding::Valid, (2, 2), 1, (0, 0, 0, 0), (1, 1),
    )
    .unwrap();
    let (cols, g) = layer.lower(&image_1_to_16(), 1, 1, 4, 4, 0).unwrap();
    assert_eq!((g.out_h, g.out_w), (2, 2));
    assert_eq!(&cols[0..4], &[1, 3, 9, 11]);
}

#[test]
fn conv_two_channels_and_batch() {
    let image: Vec<i64> = (0..2 * 2 * 2 * 2).collect();
    let (cols, g) = lower_windows(&image, 2, 2, 2, 2, 1, 1, Padding::Valid, (0, 0, 0, 0), (1, 1), (1, 1), 0).unwrap();
    assert_eq!((g.out_h, g.out_w), (2, 2));
    // rows are (image, i, j); columns are channels
    assert_eq!(cols, vec![0, 4, 1, 5, 2, 6, 3, 7, 8, 12, 9, 13, 10, 14, 11, 15]);
}

#[test]
fn conv_channel_mismatch() {
    let layer = ConvolutionLayer::new_onnx_tensor_flow(
        vec![1i64; 18], (1, 2, 3, 3), None, Padding::Valid, (1, 1), 1, (0, 0, 0, 0), (1, 1),
    )
    .unwrap();
    assert_eq!(layer.lower(&image_1_to_16(), 1, 1, 4, 4, 0).err(), Some(KernelError::Shape));
}

#[test]
fn conv_layer_checks_weights() {
    let bad = ConvolutionLayer::new_onnx_tensor_flow(vec![1i64; 8], (1, 1, 3, 3), None, Padding::Valid, (1, 1), 1, (0, 0, 0, 0), (1, 1));
    assert!(bad.is_err());
    let grouped = ConvolutionLayer::new_onnx_tensor_flow(vec![1i64; 9], (1, 1, 3, 3), None, Padding::Valid, (1, 1), 2, (0, 0, 0, 0), (1, 1));
    assert!(grouped.is_err());
    let bias = ConvolutionLayer::new_onnx_tensor_flow(vec![1i64; 9], (1, 1, 3, 3), Some(vec![1, 2]), Padding::Valid, (1, 1), 1, (0, 0, 0, 0), (1, 1));
    assert!(bias.is_err());
}

#[test]
fn max_pool_windows_with_fill() {
    let image = image_1_to_16();
    let (cols, g) = lower_windows(&image, 1, 1, 4, 4, 3, 3, Padding::SameUpper, (0, 0, 0, 0), (2, 2), (1, 1), i64::MIN).unwrap();
    assert_eq!((g.out_h, g.out_w), (2, 2));
    let maxima: Vec<i64> = cols.chunks(9).map(|w| *w.iter().max().unwrap()).collect();
    assert_eq!(maxima, vec![11, 12, 15, 16]);
}

#[test]
fn same_output_is_ceil_of_input_over_stride() {
    for (h, s, k) in [(5usize, 2usize, 3usize), (224, 2, 3), (7, 3, 1), (1, 1, 5), (10, 4, 2)] {
        let g = conv_geometry(h, h, k, k, Padding::SameUpper, (0, 0, 0, 0), (s, s), (1, 1)).unwrap();
        assert_eq!(g.out_h, (h + s - 1) / s);
        assert_eq!(g.out_w, (h + s - 1) / s);
    }
}

#[test]
fn padding_sizes() {
    assert_eq!(get_padding_size(4, 4, 2, 2, 3, 3, Padding::SameUpper), (1, 1, 0, 1, 0, 1));
    assert_eq!(get_padding_size(4, 5, 1, 2, 3, 3, Padding::SameLower), (2, 2, 1, 1, 1, 1));
    assert_eq!(get_padding_size(5, 5, 2, 2, 3, 3, Padding::SameUpper), (2, 2, 1, 1, 1, 1));
}

#[test]
fn output_sizes() {
    assert_eq!(conv_output_size(4, 0, 3, 1, 1), Ok(2));
    assert_eq!(conv_output_size(224, 0, 7, 2, 1), Ok(109));
    assert_eq!(conv_output_size(4, 2, 3, 1, 1), Ok(4));
    assert_eq!(conv_output_size(5, 0, 3, 1, 2), Ok(1));
    assert_eq!(conv_output_size(4, 0, 3, 1, 2), Err(KernelError::Shape));
    assert_eq!(conv_output_size(2, 0, 3, 1, 1), Err(KernelError::Shape));
    assert_eq!(conv_output_size(4, 0, 3, 0, 1), Err(KernelError::Shape));
}

#[test]
fn geometry_refuses_zero_stride() {
    assert_eq!(conv_geometry(4, 4, 3, 3, Padding::Valid, (0, 0, 0, 0), (0, 1), (1, 1)), Err(KernelError::Shape));
}

#[test]
fn reshape_infers_and_copies() {
    assert_eq!(reshape_dims(&vec![1, 1000, 1, 1], &vec![1, -1]), Ok(vec![1, 1000]));
    assert_eq!(reshape_dims(&vec![2, 3, 4], &vec![0, -1]), Ok(vec![2, 12]));
    assert_eq!(reshape_dims(&vec![2, 3, 4], &vec![4, 6]), Ok(vec![4, 6]));
    assert_eq!(reshape_dims(&vec![2, 3, 4], &vec![5, -1]), Err(KernelError::Shape));
    assert_eq!(reshape_dims(&vec![2, 3, 4], &vec![-1, -1]), Err(KernelError::Shape));
    assert_eq!(reshape_dims(&vec![2, 3, 4], &vec![-2, 12]), Err(KernelError::Shape));
    assert_eq!(reshape_dims(&vec![2], &vec![0, 0]), Err(KernelError::Shape));
}

#[test]
fn concat_along_channels() {
    let a: Vec<i64> = vec![1, 2, 3, 4];
    let b: Vec<i64> = vec![5, 6];
    // [1, 2, 2] and [1, 1, 2] along axis 1
    assert_eq!(concatenate_op(&a, &b, 1, 2, 1, 2), vec![1, 2, 3, 4, 5, 6]);
    // [2, 1, 2] and [2, 1, 1] along axis 2 viewed as outer 2, inner 1
    assert_eq!(concatenate_op(&vec![1, 2, 3, 4], &vec![9, 8], 2, 2, 1, 1), vec![1, 2, 9, 3, 4, 8]);
}

#[test]
fn broadcast_channel_bias() {
    let y: Vec<i64> = vec![10, 20];
    let out = broadcast_to(&y, (1, 2, 1, 1), (1, 2, 2, 2)).unwrap();
    assert_eq!(out, vec![10, 10, 10, 10, 20, 20, 20, 20]);
    let row: Vec<i64> = vec![1, 2, 3];
    assert_eq!(broadcast_to(&row, (1, 1, 1, 3), (1, 1, 2, 3)).unwrap(), vec![1, 2, 3, 1, 2, 3]);
    assert_eq!(broadcast_to(&row, (1, 1, 1, 3), (1, 1, 2, 4)).err(), Some(KernelError::Shape));
}

#[test]
fn raw_payload_words() {
    let bytes = vec![0x00, 0x00, 0x80, 0x3f, 0x00, 0x00, 0x00, 0x40, 0x01];
    let words = u8_to_words(&bytes);
    assert_eq!(words.len(), 2);
    assert_eq!(f32::from_bits(words[0]), 1.0);
    assert_eq!(f32::from_bits(words[1]), 2.0);
}

#[test]
fn raw_payload_longs() {
    let mut bytes = (-2i64).to_le_bytes().to_vec();
    bytes.extend(1000i64.to_le_bytes());
    bytes.push(7);
    assert_eq!(onnx::model_inference::u8_to_longs(&bytes), vec![-2, 1000]);
}

#[test]
fn concat_dims_checks_off_axis() {
    assert_eq!(concat_dims(&vec![1, 2, 3, 4], &vec![1, 5, 3, 4], 1), Ok((1, 2, 5, 12)));
    assert_eq!(concat_dims(&vec![2, 3], &vec![2, 4], 1), Ok((2, 3, 4, 1)));
    assert_eq!(concat_dims(&vec![1, 2, 3, 4], &vec![1, 5, 2, 4], 1), Err(KernelError::Shape));
    assert_eq!(concat_dims(&vec![1, 2], &vec![1, 2, 3], 1), Err(KernelError::Shape));
    assert_eq!(concat_dims(&vec![1, 2], &vec![1, 2], 2), Err(KernelError::Shape));
}

#[test]
fn initializer_payloads() {
    let mut t = TensorProto { dims: vec![2], data_type: 1, float_data: Vec::new(), int64_data: Vec::new(), name: "w".to_string(), raw_data: Some(vec![0, 0, 0x80, 0x3f, 0, 0, 0, 0x40]) };
    match tensor_payload(&t) {
        Ok((dims, TensorData::Floats(bits))) => {
            assert_eq!(dims, vec![2]);
            assert_eq!(bits.iter().map(|b| f32::from_bits(*b)).collect::<Vec<f32>>(), vec![1.0, 2.0]);
        },
        other => panic!("unexpected {:?}", other),
    }
    t.dims = vec![3];
    assert_eq!(tensor_payload(&t).err(), Some(KernelError::Shape));
    // a trailing partial element is refused
    t.dims = vec![2];
    t.raw_data = Some(vec![0, 0, 0x80, 0x3f, 0, 0, 0, 0x40, 7]);
    assert_eq!(tensor_payload(&t).err(), Some(KernelError::Shape));
    t.dims = vec![-2];
    assert_eq!(tensor_payload(&t).err(), Some(KernelError::Shape));
    let s = TensorProto { dims: vec![2], data_type: 7, float_data: Vec::new(), int64_data: vec![1, -1], name: "s".to_string(), raw_data: None };
    match tensor_payload(&s) {
        Ok((dims, TensorData::Longs(v))) => {
            assert_eq!(dims, vec![2]);
            assert_eq!(v, vec![1, -1]);
        },
        other => panic!("unexpected {:?}", other),
    }
    let odd = TensorProto { dims: vec![], data_type: 3, float_data: Vec::new(), int64_data: Vec::new(), name: "o".to_string(), raw_data: None };
    assert_eq!(tensor_payload(&odd).err(), Some(KernelError::Shape));
    let empty = TensorProto { dims: vec![0, 5], data_type: 1, float_data: Vec::new(), int64_data: Vec::new(), name: "e".to_string(), raw_data: None };
    assert!(tensor_payload(&empty).is_ok());
}

#[test]
fn reshape_zero_and_hole_together() {
    assert_eq!(reshape_dims(&vec![2, 3, 4], &vec![0, 0, -1]), Ok(vec![2, 3, 4]));
    assert_eq!(reshape_dims(&vec![2, 3, 4], &vec![-1]), Ok(vec![24]));
    assert_eq!(reshape_dims(&vec![2, 3, 4], &vec![0, 4, -1]), Ok(vec![2, 4, 3]));
}
