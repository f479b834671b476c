use onnx::wire::{concat_bytes, encode_varint, get_wire_type, read_u32_le, read_u64_le, DecodeError, WireType};

#[test]
fn varint_round_trip() {
    let values: [u64; 7] = [0, 1, 127, 128, 16383, 16384, 4294967295];
    let lengths: [usize; 7] = [1, 1, 1, 2, 2, 3, 5];
    for (v, n) in values.iter().zip(lengths.iter()) {
        let bytes = encode_varint(*v);
        assert_eq!(bytes.len(), *n);
        assert_eq!(concat_bytes(&bytes, 0), Ok((*v, *n)));
    }
}

#[test]
fn varint_known_encodings() {
    assert_eq!(encode_varint(150), vec![0x96, 0x01]);
    assert_eq!(encode_varint(300), vec![0xac, 0x02]);
    assert_eq!(encode_varint(u64::MAX).len(), 10);
    assert_eq!(concat_bytes(&encode_varint(u64::MAX), 0), Ok((u64::MAX, 10)));
}

#[test]
fn varint_in_the_middle_of_a_buffer() {
    let bytes = vec![0x08, 0x96, 0x01, 0x10];
    assert_eq!(concat_bytes(&bytes, 1), Ok((150, 3)));
    assert_eq!(concat_bytes(&bytes, 0), Ok((8, 1)));
}

#[test]
fn varint_truncated_is_malformed() {
    assert_eq!(concat_bytes(&vec![0x80], 0), Err(DecodeError::Malformed));
    assert_eq!(concat_bytes(&vec![], 0), Err(DecodeError::Malformed));
    assert_eq!(concat_bytes(&vec![0x01], 1), Err(DecodeError::Malformed));
}

#[test]
fn varint_overlong_is_malformed() {
    assert_eq!(concat_bytes(&vec![0x80, 0x00], 0), Err(DecodeError::Malformed));
    assert_eq!(concat_bytes(&vec![0x81, 0x80, 0x00], 0), Err(DecodeError::Malformed));
}

#[test]
fn varint_beyond_64_bits_is_malformed() {
    let bytes = vec![0xff, 0xff, 0xff, 0xff, 0xff, 0xff, 0xff, 0xff, 0xff, 0x02];
    assert_eq!(concat_bytes(&bytes, 0), Err(DecodeError::Malformed));
}

#[test]
fn wire_types() {
    assert_eq!(get_wire_type(0), Some(WireType::Varint));
    assert_eq!(get_wire_type(1), Some(WireType::I64));
    assert_eq!(get_wire_type(2), Some(WireType::Len));
    assert_eq!(get_wire_type(3), Some(WireType::SGroup));
    assert_eq!(get_wire_type(4), Some(WireType::EGroup));
    assert_eq!(get_wire_type(5), Some(WireType::I32));
    assert_eq!(get_wire_type(6), None);
    assert_eq!(get_wire_type(7), None);
}

#[test]
fn little_endian_words() {
    let bytes = vec![0x00, 0x00, 0x80, 0x3f, 0x01, 0x02, 0x03, 0x04];
    assert_eq!(read_u32_le(&bytes, 0), 0x3f80_0000);
    assert_eq!(f32::from_bits(read_u32_le(&bytes, 0)), 1.0f32);
    assert_eq!(read_u32_le(&bytes, 4), 0x0403_0201);
    assert_eq!(read_u64_le(&bytes, 0), 0x0403_0201_3f80_0000);
}
