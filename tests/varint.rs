use wz::{long_to_bytes, min_byte_size, slice_to_long};

#[test]
fn test_slice_to_long() {
    let data = vec![1, 1];
    let value = slice_to_long(&data);
    assert_eq!(257, value)
}

#[test]
fn test_long_to_slice() {
    assert_eq!(vec![1, 1], long_to_bytes(257, 2));
    assert_eq!(vec![0], long_to_bytes(0, 1));
}

#[test]
fn test_min_byte_size() {
    assert_eq!(8, min_byte_size(18446744073709551615));
    assert_eq!(1, min_byte_size(1));
    assert_eq!(1, min_byte_size(0));
}

#[test]
fn min_width_boundaries() {
    assert_eq!(1, min_byte_size(0));
    assert_eq!(1, min_byte_size(255));
    assert_eq!(2, min_byte_size(256));
    assert_eq!(2, min_byte_size(65535));
    assert_eq!(3, min_byte_size(65536));
    assert_eq!(8, min_byte_size(u64::MAX));
}

#[test]
fn pack_is_little_endian_and_padded() {
    assert_eq!(vec![0x34, 0x12, 0, 0], long_to_bytes(0x1234, 4));
    assert_eq!(vec![0xff; 8], long_to_bytes(u64::MAX, 8));
}

#[test]
fn unpack_treats_missing_bytes_as_zero() {
    assert_eq!(0, slice_to_long(&[]));
    assert_eq!(0x0102_0304, slice_to_long(&[4, 3, 2, 1]));
    assert_eq!(u64::MAX, slice_to_long(&[0xff; 8]));
}
