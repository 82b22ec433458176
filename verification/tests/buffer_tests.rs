use mmkv::buffer::Buffer;
use mmkv::types::Types;
use mmkv::Error::{DataInvalid, KeyNotFound, TypeMissMatch};

#[test]
fn test_buffer() {
    let buffer = Buffer::new("first_key", "first_value".to_string());
    let bytes = buffer.to_bytes();
    let copy = Buffer::from_encoded_bytes(bytes.as_slice()).unwrap();
    assert_eq!(copy, buffer);
    assert_eq!(copy.parse(), Ok("first_value".to_string()));
    assert_eq!(copy.parse::<i32>(), Err(TypeMissMatch));
    assert_eq!(copy.parse::<bool>(), Err(TypeMissMatch));

    let buffer = Buffer::new("first_key", i32::MAX);
    let copy = Buffer::from_encoded_bytes(buffer.to_bytes().as_slice()).unwrap();
    assert_eq!(copy, buffer);
    assert_eq!(copy.parse::<String>(), Err(TypeMissMatch));
    assert_eq!(copy.parse(), Ok(i32::MAX));
    assert_eq!(copy.parse::<bool>(), Err(TypeMissMatch));

    let buffer = Buffer::new("first_key", true);
    let copy = Buffer::from_encoded_bytes(buffer.to_bytes().as_slice()).unwrap();
    assert_eq!(copy, buffer);
    assert_eq!(copy.parse::<String>(), Err(TypeMissMatch));
    assert_eq!(copy.parse::<i32>(), Err(TypeMissMatch));
    assert_eq!(copy.parse(), Ok(true));

    let buffer = Buffer::new("first_key", i64::MAX);
    let copy = Buffer::from_encoded_bytes(buffer.to_bytes().as_slice()).unwrap();
    assert_eq!(copy, buffer);
    assert_eq!(copy.parse(), Ok(i64::MAX));
    assert_eq!(copy.parse::<i32>(), Err(TypeMissMatch));

    // the floating-point kinds are serialised by the caller
    let buffer = Buffer::from_raw("first_key", Types::F32.value(), f32::MAX.to_be_bytes().to_vec());
    let copy = Buffer::from_encoded_bytes(buffer.to_bytes().as_slice()).unwrap();
    assert_eq!(copy, buffer);
    let raw = copy.raw_value(Types::F32.value()).unwrap();
    assert_eq!(f32::from_be_bytes([raw[0], raw[1], raw[2], raw[3]]), f32::MAX);
    assert_eq!(copy.parse::<i32>(), Err(TypeMissMatch));

    let buffer = Buffer::from_raw("first_key", Types::F64.value(), f64::MAX.to_be_bytes().to_vec());
    let copy = Buffer::from_encoded_bytes(buffer.to_bytes().as_slice()).unwrap();
    assert_eq!(copy, buffer);
    let raw = copy.raw_value(Types::F64.value()).unwrap();
    assert_eq!(
        f64::from_be_bytes([raw[0], raw[1], raw[2], raw[3], raw[4], raw[5], raw[6], raw[7]]),
        f64::MAX
    );
    assert_eq!(copy.raw_value(Types::F32.value()), Err(TypeMissMatch));

    let byte_array = vec![u8::MIN, 2, u8::MAX];
    let buffer = Buffer::new("byte_array", byte_array.clone());
    let copy = Buffer::from_encoded_bytes(buffer.to_bytes().as_slice()).unwrap();
    assert_eq!(copy, buffer);
    assert_eq!(copy.parse(), Ok(byte_array));
    assert_eq!(copy.parse::<Vec<i32>>(), Err(TypeMissMatch));

    let i32_array = vec![i32::MIN, 2, i32::MAX];
    let buffer = Buffer::new("i32_array", i32_array.clone());
    let copy = Buffer::from_encoded_bytes(buffer.to_bytes().as_slice()).unwrap();
    assert_eq!(copy, buffer);
    assert_eq!(copy.parse(), Ok(i32_array));
    assert_eq!(copy.parse::<Vec<i64>>(), Err(TypeMissMatch));

    let i64_array = vec![i64::MIN, 2, i64::MAX];
    let buffer = Buffer::new("i64_array", i64_array.clone());
    let copy = Buffer::from_encoded_bytes(buffer.to_bytes().as_slice()).unwrap();
    assert_eq!(copy, buffer);
    assert_eq!(copy.parse(), Ok(i64_array));
    assert_eq!(copy.parse::<Vec<i32>>(), Err(TypeMissMatch));
}

#[test]
fn buffer_payload_is_self_describing() {
    // key "key1" with an i32 value: 6 bytes of key field, the zero type tag
    // omitted, 6 bytes of value field
    let buffer = Buffer::new("key1", 1i32);
    let payload = buffer.to_bytes();
    assert_eq!(payload.len(), 12);
    assert_eq!(payload[0], 0x0a);
    assert_eq!(payload[1], 4);
    assert_eq!(&payload[2..6], b"key1");
    assert_eq!(payload[6], 0x1a);
    assert_eq!(payload[7], 4);
    assert_eq!(&payload[8..12], &[0, 0, 0, 1]);
}

#[test]
fn buffer_tombstone_reads_as_missing() {
    let tomb = Buffer::deleted_buffer("key1");
    assert!(tomb.is_deleting());
    assert_eq!(tomb.parse::<i32>(), Err(KeyNotFound));
    assert_eq!(tomb.raw_value(Types::I32.value()), Err(KeyNotFound));
    let copy = Buffer::from_encoded_bytes(tomb.to_bytes().as_slice()).unwrap();
    assert_eq!(copy, tomb);
    assert!(copy.is_deleting());
}

#[test]
fn buffer_rejects_short_values() {
    let short = Buffer::from_raw("key1", Types::I32.value(), vec![1, 2]);
    assert_eq!(short.parse::<i32>(), Err(DataInvalid));
    let odd = Buffer::from_raw("key1", Types::I32Array.value(), vec![1, 2, 3, 4, 5]);
    assert_eq!(odd.parse::<Vec<i32>>(), Err(DataInvalid));
    let bad_utf8 = Buffer::from_raw("key1", Types::Str.value(), vec![0xff, 0xfe]);
    assert_eq!(bad_utf8.parse::<String>(), Err(DataInvalid));
}

#[test]
fn buffer_rejects_garbage_payloads() {
    assert!(matches!(
        Buffer::from_encoded_bytes(&[0xff, 0x01, 0x02]),
        Err(mmkv::Error::DecodeFailed(_))
    ));
    assert!(matches!(
        Buffer::from_encoded_bytes(&[0x0a, 0x10, 0x61]),
        Err(mmkv::Error::DecodeFailed(_))
    ));
}
