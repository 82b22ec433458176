use mmkv::be::{push_u32_be, push_u64_be, read_u32_be, read_u64_be};
use mmkv::hexutil::decode_hex;
use mmkv::log::{get_log_level, log, set_log_level, LogLevel, LogState};
use mmkv::types::{Types, TypeToken};
use mmkv::varint::{push_varint, read_varint};

#[test]
fn varint_round_trips() {
    for x in [0u64, 1, 127, 128, 300, 16383, 16384, u32::MAX as u64, u64::MAX] {
        let mut out: Vec<u8> = Vec::new();
        push_varint(&mut out, x);
        let (v, end) = read_varint(out.as_slice(), 0).unwrap();
        assert_eq!(v, x);
        assert_eq!(end, out.len());
    }
    // an unterminated varint is rejected
    assert!(read_varint(&[0x80, 0x80], 0).is_none());
}

#[test]
fn big_endian_round_trips() {
    let mut out: Vec<u8> = Vec::new();
    push_u32_be(&mut out, 0x01020304);
    assert_eq!(out, vec![1, 2, 3, 4]);
    assert_eq!(read_u32_be(out.as_slice(), 0), 0x01020304);
    let mut out: Vec<u8> = Vec::new();
    push_u64_be(&mut out, 0x0102030405060708);
    assert_eq!(out, vec![1, 2, 3, 4, 5, 6, 7, 8]);
    assert_eq!(read_u64_be(out.as_slice(), 0), 0x0102030405060708);
}

#[test]
fn hex_decoding() {
    assert_eq!(
        decode_hex("88C51C536176AD8A8EE4A06F62EE897E").unwrap(),
        vec![
            0x88, 0xc5, 0x1c, 0x53, 0x61, 0x76, 0xad, 0x8a, 0x8e, 0xe4, 0xa0, 0x6f, 0x62, 0xee,
            0x89, 0x7e
        ]
    );
    assert_eq!(decode_hex("0aF9").unwrap(), vec![0x0a, 0xf9]);
    assert!(decode_hex("0aF").is_none());
    assert!(decode_hex("zz").is_none());
}

#[test]
fn type_tokens() {
    assert_eq!(Types::I32.value(), 0);
    assert_eq!(Types::Str.value(), 1);
    assert_eq!(Types::Byte.value(), 2);
    assert_eq!(Types::I64.value(), 3);
    assert_eq!(Types::F32.value(), 4);
    assert_eq!(Types::F64.value(), 5);
    assert_eq!(Types::ByteArray.value(), 6);
    assert_eq!(Types::I32Array.value(), 7);
    assert_eq!(Types::I64Array.value(), 8);
    assert_eq!(Types::F32Array.value(), 9);
    assert_eq!(Types::F64Array.value(), 10);
    assert_eq!(Types::Deleted.value(), 100);
    assert!(Types::reserved(0));
    assert!(Types::reserved(100));
    assert!(!Types::reserved(101));
    assert!(!Types::reserved(-1));
    assert_eq!(TypeToken::new(101).token(), 101);
    assert_eq!(TypeToken::new(-7).token(), -7);
}

#[test]
fn log_filtering_and_format() {
    let mut state = LogState::new();
    assert_eq!(get_log_level(&state), 5);
    let line = log(&state, LogLevel::Info, "MMKV:Core", "ready".to_string());
    assert_eq!(line, Some("[MMKV:Core] ready".to_string()));
    set_log_level(&mut state, LogLevel::Error);
    assert_eq!(get_log_level(&state), 1);
    assert_eq!(log(&state, LogLevel::Info, "MMKV:Core", "dropped".to_string()), None);
    assert!(log(&state, LogLevel::Error, "MMKV:Core", "kept".to_string()).is_some());
    assert_eq!(log(&state, LogLevel::Off, "MMKV:Core", "never".to_string()), None);
}
