use mmkv::buffer::Buffer;
use mmkv::codec::CrcEncoderDecoder;
use mmkv::crc::crc8_checksum;
use mmkv::encrypt::Encryptor;
use mmkv::hexutil::decode_hex;

const TEST_KEY: &str = "88C51C536176AD8A8EE4A06F62EE897E";

#[test]
fn test_crc_buffer() {
    let buffer = Buffer::new("key", 1i32);
    let bytes = CrcEncoderDecoder.encode_to_bytes(&buffer, 0).unwrap();
    let decode_result = CrcEncoderDecoder.decode_bytes(bytes.as_slice(), 0).unwrap();
    assert_eq!(decode_result.len, bytes.len() as u32);
    assert_eq!(decode_result.buffer, Some(buffer));
}

#[test]
fn crc_checksum_matches_reference_value() {
    // the catalogue check value for this parameter set
    assert_eq!(crc8_checksum(b"123456789"), 0xdf);
}

#[test]
fn crc_frame_layout() {
    // 4-byte length prefix, 12-byte payload, checksum byte
    let buffer = Buffer::new("key1", 1i32);
    let bytes = CrcEncoderDecoder.encode_to_bytes(&buffer, 0).unwrap();
    assert_eq!(bytes.len(), 17);
    assert_eq!(&bytes[0..4], &[0, 0, 0, 13]);
}

#[test]
fn crc_rejects_flipped_bytes() {
    let buffer = Buffer::new("key", 1i32);
    let bytes = CrcEncoderDecoder.encode_to_bytes(&buffer, 0).unwrap();
    // flip each byte of payload and checksum in turn: the frame is skipped
    for i in 4..bytes.len() {
        let mut corrupt = bytes.clone();
        corrupt[i] ^= 0x40;
        let decoded = CrcEncoderDecoder.decode_bytes(corrupt.as_slice(), 0).unwrap();
        assert_eq!(decoded.len, bytes.len() as u32);
        assert_eq!(decoded.buffer, None);
    }
}

#[test]
fn test_crypt_buffer() {
    let key = decode_hex(TEST_KEY).unwrap();
    let encryptor = Encryptor::new(key.clone()).unwrap();
    let buffer1 = Buffer::new("key1", 1i32);
    let bytes1 = encryptor.encode_to_bytes(&buffer1, 0).unwrap();
    let decode_result1 = encryptor.decode_bytes(bytes1.as_slice(), 0).unwrap();
    assert_eq!(decode_result1.len, bytes1.len() as u32);
    assert_eq!(decode_result1.buffer, Some(buffer1.clone()));
    let buffer2 = Buffer::new("key2", 2i32);
    let bytes2 = encryptor.encode_to_bytes(&buffer2, 1).unwrap();
    let decode_result2 = encryptor.decode_bytes(bytes2.as_slice(), 1).unwrap();
    assert_eq!(decode_result2.len, bytes2.len() as u32);
    assert_eq!(decode_result2.buffer, Some(buffer2));
    // a frame decrypted at the wrong position fails authentication
    assert!(encryptor.decode_bytes(bytes1.as_slice(), 1).unwrap().buffer.is_none());
    // the same key and nonce rebuild the same keystream
    let nonce = encryptor.nonce().clone();
    let reopened = Encryptor::new_with_nonce(key.clone(), nonce);
    let new_decode_result1 = reopened.decode_bytes(bytes1.as_slice(), 0).unwrap();
    assert_eq!(new_decode_result1.buffer, Some(buffer1));
    // a fresh nonce drops the old ciphertext
    let fresh = Encryptor::new(key).unwrap();
    if fresh.nonce() != reopened.nonce() {
        assert!(fresh.decode_bytes(bytes1.as_slice(), 0).unwrap().buffer.is_none());
    }
}

#[test]
fn encrypted_frame_is_payload_plus_tag() {
    let key = decode_hex(TEST_KEY).unwrap();
    let encryptor = Encryptor::new(key).unwrap();
    let buffer = Buffer::new("key1", 1i32);
    // 4-byte prefix + 12-byte payload + 8-byte tag
    let bytes = encryptor.encode_to_bytes(&buffer, 0).unwrap();
    assert_eq!(bytes.len(), 24);
}
