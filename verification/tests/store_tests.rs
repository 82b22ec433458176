use mmkv::buffer::Buffer;
use mmkv::hexutil::decode_hex;
use mmkv::mmkv_impl::MmkvImpl;
use mmkv::Error::{InstanceClosed, KeyNotFound};

const TEST_KEY: &str = "88C51C536176AD8A8EE4A06F62EE897E";

fn reopen(mmkv: MmkvImpl) -> MmkvImpl {
    let bytes = mmkv.file_bytes();
    drop(mmkv);
    MmkvImpl::new(bytes, 100)
}

fn reopen_encrypted(mmkv: MmkvImpl) -> MmkvImpl {
    let bytes = mmkv.file_bytes();
    let nonce = mmkv.nonce().unwrap().clone();
    drop(mmkv);
    MmkvImpl::new_with_encryption(bytes, 100, decode_hex(TEST_KEY).unwrap(), Some(nonce)).unwrap()
}

#[test]
fn test_trim_and_expand_default() {
    let mut mmkv = MmkvImpl::new(Vec::new(), 100);
    assert_eq!(mmkv.position(), 0);
    mmkv.put("key1", Buffer::new("key1", 1)).unwrap(); // + 17
    assert_eq!(mmkv.write_offset(), 25);
    assert_eq!(mmkv.position(), 1);

    mmkv = reopen(mmkv);
    assert_eq!(mmkv.write_offset(), 25);
    mmkv.put("key2", Buffer::new("key2", 2)).unwrap(); // + 17
    mmkv.put("key3", Buffer::new("key3", 3)).unwrap(); // + 17
    mmkv.put("key1", Buffer::new("key1", 4)).unwrap(); // + 17
    mmkv.put("key2", Buffer::new("key2", 5)).unwrap(); // + 17
    assert_eq!(mmkv.write_offset(), 93);
    assert_eq!(mmkv.position(), 5);

    mmkv = reopen(mmkv);
    mmkv.put("key1", Buffer::new("key1", 6)).unwrap(); // + 17, trim, 3 items remain
    assert_eq!(mmkv.write_offset(), 59);
    assert_eq!(mmkv.position(), 3);

    mmkv = reopen(mmkv);
    assert_eq!(mmkv.get("key1").unwrap().parse::<i32>(), Ok(6));
    assert_eq!(mmkv.get("key2").unwrap().parse::<i32>(), Ok(5));
    mmkv.put("key4", Buffer::new("key4", 4)).unwrap();
    mmkv.put("key5", Buffer::new("key5", 5)).unwrap(); // 93
    mmkv.put("key6", Buffer::new("key6", 6)).unwrap(); // expand, 110
    assert_eq!(mmkv.write_offset(), 110);
    assert_eq!(mmkv.file_size(), 200);

    mmkv = reopen(mmkv);
    mmkv.put("key7", Buffer::new("key7", 7)).unwrap();
    assert_eq!(mmkv.write_offset(), 127);

    mmkv = reopen(mmkv);
    mmkv.clear_data();
    assert_eq!(mmkv.get("key7"), Err(KeyNotFound));
    assert!(matches!(
        mmkv.put("key8", Buffer::new("key8", 8)),
        Err(InstanceClosed)
    ));
}

#[test]
fn test_trim_and_expand_encrypt() {
    let key = decode_hex(TEST_KEY).unwrap();
    let mut mmkv = MmkvImpl::new_with_encryption(Vec::new(), 100, key, None).unwrap();
    mmkv.put("key1", Buffer::new("key1", 1)).unwrap(); // + 24
    assert_eq!(mmkv.write_offset(), 32);

    mmkv = reopen_encrypted(mmkv);
    mmkv.put("key2", Buffer::new("key2", 2)).unwrap(); // + 24
    mmkv.put("key3", Buffer::new("key3", 3)).unwrap(); // + 24
    assert_eq!(mmkv.write_offset(), 80);

    mmkv = reopen_encrypted(mmkv);
    mmkv.put("key1", Buffer::new("key1", 4)).unwrap(); // + 24 trim
    mmkv.put("key2", Buffer::new("key2", 5)).unwrap(); // + 24 trim
    assert_eq!(mmkv.write_offset(), 80);

    mmkv = reopen_encrypted(mmkv);
    assert_eq!(mmkv.get("key1").unwrap().parse::<i32>(), Ok(4));
    assert_eq!(mmkv.get("key2").unwrap().parse::<i32>(), Ok(5));
    mmkv.put("key4", Buffer::new("key4", 4)).unwrap(); // + 24
    assert_eq!(mmkv.write_offset(), 104);
    assert_eq!(mmkv.file_size(), 200);

    mmkv = reopen_encrypted(mmkv);
    mmkv.put("key5", Buffer::new("key5", 5)).unwrap(); // + 24
    assert_eq!(mmkv.write_offset(), 128);

    mmkv = reopen_encrypted(mmkv);
    mmkv.clear_data();
    assert_eq!(mmkv.get("key1"), Err(KeyNotFound));
}

#[test]
fn store_survives_interleaved_puts_and_deletes() {
    // two writers' worth of distinct keys, interleaved with puts and deletes
    // of one shared key that ends deleted
    let mut mmkv = MmkvImpl::new(Vec::new(), 4096);
    let repeat_key = "store_interleaved_repeat_key";
    let rounds = 200;
    for i in 0..rounds {
        for t in 0..2 {
            let key = format!("thread_{t}_key_{i}");
            mmkv.put(&key, Buffer::new(&key, i)).unwrap();
        }
        if i % 2 == 0 {
            mmkv.put(repeat_key, Buffer::new(repeat_key, i)).unwrap();
        } else {
            mmkv.delete(repeat_key).unwrap();
        }
    }
    let bytes = mmkv.file_bytes();
    drop(mmkv);
    let mmkv = MmkvImpl::new(bytes, 4096);
    for t in 0..2 {
        for i in 0..rounds {
            let key = format!("thread_{t}_key_{i}");
            assert_eq!(mmkv.get(&key).unwrap().parse::<i32>().unwrap(), i);
        }
    }
    assert_eq!(mmkv.get(repeat_key).map(|b| b.clone()), Err(KeyNotFound));
}

#[test]
fn integration_test() {
    let mut bytes: Vec<u8> = Vec::new();
    for i in 0..10 {
        let mut mmkv = MmkvImpl::new(bytes, 4096);
        let result = mmkv.get("integration_test").map(|b| b.parse::<String>().unwrap());
        if i == 0 {
            assert_eq!(result, Err(KeyNotFound));
        } else {
            assert_eq!(result, Ok((i - 1).to_string()));
        }
        mmkv.put(
            "integration_test",
            Buffer::new("integration_test", i.to_string()),
        )
        .unwrap();
        bytes = mmkv.file_bytes();
    }
    let mut mmkv = MmkvImpl::new(bytes, 4096);
    mmkv.clear_data();
    assert_eq!(mmkv.get("integration_test"), Err(KeyNotFound));
}

#[test]
fn store_delete_then_redelete() {
    let mut mmkv = MmkvImpl::new(Vec::new(), 4096);
    mmkv.put("key1", Buffer::new("key1", 1)).unwrap();
    assert_eq!(mmkv.get("key1").unwrap().parse::<i32>(), Ok(1));
    mmkv.delete("key1").unwrap();
    assert_eq!(mmkv.get("key1"), Err(KeyNotFound));
    // deleting an absent key is still fine
    mmkv.delete("key1").unwrap();
    assert_eq!(mmkv.get("key1"), Err(KeyNotFound));
    // the tombstone survives a reopen
    let mmkv = reopen(mmkv);
    assert_eq!(mmkv.get("key1"), Err(KeyNotFound));
}

#[test]
fn store_replay_skips_a_corrupt_frame() {
    let mut mmkv = MmkvImpl::new(Vec::new(), 4096);
    mmkv.put("key1", Buffer::new("key1", 1)).unwrap();
    mmkv.put("key2", Buffer::new("key2", 2)).unwrap();
    let bytes = mmkv.file_bytes();
    drop(mmkv);
    // flip each byte of the first frame's payload and checksum in turn: that
    // frame is skipped on replay and the second record is still recovered
    for i in 12..25 {
        let mut corrupt = bytes.clone();
        corrupt[i] ^= 0x01;
        let reopened = MmkvImpl::new(corrupt, 4096);
        assert_eq!(reopened.get("key1"), Err(KeyNotFound));
        assert_eq!(reopened.get("key2").unwrap().parse::<i32>(), Ok(2));
    }
}

#[test]
fn store_encrypted_meta_loss_drops_data() {
    let key = decode_hex(TEST_KEY).unwrap();
    let mut mmkv = MmkvImpl::new_with_encryption(Vec::new(), 100, key.clone(), None).unwrap();
    mmkv.put("key1", Buffer::new("key1", 1)).unwrap();
    let bytes = mmkv.file_bytes();
    drop(mmkv);
    // with the meta file gone a fresh nonce is drawn: nothing decrypts
    let reopened = MmkvImpl::new_with_encryption(bytes, 100, key, None).unwrap();
    assert_eq!(reopened.get("key1"), Err(KeyNotFound));
}

#[test]
fn store_typed_round_trips() {
    let mut mmkv = MmkvImpl::new(Vec::new(), 4096);
    mmkv.put("first", Buffer::new("first", 1i32)).unwrap();
    mmkv.put("second", Buffer::new("second", 2i32)).unwrap();
    assert_eq!(mmkv.get("first").unwrap().parse::<i32>(), Ok(1));
    assert!(mmkv.get("first").unwrap().parse::<String>().is_err());
    assert!(mmkv.get("first").unwrap().parse::<bool>().is_err());
    assert_eq!(mmkv.get("second").unwrap().parse::<i32>(), Ok(2));
    assert!(mmkv.get("third").is_err());
    mmkv.put("third", Buffer::new("third", 3i32)).unwrap();
    assert_eq!(mmkv.get("third").unwrap().parse::<i32>(), Ok(3));
    mmkv.put("fourth", Buffer::new("fourth", "four".to_string())).unwrap();
    assert_eq!(mmkv.get("fourth").unwrap().parse::<String>(), Ok("four".to_string()));
    mmkv.put("first", Buffer::new("first", "one".to_string())).unwrap();
    assert!(mmkv.get("first").unwrap().parse::<i32>().is_err());
    assert_eq!(mmkv.get("first").unwrap().parse::<String>(), Ok("one".to_string()));
    mmkv.put("second", Buffer::new("second", false)).unwrap();
    assert!(mmkv.get("second").unwrap().parse::<String>().is_err());
    assert_eq!(mmkv.get("second").unwrap().parse::<bool>(), Ok(false));

    mmkv.put("i64", Buffer::new("i64", 2i64)).unwrap();
    assert_eq!(mmkv.get("i64").unwrap().parse::<i64>(), Ok(2));

    mmkv.put(
        "f32",
        Buffer::from_raw("f32", mmkv::types::Types::F32.value(), 2.2f32.to_be_bytes().to_vec()),
    )
    .unwrap();
    let raw = mmkv.get("f32").unwrap().raw_value(mmkv::types::Types::F32.value()).unwrap().to_vec();
    assert_eq!(f32::from_be_bytes([raw[0], raw[1], raw[2], raw[3]]), 2.2);

    mmkv.put("byte_array", Buffer::new("byte_array", vec![1u8, 2, 3])).unwrap();
    assert_eq!(mmkv.get("byte_array").unwrap().parse::<Vec<u8>>(), Ok(vec![1, 2, 3]));

    mmkv.put("i32_array", Buffer::new("i32_array", vec![1i32, 2, 3])).unwrap();
    assert_eq!(mmkv.get("i32_array").unwrap().parse::<Vec<i32>>(), Ok(vec![1, 2, 3]));

    mmkv.put("i64_array", Buffer::new("i64_array", vec![1i64, 2, 3])).unwrap();
    assert_eq!(mmkv.get("i64_array").unwrap().parse::<Vec<i64>>(), Ok(vec![1i64, 2, 3]));

    mmkv.delete("second").unwrap();
    assert_eq!(mmkv.get("second").map(|b| b.clone()), Err(KeyNotFound));

    let mmkv = reopen(mmkv);
    assert_eq!(mmkv.get("first").unwrap().parse::<String>(), Ok("one".to_string()));
    assert_eq!(mmkv.get("second").map(|b| b.clone()), Err(KeyNotFound));
}
