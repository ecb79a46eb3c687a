use std::collections::BTreeMap;
use std::ops::Bound;
use std::ops::Bound::Included;
use std::ops::Bound::Unbounded;

use walstore::collect;
use walstore::read_backward;
use walstore::read_forward;
use walstore::wal::build_action;
use walstore::WalStorage;

#[test]
fn test_with_vec() {
    let mut wal = WalStorage::new_vec_based();

    wal.store_put_event(b"x".to_vec(), b"X".to_vec());
    wal.store_put_event(b"a".to_vec(), b"A".to_vec());
    wal.store_put_event(b"a".to_vec(), b"AAA".to_vec());
    wal.store_put_event(b"b".to_vec(), b"B!".to_vec());
    wal.store_delete_event(&b"x".to_vec());

    let map = collect(wal.log_bytes().as_slice()).unwrap();
    assert_eq!(map.get(b"a".as_slice()), Some(&b"AAA".to_vec()));
    assert_eq!(map.get(b"b".as_slice()), Some(&b"B!".to_vec()));
    assert_eq!(map.len(), 2);
}

#[test]
fn test_key_ord() {
    let empty: Vec<u8> = vec![];
    let zero: Vec<u8> = vec![0];
    let zero_zero: Vec<u8> = vec![0, 0];
    assert!(empty < zero);
    assert!(empty < zero_zero);
    assert!(zero < zero_zero);
}

#[test]
pub fn test_str_range() {
    let mut map: BTreeMap<&'static str, usize> = BTreeMap::new();
    map.insert("apple", 1);
    map.insert("brother", 2);
    map.insert("cool", 3);
    map.insert("door", 4);

    for (k, _v) in map.range::<&str, (Bound<&str>, Bound<&str>)>((Included("az"), Unbounded)) {
        println!("-> {}", k)
    }
}

#[test]
fn record_crc_is_crc32_of_payload() {
    let mut wal = WalStorage::new_vec_based();
    wal.store_put_event(b"key".to_vec(), b"value".to_vec());
    let bytes = wal.log_bytes().as_slice();
    let mut offset: usize = 0;
    let action = build_action(&mut offset, bytes).unwrap();
    assert_eq!(*action.crc(), crc32fast::hash(action.data()));
    assert_eq!(offset, bytes.len());
}

#[test]
fn forward_detects_any_single_bit_flip_in_payload() {
    let mut wal = WalStorage::new_vec_based();
    wal.store_put_event(b"a".to_vec(), b"1".to_vec());
    wal.store_put_event(b"b".to_vec(), b"2".to_vec());
    let clean = wal.log_bytes().clone();
    assert!(read_forward(clean.as_slice()).is_ok());

    // the first record's payload: 4-byte key length, key "a", 4-byte value
    // length, value "1", starting right after the 9-byte header
    let data_start = 9;
    let data_len = 4 + 1 + 4 + 1;
    for byte_idx in data_start..data_start + data_len {
        for bit in 0..8 {
            let mut corrupted = clean.clone();
            corrupted[byte_idx] ^= 1u8 << bit;
            assert!(
                read_forward(corrupted.as_slice()).is_err(),
                "flip of bit {} in byte {} went undetected",
                bit,
                byte_idx
            );
        }
    }
}

#[test]
fn backward_agrees_with_forward() {
    let mut wal = WalStorage::new_vec_based();
    wal.store_put_event(b"x".to_vec(), b"X".to_vec());
    wal.store_put_event(b"a".to_vec(), b"A".to_vec());
    wal.store_put_event(b"a".to_vec(), b"AAA".to_vec());
    wal.store_delete_event(&b"x".to_vec());
    wal.store_put_event(b"b".to_vec(), b"B".to_vec());

    let bytes = wal.log_bytes().as_slice();
    let back = read_backward(bytes).unwrap();
    let fwd = read_forward(bytes).unwrap();
    assert_eq!(back.len(), fwd.len());
    assert_eq!(back.get(b"a".as_slice()), fwd.get(b"a".as_slice()));
    assert_eq!(back.get(b"b".as_slice()), fwd.get(b"b".as_slice()));
    assert_eq!(back.get(b"x".as_slice()), None);
    assert_eq!(fwd.get(b"x".as_slice()), None);
}

#[test]
fn corrupt_crc_byte_fails_recovery_loudly() {
    let mut wal = WalStorage::new_vec_based();
    wal.store_put_event(b"a".to_vec(), b"1".to_vec());
    wal.store_put_event(b"b".to_vec(), b"2".to_vec());
    let mut bytes = wal.log_bytes().clone();
    // the CRC field of the last record: 22 bytes per record here, the CRC
    // field sits at bytes 1..5 of the record
    let last_record_start = bytes.len() - 22;
    bytes[last_record_start + 1] ^= 0xff;

    assert!(read_backward(bytes.as_slice()).is_err());
    assert!(read_forward(bytes.as_slice()).is_err());
    assert!(walstore::DurableKeyValueStore::recover_from_log(bytes.as_slice()).is_err());
}
