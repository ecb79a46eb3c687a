use walstore::DurableKeyValueStore;
use walstore::StoreError;

#[test]
fn key_value_store_simple_test() {
    let mut store = DurableKeyValueStore::new_vec_based();

    store.put(b"key_1".to_vec(), b"value_1".to_vec());
    store.put(b"key_2".to_vec(), b"value_2".to_vec());

    let res_1 = store.get(b"key_1");
    assert_eq!(res_1.unwrap(), b"value_1");

    let res_2 = store.get(b"key_2");
    assert_eq!(res_2.unwrap(), b"value_2");

    let res_none = store.get(b"missing_key");
    assert_eq!(res_none, None);

    store.remove(b"key_1");
    let res_none = store.get(b"key_1");
    assert_eq!(res_none, None);

    assert_eq!(store.size(), 1);
}

#[test]
fn key_value_store_test_compute() {
    let mut store = DurableKeyValueStore::new_vec_based();
    assert_eq!(store.get("a".to_string().as_bytes()), None);

    store.compute("a".to_string().into_bytes(), |_| {
        bincode::serialize::<usize>(&0).expect("0 should be serialized")
    });

    let found = store.get("a".to_string().as_bytes()).unwrap();
    let cur_num: usize = bincode::deserialize(found.as_slice()).unwrap();
    assert_eq!(cur_num, 0);

    store.compute("a".to_string().into_bytes(), |value| {
        let mut cur_num: usize = bincode::deserialize(value.unwrap()).unwrap();
        cur_num += 1;
        bincode::serialize::<usize>(&cur_num).unwrap()
    });
    let found = store.get("a".to_string().as_bytes()).unwrap();
    let cur_num: usize = bincode::deserialize(found.as_slice()).unwrap();
    assert_eq!(cur_num, 1);
}

#[test]
fn test_speed_vec() {
    let start = std::time::Instant::now();
    let mut store = DurableKeyValueStore::new_vec_based();

    for i in 0..100000 {
        let bytes = format!("{}", i).into_bytes();
        store.put(bytes.clone(), bytes);
    }

    let duration = start.elapsed();
    println!("completed in {}", duration.as_secs_f32());
}

#[test]
fn test_increment() {
    let mut store = DurableKeyValueStore::new_vec_based();
    let start = std::time::Instant::now();

    for _ in 0..100000 {
        store.increment_or_init(b"key".to_vec(), 1).unwrap();
    }

    let cur_value = store.read_number(b"key").unwrap().unwrap();
    let elapsed = start.elapsed().as_millis();
    println!("val: {}, elapsed millis: {}", cur_value, elapsed);
}

#[test]
fn kv_restart_scenario() {
    let mut store = DurableKeyValueStore::new_vec_based();
    store.put(b"a".to_vec(), b"1".to_vec());
    store.put(b"b".to_vec(), b"2".to_vec());
    store.put(b"a".to_vec(), b"3".to_vec());
    store.remove(b"b");

    let restarted = DurableKeyValueStore::recover_from_log(store.log_bytes().as_slice()).unwrap();
    assert_eq!(restarted.get(b"a").unwrap(), b"3");
    assert_eq!(restarted.get(b"b"), None);
    assert_eq!(restarted.size(), 1);

    // a second restart from the compacted log reproduces the state again
    let again = DurableKeyValueStore::recover_from_log(restarted.log_bytes().as_slice()).unwrap();
    assert_eq!(again.get(b"a").unwrap(), b"3");
    assert_eq!(again.size(), 1);
}

#[test]
fn hundred_increments_survive_restart() {
    let mut store = DurableKeyValueStore::new_vec_based();
    for _ in 0..100 {
        store.increment_or_init(b"n".to_vec(), 1).unwrap();
    }
    assert_eq!(store.read_number(b"n").unwrap().unwrap(), 100);

    let restarted = DurableKeyValueStore::recover_from_log(store.log_bytes().as_slice()).unwrap();
    assert_eq!(restarted.read_number(b"n").unwrap().unwrap(), 100);
}

#[test]
fn number_encoding_is_8_little_endian_bytes() {
    let mut store = DurableKeyValueStore::new_vec_based();
    store.set_number(b"n".to_vec(), 7);
    assert_eq!(store.get(b"n").unwrap(), vec![7, 0, 0, 0, 0, 0, 0, 0]);
    assert_eq!(store.read_number(b"n").unwrap().unwrap(), 7);
}

#[test]
fn bad_encoding_is_reported() {
    let mut store = DurableKeyValueStore::new_vec_based();
    store.put(b"n".to_vec(), b"not a number".to_vec());
    assert_eq!(
        store.increment_or_init(b"n".to_vec(), 1),
        Err(StoreError::BadEncoding)
    );
    assert_eq!(
        store.read_number(b"n").unwrap(),
        Err(StoreError::BadEncoding)
    );
    assert_eq!(
        store.decrement(b"n".to_vec(), 1).unwrap(),
        Err(StoreError::BadEncoding)
    );
    // the failed operations left the value alone
    assert_eq!(store.get(b"n").unwrap(), b"not a number");
}

#[test]
fn decrement_saturates_at_zero() {
    let mut store = DurableKeyValueStore::new_vec_based();
    assert_eq!(store.decrement(b"n".to_vec(), 1), None);
    store.set_number(b"n".to_vec(), 5);
    assert_eq!(store.decrement(b"n".to_vec(), 2).unwrap().unwrap(), 3);
    assert_eq!(store.decrement(b"n".to_vec(), 100).unwrap().unwrap(), 0);
    assert_eq!(store.read_number(b"n").unwrap().unwrap(), 0);
}

#[test]
fn mutation_is_observed_by_get_and_contains() {
    let mut store = DurableKeyValueStore::new_vec_based();
    store.put(b"k".to_vec(), b"v1".to_vec());
    assert!(store.contains(b"k"));
    assert_eq!(store.get(b"k").unwrap(), b"v1");
    store.put(b"k".to_vec(), b"v2".to_vec());
    assert_eq!(store.get(b"k").unwrap(), b"v2");
    store.remove(b"k");
    assert!(!store.contains(b"k"));
}
