use std::collections::BTreeMap;

use walstore::DurableKeyMapStore;
use walstore::Key;
use walstore::KeyBound;
use walstore::SearchKey;
use walstore::SortedEntries;

#[test]
fn key_map_store_simple_test() {
    let mut store = DurableKeyMapStore::new_vec_based();

    let key_1 = "key_1".as_bytes().to_vec();
    store.put(key_1.clone(), SearchKey::from_usize(3), "c".as_bytes().to_vec());
    store.put(key_1.clone(), SearchKey::from_usize(1), "a".as_bytes().to_vec());
    store.put(key_1.clone(), SearchKey::from_usize(2), "b".as_bytes().to_vec());
    store.put(key_1.clone(), SearchKey::from_usize(3), "c_".as_bytes().to_vec());

    let key_2 = "key_2".as_bytes().to_vec();
    store.put(key_2.clone(), SearchKey::from_usize(3), "C".as_bytes().to_vec());
    store.put(key_2.clone(), SearchKey::from_usize(1), "A".as_bytes().to_vec());
    store.put(key_2.clone(), SearchKey::from_usize(2), "B".as_bytes().to_vec());

    assert_eq!(
        store.get_element(&key_1, &SearchKey::from_usize(2)),
        Some("b".as_bytes().to_vec())
    );
    assert_eq!(
        store.get_element(&key_1, &SearchKey::from_usize(3)),
        Some("c_".as_bytes().to_vec())
    );
    assert_eq!(
        store.get_element(&key_1, &SearchKey::from_usize(1)),
        Some("a".as_bytes().to_vec())
    );

    assert_eq!(
        store.get_element(&key_2, &SearchKey::from_usize(2)),
        Some("B".as_bytes().to_vec())
    );
    assert_eq!(
        store.get_element(&key_2, &SearchKey::from_usize(3)),
        Some("C".as_bytes().to_vec())
    );
    assert_eq!(
        store.get_element(&key_2, &SearchKey::from_usize(1)),
        Some("A".as_bytes().to_vec())
    );

    store.remove_from_sorted_map(key_1.clone(), SearchKey::from_usize(1));
    assert_eq!(store.get_element(&key_1, &SearchKey::from_usize(1)), None);
}

#[test]
fn test_range() {
    let mut map: BTreeMap<SearchKey, &'static str> = BTreeMap::new();

    map.insert(SearchKey::from_usize(1), "a");
    map.insert(SearchKey::from_usize(2), "b");
    map.insert(SearchKey::from_usize(3), "c");
    map.insert(SearchKey::from_usize(4), "d");
    map.insert(SearchKey::from_usize(5), "e");
    map.insert(SearchKey::from_usize(6), "f");
    map.insert(SearchKey::from_usize(7), "g");

    let start: SearchKey = SearchKey::from_usize(2);
    let end: SearchKey = SearchKey::from_usize(5);

    for (key, str) in map.range(start..end) {
        println!("{:?} -> {}", key, str);
    }
}

fn print_sorted(map: &SortedEntries) {
    let mut i = 0;
    while i < map.len() {
        let k = map.entry_key_at(i);
        let v = map.entry_value_at(i);
        println!("{:?} -> {}", k, String::from_utf8_lossy(v.as_slice()));
        i += 1;
    }
}

#[test]
fn test_ordered() {
    let mut store = DurableKeyMapStore::new_vec_based();
    let key: Vec<u8> = vec![0];

    (0..10).for_each(|i| {
        store.append_ordered_element(key.clone(), format!("{}", i).into_bytes());
    });

    let map = store.get_sorted_map(&key).unwrap();
    print_sorted(&map);
    assert_eq!(map.len(), 10);
}

#[test]
fn sorted_map_scenario() {
    let mut store = DurableKeyMapStore::new_vec_based();
    let k = b"k".to_vec();
    store.put(k.clone(), SearchKey::from_usize(3), b"c".to_vec());
    store.put(k.clone(), SearchKey::from_usize(1), b"a".to_vec());
    store.put(k.clone(), SearchKey::from_usize(2), b"b".to_vec());

    let entries = store
        .range_entries(
            &k,
            KeyBound::Included(SearchKey::from_usize(1)),
            KeyBound::Excluded(SearchKey::from_usize(3)),
        )
        .unwrap();
    assert_eq!(entries.len(), 2);
    assert_eq!(entries[0].0, SearchKey::from_usize(1));
    assert_eq!(entries[0].1, b"a".to_vec());
    assert_eq!(entries[1].0, SearchKey::from_usize(2));
    assert_eq!(entries[1].1, b"b".to_vec());

    let popped = store.pop_first(k.clone()).unwrap();
    assert_eq!(popped.0, SearchKey::from_usize(1));
    assert_eq!(popped.1, b"a".to_vec());

    let first = store.first(&k).unwrap();
    assert_eq!(first.0, SearchKey::from_usize(2));
    assert_eq!(first.1, b"b".to_vec());

    let last = store.last(&k).unwrap();
    assert_eq!(last.0, SearchKey::from_usize(3));

    let popped_last = store.pop_last(k.clone()).unwrap();
    assert_eq!(popped_last.0, SearchKey::from_usize(3));
    assert_eq!(popped_last.1, b"c".to_vec());

    assert_eq!(store.sorted_map_size(&k), Some(1));
}

#[test]
fn ordered_append_restart_scenario() {
    let mut store = DurableKeyMapStore::new_vec_based();
    store.append_ordered_element(b"q".to_vec(), b"v0".to_vec());
    store.append_ordered_element(b"q".to_vec(), b"v1".to_vec());

    let restarted = DurableKeyMapStore::recover_from_log(store.log_bytes().as_slice()).unwrap();
    let map = restarted.get_sorted_map(b"q").unwrap();
    assert_eq!(map.len(), 2);
    assert_eq!(map.entry_key_at(0), &SearchKey::from_usize(0));
    assert_eq!(map.entry_key_at(1), &SearchKey::from_usize(1));
    assert_eq!(map.entry_value_at(0), &b"v0".to_vec());
    assert_eq!(map.entry_value_at(1), &b"v1".to_vec());
}

#[test]
fn ordered_append_counts_from_zero() {
    let mut store = DurableKeyMapStore::new_vec_based();
    let k = b"counter".to_vec();
    for i in 0..5u32 {
        store.append_ordered_element(k.clone(), format!("e{}", i).into_bytes());
    }
    let map = store.get_sorted_map(&k).unwrap();
    assert_eq!(map.len(), 5);
    for i in 0..5usize {
        assert_eq!(map.entry_key_at(i), &SearchKey::from_usize(i));
        assert_eq!(map.entry_value_at(i), &format!("e{}", i).into_bytes());
    }
}

#[test]
fn sorted_map_restart_scenario() {
    let mut store = DurableKeyMapStore::new_vec_based();
    let k = b"k".to_vec();
    store.put(k.clone(), SearchKey::from_usize(3), b"c".to_vec());
    store.put(k.clone(), SearchKey::from_usize(1), b"a".to_vec());
    store.remove_from_sorted_map(k.clone(), SearchKey::from_usize(3));

    let restarted = DurableKeyMapStore::recover_from_log(store.log_bytes().as_slice()).unwrap();
    assert_eq!(
        restarted.get_element(&k, &SearchKey::from_usize(1)),
        Some(b"a".to_vec())
    );
    assert_eq!(restarted.get_element(&k, &SearchKey::from_usize(3)), None);
    assert_eq!(restarted.size(), 1);
}

#[test]
fn string_search_keys_survive_restart() {
    let mut store = DurableKeyMapStore::new_vec_based();
    let k = b"fruit".to_vec();
    store.put(
        k.clone(),
        SearchKey::from_string("banana".to_string()),
        b"yellow".to_vec(),
    );
    store.put(
        k.clone(),
        SearchKey::from_string("apple".to_string()),
        b"green".to_vec(),
    );

    let restarted = DurableKeyMapStore::recover_from_log(store.log_bytes().as_slice()).unwrap();
    let map = restarted.get_sorted_map(&k).unwrap();
    assert_eq!(map.len(), 2);
    assert_eq!(
        map.entry_key_at(0),
        &SearchKey::from_string("apple".to_string())
    );
    assert_eq!(
        map.entry_key_at(1),
        &SearchKey::from_string("banana".to_string())
    );
    assert_eq!(
        restarted.get_element(&k, &SearchKey::from_string("apple".to_string())),
        Some(b"green".to_vec())
    );
}

#[test]
fn variant_tags_order_across_kinds() {
    let mut store = DurableKeyMapStore::new_vec_based();
    let k = b"mixed".to_vec();
    store.put(
        k.clone(),
        SearchKey::from_string("apple".to_string()),
        b"s".to_vec(),
    );
    store.put(k.clone(), SearchKey::from_usize(7), b"n".to_vec());
    store.put(
        k.clone(),
        SearchKey::new(vec![Key::Bool(true)]),
        b"b".to_vec(),
    );

    // tag order: booleans before platform integers before strings
    let map = store.get_sorted_map(&k).unwrap();
    assert_eq!(map.entry_key_at(0), &SearchKey::new(vec![Key::Bool(true)]));
    assert_eq!(map.entry_key_at(1), &SearchKey::from_usize(7));
    assert_eq!(
        map.entry_key_at(2),
        &SearchKey::from_string("apple".to_string())
    );
}

#[test]
fn emptied_inner_map_drops_outer_key() {
    let mut store = DurableKeyMapStore::new_vec_based();
    let k = b"k".to_vec();
    store.put(k.clone(), SearchKey::from_usize(1), b"a".to_vec());
    let removed = store.remove_from_sorted_map(k.clone(), SearchKey::from_usize(1));
    assert_eq!(removed, Some(b"a".to_vec()));
    assert!(!store.contains_key(&k));
    assert_eq!(store.size(), 0);

    // the log ends with a DELETE record whose payload is the outer key
    let bytes = store.log_bytes().as_slice();
    let mut offset: usize = 0;
    let mut last_act = 255u8;
    let mut last_data: Vec<u8> = Vec::new();
    while offset < bytes.len() {
        let action = walstore::wal::build_action(&mut offset, bytes).unwrap();
        last_act = *action.act_type();
        last_data = action.data().to_vec();
    }
    assert_eq!(last_act, 0);
    assert_eq!(last_data, b"k".to_vec());
}

#[test]
fn callback_fires_when_inner_map_empties() {
    let mut store = DurableKeyMapStore::new_vec_based();
    let k = b"k".to_vec();
    store.put(k.clone(), SearchKey::from_usize(1), b"a".to_vec());
    store.put(k.clone(), SearchKey::from_usize(2), b"b".to_vec());

    let mut hits = 0;
    store.remove_from_sorted_map_callback(k.clone(), SearchKey::from_usize(1), |_sk| {
        hits += 1;
    });
    assert_eq!(hits, 0);

    let mut seen: Option<SearchKey> = None;
    store.remove_from_sorted_map_callback(k.clone(), SearchKey::from_usize(2), |sk| {
        seen = Some(sk.clone());
    });
    assert_eq!(seen, Some(SearchKey::from_usize(2)));
    assert!(!store.contains_key(&k));
}

#[test]
fn map_compute_guards_memory_only() {
    let mut store = DurableKeyMapStore::new_vec_based();
    let k = b"k".to_vec();
    store.compute(k.clone(), |mut inner: SortedEntries| {
        inner.insert_entry(SearchKey::from_usize(9), b"z".to_vec());
        inner
    });
    assert_eq!(
        store.get_element(&k, &SearchKey::from_usize(9)),
        Some(b"z".to_vec())
    );
    // the compute wrote nothing to the log
    assert_eq!(store.log_bytes().len(), 0);

    store.compute_if_present(k.clone(), |mut inner: SortedEntries| {
        inner.insert_entry(SearchKey::from_usize(10), b"y".to_vec());
        inner
    });
    assert_eq!(store.sorted_map_size(&k), Some(2));

    store.compute_if_absent(k.clone(), |inner: SortedEntries| inner);
    assert_eq!(store.sorted_map_size(&k), Some(2));
}

#[test]
fn every_component_variant_survives_restart() {
    let mut store = DurableKeyMapStore::new_vec_based();
    let k = b"all".to_vec();
    let keys: Vec<SearchKey> = vec![
        SearchKey::new(vec![Key::Bool(false)]),
        SearchKey::new(vec![Key::I(-5)]),
        SearchKey::new(vec![Key::U8(200)]),
        SearchKey::new(vec![Key::I16(-300)]),
        SearchKey::new(vec![Key::U16(40000)]),
        SearchKey::new(vec![Key::I32(-70000)]),
        SearchKey::new(vec![Key::U32(3000000000)]),
        SearchKey::new(vec![Key::I64(-5000000000)]),
        SearchKey::new(vec![Key::U64(u64::MAX)]),
        SearchKey::new(vec![Key::USIZE(12)]),
        SearchKey::new(vec![Key::I128(77)]),
        SearchKey::new(vec![Key::U128(u128::MAX)]),
        SearchKey::new(vec![Key::Char('\u{1F600}')]),
        SearchKey::new(vec![Key::Str("héllo".to_string())]),
        SearchKey::new(vec![Key::Bytes(vec![0, 255, 7])]),
        SearchKey::new(vec![Key::U8(1), Key::Str("multi".to_string()), Key::Bool(true)]),
    ];
    for (i, sk) in keys.iter().enumerate() {
        store.put(k.clone(), sk.clone(), format!("v{}", i).into_bytes());
    }
    let restarted = DurableKeyMapStore::recover_from_log(store.log_bytes().as_slice()).unwrap();
    for (i, sk) in keys.iter().enumerate() {
        assert_eq!(
            restarted.get_element(&k, sk),
            Some(format!("v{}", i).into_bytes()),
            "variant {} did not survive",
            i
        );
    }
    assert_eq!(restarted.sorted_map_size(&k), Some(keys.len()));
}
