use walstore::ByteSet;
use walstore::DurableKeySetStore;

#[test]
fn key_set_store_simple_test() {
    let mut store = DurableKeySetStore::new_vec_based();

    store.append(b"a".to_vec(), b"apple".to_vec());
    store.append(b"a".to_vec(), b"article".to_vec());
    store.append(b"a".to_vec(), b"atmosphere".to_vec());

    store.append(b"b".to_vec(), b"banana".to_vec());

    store.append(b"c".to_vec(), b"cinema".to_vec());
    store.append(b"c".to_vec(), b"cinamon".to_vec());

    assert_eq!(store.size(), 3);

    let res_a = store.get_hashset(b"a").unwrap();

    assert_eq!(res_a.contains(&b"apple".to_vec()[..]), true);
    assert_eq!(res_a.contains(&b"article".to_vec()[..]), true);
    assert_eq!(res_a.contains(&b"atmosphere".to_vec()[..]), true);
    assert_eq!(res_a.contains(&b"banana".to_vec()[..]), false);

    store.remove_from_set(b"a".to_vec(), b"article".to_vec());
    let res_a = store.get_hashset(b"a").unwrap();
    assert_eq!(res_a.contains(&b"article".to_vec()[..]), false);

    let res_b = store.get_hashset(b"b").unwrap();
    assert_eq!(res_b.len(), 1);
    assert_eq!(res_b.contains(&b"banana".to_vec()[..]), true);
    assert_eq!(res_b.contains(&b"apple".to_vec()[..]), false);

    let res_c = store.get_hashset(b"c").unwrap();
    assert_eq!(res_c.len(), 2);
    assert_eq!(res_c.contains(&b"cinema".to_vec()[..]), true);
    assert_eq!(res_c.contains(&b"cinamon".to_vec()[..]), true);
    assert_eq!(res_c.contains(&b"apple".to_vec()[..]), false);

    store.remove_key(b"b");
    assert_eq!(store.size(), 2);
}

#[test]
fn key_set_store_test_compute() {
    let mut store = DurableKeySetStore::new_vec_based();

    store.compute(vec![0], |mut set: ByteSet| {
        set.insert_elem(vec![1]);
        set
    });
    store.compute(vec![0], |mut set: ByteSet| {
        set.insert_elem(vec![2]);
        set
    });

    let res_set = store.get_hashset(&[0]).unwrap();
    assert_eq!(res_set.len(), 2);

    assert!(store.get_hashset(&[1]).is_none());
}

#[test]
fn test_compute_if_present() {
    let mut store = DurableKeySetStore::new_vec_based();

    store.compute_if_present(vec![0], |mut set: ByteSet| {
        set.insert_elem(vec![1]);
        set
    });
    let res_set = store.get_hashset(&[0]);
    assert!(res_set.is_none());

    store.append(vec![0], vec![1]);

    store.compute_if_present(vec![0], |mut set: ByteSet| {
        set.insert_elem(vec![2]);
        set
    });

    let res_set = store.get_hashset(&[0]).unwrap();
    assert_eq!(res_set.len(), 2);

    assert!(store.get_hashset(&[1]).is_none());
}

#[test]
fn test_compute_if_absent() {
    let mut store = DurableKeySetStore::new_vec_based();
    store.append(vec![0], vec![1]);

    store.compute_if_absent(vec![0], |mut set: ByteSet| {
        set.insert_elem(vec![1]);
        set
    });
    let res_set = store.get_hashset(&[0]).unwrap();
    assert_eq!(res_set.len(), 1);

    store.compute_if_absent(vec![1], |mut set: ByteSet| {
        set.insert_elem(vec![3]);
        set
    });

    let res_set = store.get_hashset(&[1]).unwrap();
    assert_eq!(res_set.len(), 1);

    assert!(store.get_hashset(&[2]).is_none());
}

#[test]
fn test_remove_if_empty() {
    let mut store = DurableKeySetStore::new_vec_based();

    store.append(b"a".to_vec(), b"apple".to_vec());
    store.append(b"a".to_vec(), b"apricote".to_vec());

    store.append(b"b".to_vec(), b"banana".to_vec());

    assert_eq!(store.size(), 2);

    store.remove_from_set(b"a".to_vec(), b"apple".to_vec());
    assert_eq!(store.size(), 2);

    store.remove_from_set(b"a".to_vec(), b"apricote".to_vec());
    assert_eq!(store.size(), 1);

    store.remove_from_set(b"b".to_vec(), b"banana".to_vec());
    assert_eq!(store.size(), 0);
}

#[test]
fn set_restart_scenario() {
    let mut store = DurableKeySetStore::new_vec_based();
    store.append(b"x".to_vec(), b"p".to_vec());
    store.append(b"x".to_vec(), b"q".to_vec());
    store.append(b"y".to_vec(), b"r".to_vec());
    store.remove_from_set(b"x".to_vec(), b"p".to_vec());
    store.remove_from_set(b"x".to_vec(), b"q".to_vec());

    assert!(!store.contains_key(b"x"));
    assert_eq!(store.size(), 1);

    let restarted = DurableKeySetStore::recover_from_log(store.log_bytes().as_slice()).unwrap();
    assert!(!restarted.contains_key(b"x"));
    assert!(restarted.contains_in_set(b"y", b"r"));
    assert_eq!(restarted.size(), 1);
}

#[test]
fn emptying_removal_logs_a_delete_of_the_key() {
    let mut store = DurableKeySetStore::new_vec_based();
    store.append(b"a".to_vec(), b"only".to_vec());
    store.remove_from_set(b"a".to_vec(), b"only".to_vec());
    assert!(!store.contains_key(b"a"));

    // scan the log for a DELETE record whose payload is the outer key
    let bytes = store.log_bytes().as_slice();
    let mut offset: usize = 0;
    let mut found_delete = false;
    while offset < bytes.len() {
        let action = walstore::wal::build_action(&mut offset, bytes).unwrap();
        if *action.act_type() == 0 && action.data() == b"a" {
            found_delete = true;
        }
    }
    assert!(found_delete);
}

#[test]
fn remove_callback_fires_only_on_key_removal() {
    let mut store = DurableKeySetStore::new_vec_based();
    store.append(b"a".to_vec(), b"one".to_vec());
    store.append(b"a".to_vec(), b"two".to_vec());

    let mut hits = 0;
    store.remove_from_set_callback(b"a".to_vec(), b"one".to_vec(), |_e| {
        hits += 1;
    });
    assert_eq!(hits, 0);

    let mut last: Vec<u8> = Vec::new();
    store.remove_from_set_callback(b"a".to_vec(), b"two".to_vec(), |e| {
        last = e.to_vec();
    });
    assert_eq!(last, b"two");
    assert!(!store.contains_key(b"a"));
}
