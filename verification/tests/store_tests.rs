use minikv::store::Store;

#[test]
fn set_then_get_returns_the_value() {
    let mut store = Store::new();
    store.set(b"hello".to_vec(), b"world".to_vec());
    assert_eq!(store.get(&b"hello".to_vec()), Some(b"world".to_vec()));
}

#[test]
fn absent_key_reads_as_none() {
    let store = Store::new();
    assert_eq!(store.get(&b"absent".to_vec()), None);
}

#[test]
fn last_write_wins_on_one_key() {
    let mut store = Store::new();
    store.set(b"k".to_vec(), b"v1".to_vec());
    store.set(b"k".to_vec(), b"v2".to_vec());
    assert_eq!(store.get(&b"k".to_vec()), Some(b"v2".to_vec()));
}

#[test]
fn distinct_keys_stay_independent() {
    let mut store = Store::new();
    store.set(b"a".to_vec(), b"1".to_vec());
    store.set(b"b".to_vec(), b"2".to_vec());
    store.set(b"a".to_vec(), b"3".to_vec());
    assert_eq!(store.get(&b"a".to_vec()), Some(b"3".to_vec()));
    assert_eq!(store.get(&b"b".to_vec()), Some(b"2".to_vec()));
}

#[test]
fn keys_and_values_are_exact_bytes() {
    let mut store = Store::new();
    store.set(b"k\x00ey".to_vec(), b"\xffbin\x00".to_vec());
    assert_eq!(store.get(&b"k\x00ey".to_vec()), Some(b"\xffbin\x00".to_vec()));
    // a key differing in one byte is another key
    assert_eq!(store.get(&b"k\x01ey".to_vec()), None);
    // the empty key and the empty value are ordinary
    store.set(Vec::new(), Vec::new());
    assert_eq!(store.get(&Vec::new()), Some(Vec::new()));
}
