use redis_starter_rust::store::hash_key;
use redis_starter_rust::Store;

#[test]
fn get_of_unwritten_key_is_absent() {
    let mut s = Store::new();
    assert_eq!(s.get(b"k", 0), None);
}

#[test]
fn set_then_get() {
    let mut s = Store::new();
    s.set(b"k".to_vec(), b"v".to_vec(), None);
    assert_eq!(s.get(b"k", 10), Some(b"v".to_vec()));
    assert_eq!(s.get(b"other", 10), None);
}

#[test]
fn expiry_is_live_at_its_boundary() {
    let mut s = Store::new();
    s.set(b"k".to_vec(), b"v".to_vec(), Some(1100));
    assert_eq!(s.get(b"k", 1000), Some(b"v".to_vec()));
    assert_eq!(s.get(b"k", 1100), Some(b"v".to_vec()));
    assert_eq!(s.get(b"k", 1101), None);
}

#[test]
fn set_without_expiry_clears_expiry() {
    let mut s = Store::new();
    s.set(b"k".to_vec(), b"v1".to_vec(), Some(5));
    s.set(b"k".to_vec(), b"v2".to_vec(), None);
    assert_eq!(s.get(b"k", 1_000_000), Some(b"v2".to_vec()));
}

#[test]
fn distinct_keys_are_both_kept() {
    let mut s = Store::new();
    s.set(b"a".to_vec(), b"1".to_vec(), None);
    s.set(b"b".to_vec(), b"2".to_vec(), None);
    assert_eq!(s.get(b"a", 0), Some(b"1".to_vec()));
    assert_eq!(s.get(b"b", 0), Some(b"2".to_vec()));
}

#[test]
fn binary_keys_are_distinct() {
    let mut s = Store::new();
    s.set(vec![0xff], b"x".to_vec(), None);
    s.set(vec![0xfe], b"y".to_vec(), None);
    assert_eq!(s.get(&[0xff], 0), Some(b"x".to_vec()));
    assert_eq!(s.get(&[0xfe], 0), Some(b"y".to_vec()));
}

#[test]
fn read_sees_the_last_write_whole() {
    let mut s = Store::new();
    s.set(b"k".to_vec(), b"v1".to_vec(), Some(10));
    s.set(b"k".to_vec(), b"v2".to_vec(), Some(1000));
    assert_eq!(s.get(b"k", 20), Some(b"v2".to_vec()));
    s.set(b"k".to_vec(), b"v3".to_vec(), Some(30));
    assert_eq!(s.get(b"k", 31), None);
}

#[test]
fn expired_record_stays_gone() {
    let mut s = Store::new();
    s.set(b"k".to_vec(), b"v".to_vec(), Some(5));
    assert_eq!(s.get(b"k", 6), None);
    assert_eq!(s.get(b"k", 0), None);
}

#[test]
fn hash_is_fnv1a() {
    assert_eq!(hash_key(b""), 0xcbf29ce484222325);
    assert_eq!(hash_key(b"a"), 0xaf63dc4c8601ec8c);
}

#[test]
fn many_keys_are_all_kept() {
    let mut s = Store::new();
    for i in 0..500u32 {
        s.set(i.to_string().into_bytes(), vec![(i % 251) as u8], None);
    }
    for i in 0..500u32 {
        assert_eq!(s.get(i.to_string().as_bytes(), 0), Some(vec![(i % 251) as u8]));
    }
}
