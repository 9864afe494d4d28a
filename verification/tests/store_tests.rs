use resp_kv::store::CacheRepository;

#[test]
fn set_then_get_returns_the_value() {
    let mut s = CacheRepository::new();
    s.set("k".to_string(), b"v".to_vec()).unwrap();
    assert_eq!(s.get("k".to_string(), 0), Some(b"v".to_vec()));
    assert_eq!(s.get("missing".to_string(), 0), None);
}

#[test]
fn set_overwrites_and_clears_expiry() {
    let mut s = CacheRepository::new();
    s.set_with_expiry("k".to_string(), b"old".to_vec(), 10, 100).unwrap();
    s.set("k".to_string(), b"new".to_vec()).unwrap();
    assert_eq!(s.get("k".to_string(), 1000), Some(b"new".to_vec()));
    assert_eq!(s.expiry_map.len(), 0);
}

#[test]
fn expiry_hides_a_key_after_its_instant() {
    let mut s = CacheRepository::new();
    s.set_with_expiry("k".to_string(), b"v".to_vec(), 5, 100).unwrap();
    assert_eq!(s.get("k".to_string(), 104), Some(b"v".to_vec()));
    assert_eq!(s.get("k".to_string(), 105), None);
    assert_eq!(s.get("k".to_string(), 200), None);
}

#[test]
fn sweeping_does_not_change_observable_reads() {
    let mut s = CacheRepository::new();
    s.set_with_expiry("a".to_string(), b"1".to_vec(), 5, 100).unwrap();
    s.set_with_expiry("b".to_string(), b"2".to_vec(), 50, 100).unwrap();
    s.set("c".to_string(), b"3".to_vec()).unwrap();
    let now = 120;
    let before = (
        s.get("a".to_string(), now),
        s.get("b".to_string(), now),
        s.get("c".to_string(), now),
    );
    s.actively_remove_expired_keys(now);
    let after = (
        s.get("a".to_string(), now),
        s.get("b".to_string(), now),
        s.get("c".to_string(), now),
    );
    assert_eq!(before, after);
    assert_eq!(after.0, None);
    assert_eq!(after.1, Some(b"2".to_vec()));
    assert_eq!(after.2, Some(b"3".to_vec()));
    assert_eq!(s.repo.len(), 2);
    assert_eq!(s.expiry_map.len(), 1);
}

#[test]
fn replacing_an_expiry_leaves_one_mark_per_key() {
    let mut s = CacheRepository::new();
    s.set_with_expiry("k".to_string(), b"v".to_vec(), 5, 100).unwrap();
    s.set_with_expiry("k".to_string(), b"v".to_vec(), 50, 100).unwrap();
    assert_eq!(s.expiry_map.len(), 1);
    assert_eq!(s.expiry_map[0].at, 150);
}

#[test]
fn transaction_id_is_set_and_cleared() {
    let mut s = CacheRepository::new();
    assert_eq!(s.get_transaction_id(), None);
    s.set_transaction("peer-1".to_string());
    assert_eq!(s.get_transaction_id(), Some("peer-1".to_string()));
    s.unset_transaction();
    assert_eq!(s.get_transaction_id(), None);
}
