use memd::store::{MemDB, MemKey, MemVal, string_eq};

#[test]
fn fetch_after_store_returns_the_value() {
    let mut db = MemDB::new();
    db.store("k".to_string(), "v".to_string());
    assert_eq!(db.fetch("k".to_string()), Some(&"v".to_string()));
}

#[test]
fn fetch_before_any_store_is_absent() {
    let db = MemDB::new();
    assert_eq!(db.fetch("k".to_string()), None);
    assert_eq!(db.fetch("".to_string()), None);
    assert_eq!(db.fetch("anything at all".to_string()), None);
}

#[test]
fn overwrite_keeps_the_latest_value() {
    let mut db = MemDB::new();
    db.store("k".to_string(), "v1".to_string());
    db.store("k".to_string(), "v2".to_string());
    assert_eq!(db.fetch("k".to_string()), Some(&"v2".to_string()));
}

#[test]
fn distinct_keys_hold_distinct_values() {
    let mut db = MemDB::new();
    db.store("a".to_string(), "1".to_string());
    db.store("b".to_string(), "2".to_string());
    db.store("c".to_string(), "3".to_string());
    assert_eq!(db.fetch("a".to_string()), Some(&"1".to_string()));
    assert_eq!(db.fetch("b".to_string()), Some(&"2".to_string()));
    assert_eq!(db.fetch("c".to_string()), Some(&"3".to_string()));
    assert_eq!(db.fetch("d".to_string()), None);
}

#[test]
fn empty_key_and_empty_value_are_ordinary() {
    let mut db = MemDB::new();
    db.store("".to_string(), "".to_string());
    assert_eq!(db.fetch("".to_string()), Some(&"".to_string()));
}

#[test]
fn storing_the_same_value_again_is_kept() {
    let mut db = MemDB::new();
    db.store("k".to_string(), "v".to_string());
    db.store("k".to_string(), "v".to_string());
    assert_eq!(db.fetch("k".to_string()), Some(&"v".to_string()));
}

#[test]
fn memval_new_holds_the_value() {
    let v = MemVal::new("payload".to_string());
    assert_eq!(v.value, "payload".to_string());
}

#[test]
fn memkey_compares_by_string_value_alone() {
    let a = MemKey::new("k".to_string(), 0);
    let b = MemKey::new("k".to_string(), 7);
    let c = MemKey::new("other".to_string(), 0);
    assert!(a == b);
    assert!(a != c);
}

#[test]
fn string_eq_compares_contents() {
    assert!(string_eq("", ""));
    assert!(string_eq("héllo", "héllo"));
    assert!(!string_eq("héllo", "hello"));
    assert!(!string_eq("abc", "abcd"));
}
