use kvstore::error::ErrorKind;
use kvstore::kvmap::StrMap;
use kvstore::storage_manager::Storage;

#[test]
pub fn test_insertion() {
    let mut storage = Storage::new();
    storage.insert("key", "value").unwrap();
    assert_eq!(storage.get("key").unwrap(), "value".to_string());
}

#[test]
pub fn test_deletion() {
    let mut storage = Storage::new();
    storage.insert("key", "value").unwrap();
    storage.delete("key").unwrap();
    assert!(storage.get("key").is_err());
}

#[test]
pub fn test_version_control() {
    let mut storage = Storage::new();
    storage.insert("key", "value").unwrap();
    storage.insert("key", "value2").unwrap();
    assert_eq!(storage.val_from("key", 0).unwrap(), "value2".to_string());
    assert_eq!(storage.val_from("key", 1).unwrap(), "value".to_string());

    storage.delete("key").unwrap();
    assert!(storage.val_from("key", 0).is_err());
    assert!(storage.val_from("key", 1).is_ok_and(|x| x.eq("value2")));
    assert!(storage.val_from("key", 2).is_ok_and(|x| x.eq("value")));
}

#[test]
fn insert_answers_ok_and_keeps_a_version() {
    let mut storage = Storage::new();
    assert_eq!(storage.get_cur_ver(), 1);
    assert_eq!(storage.insert("a", "1").unwrap(), "OK");
    assert_eq!(storage.get_cur_ver(), 2);
    assert_eq!(storage.insert("a", "2").unwrap(), "OK");
    assert_eq!(storage.get_cur_ver(), 3);
    assert_eq!(storage.get("a").unwrap(), "2");
}

#[test]
fn missing_key_is_not_found() {
    let storage = Storage::new();
    let e = storage.get("nope").unwrap_err();
    assert_eq!(e.kind, ErrorKind::NotFound);
    assert_eq!(e.message, "Item not found");
    assert_eq!(e.to_string(), "Item not found");
}

#[test]
fn deleting_a_missing_key_changes_nothing() {
    let mut storage = Storage::new();
    storage.insert("a", "1").unwrap();
    let e = storage.delete("b").unwrap_err();
    assert_eq!(e.kind, ErrorKind::NotFound);
    assert_eq!(storage.get_cur_ver(), 2);
    assert_eq!(storage.delete("a").unwrap(), "1");
    assert_eq!(storage.get_cur_ver(), 3);
}

#[test]
fn flush_empties_and_records_a_version() {
    let mut storage = Storage::new();
    storage.insert("a", "1").unwrap();
    storage.insert("b", "2").unwrap();
    assert!(storage.flush().is_ok());
    assert!(storage.get("a").is_err());
    assert!(storage.get("b").is_err());
    assert_eq!(storage.get_cur_ver(), 4);
    assert_eq!(storage.get_map().len(), 0);
    assert_eq!(storage.val_from("b", 1).unwrap(), "2");
}

#[test]
fn ver_from_counts_from_the_oldest() {
    let mut storage = Storage::new();
    storage.insert("a", "1").unwrap();
    storage.insert("a", "2").unwrap();
    let v0 = storage.ver_from(0).unwrap();
    assert_eq!(v0.len(), 0);
    let v1 = storage.ver_from(1).unwrap();
    assert_eq!(v1.get(&"a".to_string()), Some("1".to_string()));
    let v2 = storage.ver_from(2).unwrap();
    assert_eq!(v2.get(&"a".to_string()), Some("2".to_string()));
    let e = storage.ver_from(3).unwrap_err();
    assert_eq!(e.kind, ErrorKind::NotFound);
    assert_eq!(e.message, "Version ?");
}

#[test]
fn new_from_starts_from_the_map() {
    let mut m = StrMap::new();
    m.insert("x".to_string(), "10".to_string());
    m.insert("y".to_string(), "20".to_string());
    m.insert("x".to_string(), "11".to_string());
    let storage = Storage::new_from(&m);
    assert_eq!(storage.get_cur_ver(), 1);
    assert_eq!(storage.get("x").unwrap(), "11");
    assert_eq!(storage.get("y").unwrap(), "20");
    assert_eq!(storage.get_map().len(), 2);
}

#[test]
fn law_versions_shift_example() {
    let mut storage = Storage::new();
    storage.insert("k", "a").unwrap();
    let before0 = storage.val_from("k", 0).unwrap();
    storage.insert("k", "b").unwrap();
    assert_eq!(storage.val_from("k", 1).unwrap(), before0);
    assert_eq!(storage.val_from("k", 0).unwrap(), storage.get("k").unwrap());
}

#[test]
fn str_map_remove_and_copy() {
    let mut m = StrMap::new();
    m.insert("a".to_string(), "1".to_string());
    m.insert("b".to_string(), "2".to_string());
    let c = m.copy();
    assert_eq!(m.remove(&"a".to_string()), Some("1".to_string()));
    assert_eq!(m.remove(&"a".to_string()), None);
    assert_eq!(m.len(), 1);
    assert_eq!(c.len(), 2);
    assert_eq!(c.get(&"a".to_string()), Some("1".to_string()));
    assert_eq!(c.entries().len(), 2);
}

#[test]
fn val_from_beyond_the_history_is_not_found() {
    let mut storage = Storage::new();
    storage.insert("k", "a").unwrap();
    for version in [2usize, 3, 100, usize::MAX] {
        let e = storage.val_from("k", version).unwrap_err();
        assert_eq!(e.kind, ErrorKind::NotFound);
        assert_eq!(e.message, "Item not found");
    }
    assert_eq!(storage.get_cur_ver(), 2);
}

#[test]
fn version_count_follows_the_changes() {
    let mut storage = Storage::new();
    storage.insert("a", "1").unwrap();
    storage.insert("b", "2").unwrap();
    assert!(storage.delete("missing").is_err());
    storage.delete("a").unwrap();
    storage.flush().unwrap();
    let _ = storage.get("b");
    let _ = storage.val_from("b", 1);
    // one version to start with, then four changes that took effect
    assert_eq!(storage.get_cur_ver(), 5);
}
