use rxterm::registry::SessionTable;

#[test]
fn table_respects_its_cap() {
    let mut t: SessionTable<u32> = SessionTable::new(2);
    assert!(t.try_insert("a".to_string(), 1).is_ok());
    assert!(t.try_insert("b".to_string(), 2).is_ok());
    assert_eq!(t.try_insert("c".to_string(), 3), Err(3));
    assert_eq!(t.len(), 2);
    assert_eq!(t.get("c"), None);
}

#[test]
fn table_lookup_and_remove() {
    let mut t: SessionTable<&str> = SessionTable::new(8);
    t.try_insert("x".to_string(), "one").unwrap();
    t.try_insert("y".to_string(), "two").unwrap();
    assert_eq!(t.get("x"), Some(&"one"));
    assert_eq!(t.remove("x"), Some("one"));
    assert_eq!(t.get("x"), None);
    assert_eq!(t.remove("x"), None);
    assert_eq!(t.get("y"), Some(&"two"));
    assert_eq!(t.len(), 1);
}

#[test]
fn table_insert_same_id_replaces() {
    let mut t: SessionTable<u8> = SessionTable::new(8);
    t.try_insert("x".to_string(), 1).unwrap();
    t.try_insert("x".to_string(), 2).unwrap();
    assert_eq!(t.len(), 1);
    assert_eq!(t.get("x"), Some(&2));
}
