//! The key-value store: families, upsert, delete, key listing.

use lakecat::store::Database;

#[test]
fn test_database_operations() {
    let mut db = Database::open().unwrap();

    let key = b"key1".to_vec();
    let value = b"value1".to_vec();
    db.insert("NamespaceData", &key, &value).unwrap();

    let retrieved_value = db.get("NamespaceData", &key).unwrap();
    assert_eq!(retrieved_value, Some(b"value1".to_vec()));

    let updated_value = b"updated_value1".to_vec();
    db.update("NamespaceData", &key, &updated_value).unwrap();
    let retrieved_value = db.get("NamespaceData", &key).unwrap();
    assert_eq!(retrieved_value, Some(b"updated_value1".to_vec()));

    db.delete("NamespaceData", &key).unwrap();
    let retrieved_value = db.get("NamespaceData", &key).unwrap();
    assert_eq!(retrieved_value, None);
}

#[test]
fn test_database_operations_negative_paths() {
    let mut db = Database::open().unwrap();

    let non_existing_key = b"non_existing_key".to_vec();
    let retrieved_value = db.get("NamespaceData", &non_existing_key).unwrap();
    assert_eq!(retrieved_value, None);

    let updated_value = b"updated_value1".to_vec();
    db.update("NamespaceData", &non_existing_key, &updated_value)
        .unwrap();
    let retrieved_value = db.get("NamespaceData", &non_existing_key).unwrap();
    assert_eq!(retrieved_value, Some(b"updated_value1".to_vec()));

    db.delete("NamespaceData", &non_existing_key).unwrap();
    let retrieved_value = db.get("NamespaceData", &non_existing_key).unwrap();
    assert_eq!(retrieved_value, None);

    let non_existing_cf = "non_existing_cf";
    let key = b"key1".to_vec();
    let value = b"value1".to_vec();
    assert!(db.insert(non_existing_cf, &key, &value).is_err());
    assert!(db.get(non_existing_cf, &key).is_err());
    assert!(db.update(non_existing_cf, &key, &value).is_err());
    assert!(db.delete(non_existing_cf, &key).is_err());
    assert!(db.list_all_keys(non_existing_cf).is_err());
}

#[test]
fn test_list_all_keys_orders_by_insertion() {
    let mut db = Database::open().unwrap();
    db.insert("TableData", &b"b".to_vec(), &b"1".to_vec()).unwrap();
    db.insert("TableData", &b"a".to_vec(), &b"2".to_vec()).unwrap();
    db.insert("TableData", &b"c".to_vec(), &b"3".to_vec()).unwrap();

    let keys = db.list_all_keys("TableData").unwrap();
    assert_eq!(keys, vec![b"b".to_vec(), b"a".to_vec(), b"c".to_vec()]);

    db.delete("TableData", &b"a".to_vec()).unwrap();
    let keys = db.list_all_keys("TableData").unwrap();
    assert_eq!(keys, vec![b"b".to_vec(), b"c".to_vec()]);
}

#[test]
fn test_families_are_independent() {
    let mut db = Database::open().unwrap();
    let key = b"shared".to_vec();
    db.insert("NamespaceData", &key, &b"ns".to_vec()).unwrap();
    db.insert("TableData", &key, &b"tbl".to_vec()).unwrap();
    db.insert("TableNamespaceMap", &key, &b"idx".to_vec()).unwrap();

    assert_eq!(db.get("NamespaceData", &key).unwrap(), Some(b"ns".to_vec()));
    assert_eq!(db.get("TableData", &key).unwrap(), Some(b"tbl".to_vec()));
    assert_eq!(
        db.get("TableNamespaceMap", &key).unwrap(),
        Some(b"idx".to_vec())
    );

    db.delete("TableData", &key).unwrap();
    assert_eq!(db.get("TableData", &key).unwrap(), None);
    assert_eq!(db.get("NamespaceData", &key).unwrap(), Some(b"ns".to_vec()));

    db.close();
}
