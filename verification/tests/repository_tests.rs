//! The repositories against one shared store: lifecycle, the index
//! invariant, property diffs, rename, and the error taxonomy.

use lakecat::dto::{TableCreation, TableRenameRequest};
use lakecat::error::CatalogError;
use lakecat::ident::{NamespaceIdent, TableIdent};
use lakecat::props::{PropMap, PropValue};
use lakecat::repository::namespace::NamespaceRepository;
use lakecat::repository::table::TableRepository;
use lakecat::store::Database;

fn props_of(entries: &[(&str, &str)]) -> PropMap {
    let mut m = PropMap::new();
    for (k, v) in entries {
        m.insert(k.to_string(), PropValue::Str(v.to_string()));
    }
    m
}

#[test]
fn test_namespace_repository() {
    let mut db = Database::open().unwrap();
    let repo = NamespaceRepository::new();

    let namespace_ident = NamespaceIdent(vec!["test".to_string()]);
    let properties = Some(props_of(&[("property1", "value1")]));
    repo.create_namespace(&mut db, namespace_ident.clone(), properties)
        .unwrap();

    assert!(repo.namespace_exists(&db, &namespace_ident).unwrap());

    let namespace_data = repo
        .load_namespace(&db, &namespace_ident)
        .unwrap()
        .unwrap();
    assert_eq!(namespace_data.name, namespace_ident);
    assert_eq!(
        namespace_data.properties.get("property1"),
        Some(&PropValue::Str("value1".to_string()))
    );
    assert_eq!(namespace_data.properties.len(), 1);

    let removals = vec!["property1".to_string()];
    let updates = props_of(&[("property2", "value2")]);
    repo.set_namespace_properties(&mut db, namespace_ident.clone(), removals, updates)
        .unwrap();

    let updated_namespace_data = repo
        .load_namespace(&db, &namespace_ident)
        .unwrap()
        .unwrap();
    assert_eq!(updated_namespace_data.properties.get("property1"), None);
    assert_eq!(
        updated_namespace_data.properties.get("property2"),
        Some(&PropValue::Str("value2".to_string()))
    );
    assert_eq!(updated_namespace_data.properties.len(), 1);

    repo.delete_namespace(&mut db, &namespace_ident).unwrap();
    assert!(!repo.namespace_exists(&db, &namespace_ident).unwrap());
}

#[test]
fn test_namespace_repository_negative() {
    let mut db = Database::open().unwrap();
    let repo = NamespaceRepository::new();

    let non_existent_namespace = NamespaceIdent(vec!["non_existent".to_string()]);
    assert!(!repo.namespace_exists(&db, &non_existent_namespace).unwrap());

    assert!(repo
        .load_namespace(&db, &non_existent_namespace)
        .unwrap()
        .is_none());

    let updates = props_of(&[("property2", "value2")]);
    assert_eq!(
        repo.set_namespace_properties(&mut db, non_existent_namespace.clone(), vec![], updates)
            .unwrap_err(),
        CatalogError::NotFound
    );
}

#[test]
fn test_table_repository() {
    let mut db = Database::open().unwrap();
    let repo = TableRepository::new();

    let namespace_ident = NamespaceIdent(vec!["test".to_string()]);
    let namespace_repo = NamespaceRepository::new();
    namespace_repo
        .create_namespace(&mut db, namespace_ident.clone(), None)
        .unwrap();

    let table_creation = TableCreation {
        name: "table1".to_string(),
    };
    repo.create_table(&mut db, &namespace_ident, &table_creation)
        .unwrap();

    assert!(repo
        .table_exists(&db, &namespace_ident, "table1".to_string())
        .unwrap());

    let table = repo
        .load_table(&db, &namespace_ident, "table1".to_string())
        .unwrap()
        .unwrap();
    assert_eq!(table.id.name, "table1");

    let rename_request = TableRenameRequest {
        source: TableIdent::new(namespace_ident.clone(), "table1".to_string()),
        destination: TableIdent::new(namespace_ident.clone(), "table2".to_string()),
    };
    repo.rename_table(&mut db, &rename_request).unwrap();
    assert!(!repo
        .table_exists(&db, &namespace_ident, "table1".to_string())
        .unwrap());
    assert!(repo
        .table_exists(&db, &namespace_ident, "table2".to_string())
        .unwrap());

    repo.drop_table(&mut db, &namespace_ident, "table2".to_string())
        .unwrap();
    assert!(!repo
        .table_exists(&db, &namespace_ident, "table2".to_string())
        .unwrap());
}

#[test]
fn test_table_repository_negative() {
    let mut db = Database::open().unwrap();
    let repo = TableRepository::new();

    let non_existent_namespace = NamespaceIdent(vec!["non_existent".to_string()]);
    let table_creation = TableCreation {
        name: "table1".to_string(),
    };
    assert!(repo
        .create_table(&mut db, &non_existent_namespace, &table_creation)
        .is_err());
    assert!(repo
        .drop_table(&mut db, &non_existent_namespace, "table1".to_string())
        .is_err());

    let namespace_ident = NamespaceIdent(vec!["test".to_string()]);
    let namespace_repo = NamespaceRepository::new();
    namespace_repo
        .create_namespace(&mut db, namespace_ident.clone(), None)
        .unwrap();
    repo.create_table(&mut db, &namespace_ident, &table_creation)
        .unwrap();
    assert!(repo
        .create_table(&mut db, &namespace_ident, &table_creation)
        .is_err());

    let rename_request = TableRenameRequest {
        source: TableIdent::new(namespace_ident.clone(), "non_existent".to_string()),
        destination: TableIdent::new(namespace_ident.clone(), "table2".to_string()),
    };
    assert!(repo.rename_table(&mut db, &rename_request).is_err());

    let rename_request = TableRenameRequest {
        source: TableIdent::new(namespace_ident.clone(), "table1".to_string()),
        destination: TableIdent::new(namespace_ident.clone(), "table1".to_string()),
    };
    assert!(repo.rename_table(&mut db, &rename_request).is_err());
}

#[test]
fn test_create_exists_delete_cycle() {
    let mut db = Database::open().unwrap();
    let repo = NamespaceRepository::new();
    let ns = NamespaceIdent(vec!["cycle".to_string()]);

    repo.create_namespace(&mut db, ns.clone(), None).unwrap();
    assert!(repo.namespace_exists(&db, &ns).unwrap());

    repo.delete_namespace(&mut db, &ns).unwrap();
    assert!(!repo.namespace_exists(&db, &ns).unwrap());

    repo.delete_namespace(&mut db, &ns).unwrap();
    assert!(!repo.namespace_exists(&db, &ns).unwrap());
}

#[test]
fn test_default_namespace_properties() {
    let mut db = Database::open().unwrap();
    let repo = NamespaceRepository::new();
    let ns = NamespaceIdent(vec!["defaulted".to_string()]);
    repo.create_namespace(&mut db, ns.clone(), None).unwrap();
    let data = repo.load_namespace(&db, &ns).unwrap().unwrap();
    assert_eq!(
        data.properties.get("last_modified_time"),
        Some(&PropValue::Str("current_time".to_string()))
    );
}

#[test]
fn test_update_wins_over_removal() {
    let mut db = Database::open().unwrap();
    let repo = NamespaceRepository::new();
    let ns = NamespaceIdent(vec!["diff".to_string()]);
    repo.create_namespace(&mut db, ns.clone(), Some(props_of(&[("k", "old")])))
        .unwrap();

    let removals = vec!["k".to_string()];
    let updates = props_of(&[("k", "v")]);
    repo.set_namespace_properties(&mut db, ns.clone(), removals, updates)
        .unwrap();

    let data = repo.load_namespace(&db, &ns).unwrap().unwrap();
    assert_eq!(
        data.properties.get("k"),
        Some(&PropValue::Str("v".to_string()))
    );
}

#[test]
fn test_create_table_twice_already_exists() {
    let mut db = Database::open().unwrap();
    let ns_repo = NamespaceRepository::new();
    let repo = TableRepository::new();
    let ns = NamespaceIdent(vec!["ns".to_string()]);
    ns_repo.create_namespace(&mut db, ns.clone(), None).unwrap();

    let creation = TableCreation {
        name: "t".to_string(),
    };
    repo.create_table(&mut db, &ns, &creation).unwrap();
    assert_eq!(
        repo.create_table(&mut db, &ns, &creation).unwrap_err(),
        CatalogError::AlreadyExists
    );
}

#[test]
fn test_rename_error_cases() {
    let mut db = Database::open().unwrap();
    let ns_repo = NamespaceRepository::new();
    let repo = TableRepository::new();
    let ns = NamespaceIdent(vec!["r".to_string()]);
    ns_repo.create_namespace(&mut db, ns.clone(), None).unwrap();
    repo.create_table(&mut db, &ns, &TableCreation { name: "a".to_string() })
        .unwrap();
    repo.create_table(&mut db, &ns, &TableCreation { name: "b".to_string() })
        .unwrap();

    let a_before = repo.load_table(&db, &ns, "a".to_string()).unwrap().unwrap();

    let to_existing = TableRenameRequest {
        source: TableIdent::new(ns.clone(), "a".to_string()),
        destination: TableIdent::new(ns.clone(), "b".to_string()),
    };
    assert_eq!(
        repo.rename_table(&mut db, &to_existing).unwrap_err(),
        CatalogError::AlreadyExists
    );
    let a_after = repo.load_table(&db, &ns, "a".to_string()).unwrap().unwrap();
    assert_eq!(a_after.id, a_before.id);
    assert_eq!(a_after.metadata, a_before.metadata);

    let from_missing = TableRenameRequest {
        source: TableIdent::new(ns.clone(), "missing".to_string()),
        destination: TableIdent::new(ns.clone(), "c".to_string()),
    };
    assert_eq!(
        repo.rename_table(&mut db, &from_missing).unwrap_err(),
        CatalogError::NotFound
    );
}

#[test]
fn test_sales_orders_scenario() {
    let mut db = Database::open().unwrap();
    let ns_repo = NamespaceRepository::new();
    let repo = TableRepository::new();

    let sales = NamespaceIdent(vec!["sales".to_string()]);
    ns_repo
        .create_namespace(&mut db, sales.clone(), Some(props_of(&[("owner", "x")])))
        .unwrap();
    repo.create_table(&mut db, &sales, &TableCreation { name: "orders".to_string() })
        .unwrap();

    let listed = repo.list_all_tables(&db, &sales).unwrap().unwrap();
    assert_eq!(
        listed,
        vec![TableIdent::new(sales.clone(), "orders".to_string())]
    );

    let rename = TableRenameRequest {
        source: TableIdent::new(sales.clone(), "orders".to_string()),
        destination: TableIdent::new(sales.clone(), "orders2".to_string()),
    };
    repo.rename_table(&mut db, &rename).unwrap();
    assert!(!repo.table_exists(&db, &sales, "orders".to_string()).unwrap());
    assert!(repo.table_exists(&db, &sales, "orders2".to_string()).unwrap());

    repo.drop_table(&mut db, &sales, "orders2".to_string()).unwrap();
    let listed = repo.list_all_tables(&db, &sales).unwrap().unwrap();
    assert_eq!(listed, Vec::<TableIdent>::new());
}

#[test]
fn test_set_properties_on_absent_namespace() {
    let mut db = Database::open().unwrap();
    let repo = NamespaceRepository::new();
    let a = NamespaceIdent(vec!["a".to_string()]);
    assert_eq!(
        repo.set_namespace_properties(&mut db, a, vec![], PropMap::new())
            .unwrap_err(),
        CatalogError::NotFound
    );
}

#[test]
fn test_index_matches_records_after_operations() {
    let mut db = Database::open().unwrap();
    let ns_repo = NamespaceRepository::new();
    let repo = TableRepository::new();
    let ns = NamespaceIdent(vec!["inv".to_string()]);
    ns_repo.create_namespace(&mut db, ns.clone(), None).unwrap();

    repo.create_table(&mut db, &ns, &TableCreation { name: "t1".to_string() })
        .unwrap();
    repo.create_table(&mut db, &ns, &TableCreation { name: "t2".to_string() })
        .unwrap();
    repo.rename_table(
        &mut db,
        &TableRenameRequest {
            source: TableIdent::new(ns.clone(), "t1".to_string()),
            destination: TableIdent::new(ns.clone(), "t3".to_string()),
        },
    )
    .unwrap();
    repo.drop_table(&mut db, &ns, "t2".to_string()).unwrap();

    // The set listed for the namespace is exactly the set of loadable
    // tables.
    let listed = repo.list_all_tables(&db, &ns).unwrap().unwrap();
    assert_eq!(listed, vec![TableIdent::new(ns.clone(), "t3".to_string())]);
    for t in &listed {
        assert!(repo
            .load_table(&db, &ns, t.name.clone())
            .unwrap()
            .is_some());
    }
    for name in ["t1", "t2"] {
        assert!(repo
            .load_table(&db, &ns, name.to_string())
            .unwrap()
            .is_none());
    }
}

#[test]
fn test_list_all_namespaces_round_trips_keys() {
    let mut db = Database::open().unwrap();
    let repo = NamespaceRepository::new();
    let a = NamespaceIdent(vec!["accounting".to_string(), "tax".to_string()]);
    let b = NamespaceIdent(vec!["sales".to_string()]);
    repo.create_namespace(&mut db, a.clone(), None).unwrap();
    repo.create_namespace(&mut db, b.clone(), None).unwrap();

    let listed = repo.list_all_namespaces(&db).unwrap();
    assert_eq!(listed, vec![a, b]);
}

#[test]
fn test_corrupt_record_is_a_serialization_error() {
    let mut db = Database::open().unwrap();
    let repo = NamespaceRepository::new();
    let ns = NamespaceIdent(vec!["broken".to_string()]);
    let key = ns.key_bytes();
    // A raw write of bytes that no property bag encodes to.
    db.insert("NamespaceData", &key, &b"key-without-separator".to_vec())
        .unwrap();

    assert_eq!(
        repo.load_namespace(&db, &ns).unwrap_err(),
        CatalogError::Serialization
    );
    assert_eq!(
        repo.set_namespace_properties(&mut db, ns.clone(), vec![], PropMap::new())
            .unwrap_err(),
        CatalogError::Serialization
    );
}

#[test]
fn test_corrupt_table_records_are_serialization_errors() {
    let mut db = Database::open().unwrap();
    let ns_repo = NamespaceRepository::new();
    let repo = TableRepository::new();
    let ns = NamespaceIdent(vec!["corrupt".to_string()]);
    ns_repo.create_namespace(&mut db, ns.clone(), None).unwrap();

    // An index record that decodes as no table-identity list.
    db.insert("TableNamespaceMap", &ns.key_bytes(), &b"x".to_vec())
        .unwrap();
    assert_eq!(
        repo.list_all_tables(&db, &ns).unwrap_err(),
        CatalogError::Serialization
    );
    assert_eq!(
        repo.create_table(&mut db, &ns, &TableCreation { name: "t".to_string() })
            .unwrap_err(),
        CatalogError::Serialization
    );

    // A table record whose value is not valid UTF-8.
    let tid = TableIdent::new(ns.clone(), "t".to_string());
    db.insert("TableData", &tid.key_bytes(), &vec![0xFF])
        .unwrap();
    assert_eq!(
        repo.load_table(&db, &ns, "t".to_string()).unwrap_err(),
        CatalogError::Serialization
    );
    assert_eq!(
        repo.table_exists(&db, &ns, "t".to_string()).unwrap_err(),
        CatalogError::Serialization
    );
}

#[test]
fn test_list_tables_without_index_record() {
    let mut db = Database::open().unwrap();
    let ns_repo = NamespaceRepository::new();
    let repo = TableRepository::new();
    let ns = NamespaceIdent(vec!["fresh".to_string()]);
    ns_repo.create_namespace(&mut db, ns.clone(), None).unwrap();

    // The namespace exists but was never indexed: no error, no entries.
    assert_eq!(repo.list_all_tables(&db, &ns).unwrap(), None);
}
