//! Identifier model: construction, validity, and the storage-key
//! round trip.

use lakecat::error::CatalogError;
use lakecat::ident::{NamespaceIdent, TableIdent};

#[test]
fn test_namespace_ident() {
    let id = vec!["test".to_string()];
    let namespace_ident = NamespaceIdent::new(id.clone());

    assert_eq!(namespace_ident.0, id);
}

#[test]
fn test_table_ident() {
    let namespace = NamespaceIdent(vec!["namespace".to_string()]);
    let name = "table".to_string();
    let table_ident = TableIdent::new(namespace.clone(), name.clone());

    assert_eq!(table_ident.namespace, namespace);
    assert_eq!(table_ident.name, name);
}

#[test]
fn test_from_vec_rejects_empty() {
    assert_eq!(
        NamespaceIdent::from_vec(vec![]).unwrap_err(),
        CatalogError::DataInvalid
    );
    let ok = NamespaceIdent::from_vec(vec!["a".to_string(), "b".to_string()]).unwrap();
    assert_eq!(ok.0, vec!["a".to_string(), "b".to_string()]);
}

#[test]
fn test_from_strs_builds_idents() {
    let ns = NamespaceIdent::from_strs(vec!["accounting", "tax"]).unwrap();
    assert_eq!(ns.0, vec!["accounting".to_string(), "tax".to_string()]);
    assert_eq!(
        NamespaceIdent::from_strs(vec![]).unwrap_err(),
        CatalogError::DataInvalid
    );

    let t = TableIdent::from_strs(vec!["accounting", "tax", "paid"]).unwrap();
    assert_eq!(t.namespace.0, vec!["accounting".to_string(), "tax".to_string()]);
    assert_eq!(t.name, "paid");
    assert_eq!(
        TableIdent::from_strs(vec!["only"]).unwrap_err(),
        CatalogError::DataInvalid
    );
}

#[test]
fn test_namespace_key_round_trip() {
    let ns = NamespaceIdent(vec!["accounting".to_string(), "tax".to_string()]);
    let key = ns.key_bytes();
    assert_eq!(key, b"accounting\x1ftax".to_vec());
    let back = NamespaceIdent::from_key_bytes(&key).unwrap();
    assert_eq!(back, ns);
}

#[test]
fn test_table_key_round_trip() {
    let t = TableIdent::new(
        NamespaceIdent(vec!["sales".to_string()]),
        "orders".to_string(),
    );
    let key = t.key_bytes();
    assert_eq!(key, b"sales\x1forders".to_vec());
    let back = TableIdent::from_key_bytes(&key).unwrap();
    assert_eq!(back, t);
}

#[test]
fn test_table_key_needs_two_chunks() {
    assert!(TableIdent::from_key_bytes(&b"lonely".to_vec()).is_none());
}

#[test]
fn test_ident_validity() {
    assert!(NamespaceIdent(vec!["plain".to_string()]).is_valid());
    assert!(!NamespaceIdent(vec![]).is_valid());
    assert!(!NamespaceIdent(vec!["bad\u{1F}name".to_string()]).is_valid());

    let good = TableIdent::new(NamespaceIdent(vec!["a".to_string()]), "t".to_string());
    assert!(good.is_valid());
    let bad = TableIdent::new(NamespaceIdent(vec!["a".to_string()]), "t\u{1F}".to_string());
    assert!(!bad.is_valid());
}

#[test]
fn test_encode_in_url() {
    let ns = NamespaceIdent(vec!["a b".to_string(), "c".to_string()]);
    let url = ns.encode_in_url();
    assert_eq!(url, "a%20b%1Fc");

    let plain = NamespaceIdent(vec!["plain".to_string()]);
    assert_eq!(plain.encode_in_url(), "plain");
}

#[test]
fn test_inner_returns_components() {
    let ns = NamespaceIdent::new(vec!["x".to_string(), "y".to_string()]);
    assert_eq!(ns.inner(), vec!["x".to_string(), "y".to_string()]);
}
