//! Record and request shapes.

use lakecat::dto::{
    OperatorStatistics, SetNamespacePropertiesRequest, Table, TableCreation, TableMetadata,
    TableRenameRequest,
};
use lakecat::dto::NamespaceData;
use lakecat::ident::{NamespaceIdent, TableIdent};
use lakecat::props::{PropMap, PropValue};

#[test]
fn test_namespace_data() {
    let id = vec!["test".to_string()];
    let namespace_ident = NamespaceIdent::new(id.clone());
    let mut properties = PropMap::new();
    properties.insert("key".to_string(), PropValue::Str("value".to_string()));

    let namespace_data = NamespaceData {
        name: namespace_ident.clone(),
        properties,
    };

    assert_eq!(*namespace_data.get_name(), namespace_ident);
    assert_eq!(
        namespace_data.get_properties().get("key"),
        Some(&PropValue::Str("value".to_string()))
    );
}

#[test]
fn test_table_creation() {
    let name = "table".to_string();
    let table_creation = TableCreation { name: name.clone() };

    assert_eq!(table_creation.name, name);
}

#[test]
fn test_table_metadata() {
    let table_uuid = "uuid".to_string();
    let table_metadata = TableMetadata {
        table_uuid: table_uuid.clone(),
    };

    assert_eq!(table_metadata.table_uuid, table_uuid);
}

#[test]
fn test_table() {
    let id = TableIdent::new(
        NamespaceIdent(vec!["namespace".to_string()]),
        "table".to_string(),
    );
    let metadata = TableMetadata {
        table_uuid: "uuid".to_string(),
    };
    let table = Table {
        id: id.clone(),
        metadata: TableMetadata {
            table_uuid: "uuid".to_string(),
        },
    };

    assert_eq!(table.id, id);
    assert_eq!(table.metadata, metadata);
}

#[test]
fn test_table_rename_request() {
    let source = TableIdent {
        namespace: NamespaceIdent(vec!["source_namespace".to_string()]),
        name: "source_table".to_string(),
    };

    let destination = TableIdent {
        namespace: NamespaceIdent(vec!["destination_namespace".to_string()]),
        name: "destination_table".to_string(),
    };

    let request = TableRenameRequest {
        source,
        destination,
    };

    assert_eq!(request.source.namespace.0[0], "source_namespace");
    assert_eq!(request.source.name, "source_table");
    assert_eq!(request.destination.namespace.0[0], "destination_namespace");
    assert_eq!(request.destination.name, "destination_table");
}

#[test]
fn test_set_namespace_properties_request() {
    let removals = vec!["property1".to_string(), "property2".to_string()];
    let mut updates = PropMap::new();
    updates.insert("property3".to_string(), PropValue::Str("value3".to_string()));
    updates.insert("property4".to_string(), PropValue::Str("value4".to_string()));

    let request = SetNamespacePropertiesRequest { removals, updates };

    assert_eq!(request.removals[0], "property1");
    assert_eq!(request.removals[1], "property2");
    assert_eq!(
        request.updates.get("property3"),
        Some(&PropValue::Str("value3".to_string()))
    );
    assert_eq!(
        request.updates.get("property4"),
        Some(&PropValue::Str("value4".to_string()))
    );
}

#[test]
fn test_operator_statistics() {
    let operator_statistics = OperatorStatistics {
        operator_string: "test_operator".to_string(),
        cardinality_prev_result: 100,
    };

    assert_eq!(operator_statistics.operator_string, "test_operator");
    assert_eq!(operator_statistics.cardinality_prev_result, 100);
}
