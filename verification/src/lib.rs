//! A metadata catalog for a tabular data lake.
//!
//! The catalog tracks namespaces (hierarchical naming scopes) and the tables
//! registered under them.  Records live in an ordered key-value store
//! organised into independent record families; all record and key encodings
//! are defined and proved here, and the repository layer maintains the
//! cross-record invariants (a table record and its entry in the namespace
//! index appear and disappear together) on top of primitive get/put/delete
//! operations.

pub mod codec;
pub mod dto;
pub mod error;
pub mod ident;
pub mod model;
pub mod props;
pub mod repository;
pub mod store;
