//! The catalog's repositories: namespace lifecycle and property
//! mutation, and table lifecycle with the namespace-to-tables index and
//! rename.

pub mod namespace;
pub mod table;
