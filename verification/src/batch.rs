//! Columnar batches over chunks.
pub mod array;
pub mod error;
pub mod join;
pub mod layout;
pub mod outside;
pub mod pack;
pub mod plain;
pub mod schema;
pub mod schema_laws;
pub mod column;
pub mod write;
pub mod read;
pub mod rows;
pub mod join_laws;
pub mod layout_laws;
pub mod laws;
pub mod type_laws;
pub mod write_laws;
