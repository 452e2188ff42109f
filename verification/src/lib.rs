//! Typed messages, Arrow batches and versioned artifacts over shared chunks.
pub mod actor;
pub mod artifact;
pub mod batch;
pub mod bench;
pub mod chunk;
pub mod counting;
pub mod demo;
pub mod le;
pub mod message;
pub mod spike;
pub mod text;
pub mod text_laws;
