//! Versioned, multi-reader shared state over chunks.
pub mod batches;
pub mod borrow;
pub mod census;
pub mod chain;
pub mod commit;
pub mod commit_laws;
pub mod config;
pub mod error;
pub mod event;
pub mod handle;
pub mod handshake;
pub mod head;
pub mod head_laws;
pub mod install;
pub mod journal;
pub mod laws;
pub mod lease;
pub mod live;
pub mod manifest;
pub mod manifest_laws;
pub mod newer;
pub mod pin;
pub mod policy;
pub mod pool;
pub mod read_laws;
pub mod reader_laws;
pub mod reading;
pub mod record;
pub mod refusal_laws;
pub mod round_trip;
pub mod rows;
pub mod service;
pub mod service_laws;
pub mod staging;
pub mod table;
pub mod watch;
pub mod window;
pub mod window_laws;
