//! Actors: where messages live, who gets them, and how an ask is answered.
pub mod ask;
pub mod error;
pub mod exchange;
pub mod host;
pub mod laws;
pub mod mailbox;
pub mod pool;
