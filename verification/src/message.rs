//! What a message is: the envelope, the body, and who handles it.
pub mod dispatch;
pub mod envelope;
pub mod error;
pub mod laws;
pub mod payload;
