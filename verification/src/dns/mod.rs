//! First-generation DNS resolution: the record index and the request handlers.
pub mod handler;
pub mod metrics_handler;
pub mod record_index;
