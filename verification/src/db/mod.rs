//! First-generation database row types (shared with the current layer).
pub mod records;
