//! Row and payload types of the server's database, and the validation
//! applied before rows are written.
pub mod blocklist;
pub mod cache;
pub mod records;
pub mod zones;
