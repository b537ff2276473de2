//! DNS record, cache row and zone types of the first-generation database
//! layer; they are the same types as the current layer's.
pub use crate::mydns::db::cache::CacheRow;
pub use crate::mydns::db::records::{CreateRecord, DnsRecord, UpdateRecord};
pub use crate::mydns::db::zones::Zone;
