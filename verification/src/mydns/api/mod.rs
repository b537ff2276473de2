//! The computations behind the management API's endpoints.
pub mod cache;
pub mod stats;
