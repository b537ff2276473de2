//! The current generation of the server's modules.
pub mod api;
pub mod cache;
pub mod config;
pub mod db;
pub mod dns;
pub mod error;
