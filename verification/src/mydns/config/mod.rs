//! Runtime configuration: resolver settings, the INI and TOML file formats,
//! and secret generation.
pub mod ini;
pub mod secret;
pub mod toml;
pub mod types;

pub use secret::generate_secret;
pub use types::{ConfigError, FileSettings, IniFault, IpValue, ResolverMode, ResolverPriority, SocketValue};
