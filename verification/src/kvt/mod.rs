pub mod error;
pub mod types;
pub mod config;
pub mod memory;
pub mod transaction;
pub mod metacache;
