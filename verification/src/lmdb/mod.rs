pub mod config;
pub mod iterator;
pub mod transaction;
