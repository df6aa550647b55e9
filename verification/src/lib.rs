//! The decisions of a replicated key-value store's programs, verified.
pub mod benchmark;
pub mod client;
pub mod entries;
pub mod gather;
pub mod gateway;
pub mod laws;
pub mod log_manager;
pub mod scan;
pub mod server;
pub mod text;
