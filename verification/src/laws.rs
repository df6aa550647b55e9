//! What the operations promise, stated of the arguments that they are called with and of what they
//! return.
//!
//! Each law takes the arguments and the result of a call, and holds of every call.
pub mod benchmark;
pub mod client;
pub mod gateway;
pub mod log_manager;
pub mod scan;
pub mod server;
