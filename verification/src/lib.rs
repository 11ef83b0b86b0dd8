//! A small key-value server speaking a subset of the Redis protocol.
pub mod commands;
pub mod laws;
pub mod resp;
pub mod roundtrip;
pub mod server;
pub mod store;
pub mod text;
pub mod types;
