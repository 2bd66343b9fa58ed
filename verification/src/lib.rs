//! A small key-value service: the wire protocol, the per-connection
//! buffering state machine, the key-value store and the request handler.
//! Sockets, polling and argument handling live outside this library.
pub mod error;
pub mod wire;
pub mod connection;
pub mod server;
