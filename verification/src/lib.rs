//! Control messages of Media over QUIC Transport (the SUBSCRIBE message, its
//! parameters, track namespaces and variable-length integers) with the decisions of a
//! publishing client.
pub mod args;
pub mod buffer;
pub mod error;
pub mod parameter;
pub mod payload;
pub mod publisher;
pub mod subscribe;
pub mod tuple;
pub mod varint;
