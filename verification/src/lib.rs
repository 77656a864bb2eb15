//! Client-side codec for the Segment wire protocol: a typed frame model, an
//! incremental byte-stream parser, a deterministic serializer, a generic
//! value-conversion layer, and the request/response command builder on top.

pub mod frame;
pub mod num;
pub mod codec;
pub mod laws;
pub mod connection;
pub mod client;
pub mod command;
