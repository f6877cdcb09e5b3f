//! Message layer of a node speaking a line-delimited JSON request/response
//! protocol: envelope and body data model, response derivation, dispatch with
//! request/reply correlation, a closed error taxonomy, and a verified codec
//! for the wire grammar.

pub mod codec;
pub mod message;
pub mod node;
