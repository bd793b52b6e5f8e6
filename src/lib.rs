//! An in-memory key-value server core: the wire-protocol codec, the
//! expiring keyspace, the command layer and the per-connection session.

pub mod decimal;
pub mod value;
pub mod parser;
pub mod laws;
pub mod store;
pub mod command;
pub mod session;
pub mod text;
