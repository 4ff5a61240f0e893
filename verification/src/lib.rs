//! An in-memory key-value service core: a decoder for a binary-safe,
//! length-prefixed wire protocol, an encoder for its replies, a string store,
//! and the command dispatcher that ties them together. Connection handling and
//! transport I/O live outside this library.

pub mod formatter;
pub mod laws;
pub mod req_handler;
pub mod store;
pub mod text;
pub mod tokenize;
