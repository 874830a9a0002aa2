//! A small to-do list library: an in-memory state store holding two ordered
//! lists of items (pending and completed) plus a text-entry buffer, and a
//! persistence codec that renders the two lists as a JSON document and reads
//! such a document back.

pub mod codec;
pub mod state;
