//! Storage core of a content-addressed blob store: an index from content
//! hashes to entries, its snapshot form, and the rules of a validation sweep.

pub mod database;
pub mod entry;
pub mod hash;
pub mod inmem;
pub mod order;
pub mod outboard;
pub mod snapshot;
pub mod store;
pub mod validate;
