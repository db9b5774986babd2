//! A single-node vector store: named collections of fixed-dimension vectors
//! with optional JSON payloads, point upsert, lookup and deletion, and exact
//! k-nearest-neighbour search.
//!
//! - [`codec`]: little-endian encoding of vectors for storage.
//! - [`index`]: exact selection of the nearest scored candidates.
//! - [`collection`]: the points of one collection, keyed by id.
//! - [`store`]: the registry of collections and the operations on it.
//! - [`api`]: request bodies, the response envelope and status codes.
//!
//! Vector components are the bit patterns of IEEE-754 single-precision
//! floats; the distance between two vectors is supplied by the caller.
use vstd::prelude::*;

pub mod api;
pub mod codec;
pub mod collection;
pub mod index;
pub mod store;

verus! {

} // verus!
