//! A verified storage layer for a corpus of comics and their text chunks.
//!
//! Each chunk carries a fixed-dimension embedding vector, persisted as a
//! little-endian packed array of 32-bit words. The store enforces embedding
//! dimension checks before any row is written, referential integrity between
//! chunks and comics, all-or-nothing batch inserts, and ordered retrieval.
//! Every operation is specified against a mathematical model of the store and
//! proved against that model.

use vstd::prelude::*;

pub mod codec;
pub mod error;
pub mod laws;
pub mod models;
pub mod store;

pub use error::DatabaseError;
pub use models::{ChunkSearchResult, Chunks, Comics, Metadata, SectionType};
pub use store::Database;

verus! {

/// The dimension every embedding vector must have. It must equal the vector
/// column's declared width in the storage schema.
pub const EMBEDDING_DIM: usize = 1024;

} // verus!
