//! The error taxonomy of the storage layer.
//!
//! Every public operation returns either a success value or one of these
//! kinds, so callers can branch on absence, conflict or validation failure
//! instead of a generic failure. Kinds that only an engine-backed deployment
//! can produce (connection, prepared-statement, transaction failures and the
//! like) are part of the taxonomy so such a deployment can map its failures
//! onto the same type.

use vstd::prelude::*;

verus! {

#[derive(Debug, PartialEq, Eq)]
pub enum DatabaseError {
    /// Opening a storage location failed, or an existing location did not
    /// carry the expected initialization marker.
    InitializationError(String),
    /// Connecting to the storage engine failed.
    Connection(String),
    /// The schema was never initialized at this location.
    NotInitialized,
    /// A comic number was rejected.
    InvalidComicNumber(u64),
    /// An embedding's length differed from the configured dimension.
    InvalidEmbeddingDimension { expected: usize, actual: usize },
    /// A chunk index was rejected.
    InvalidChunkIndex(u64),
    /// A content field was empty or malformed.
    InvalidContent(String),
    /// No comic with this number exists.
    ComicNotFound(u64),
    /// No chunk with this identifier exists.
    ChunkNotFound(u64),
    /// A comic with this number already exists.
    ComicAlreadyExists(u64),
    /// A chunk referenced this comic number, but no such comic exists.
    ConstraintViolation(u64),
    /// Preparing a statement failed.
    PreparedFailed(String),
    /// Executing a query failed.
    QueryFailed(String),
    /// A row could not be read back into a value.
    RowParseFailed(String),
    /// A transaction could not be opened, committed or rolled back.
    TransactionFailed(String),
    /// A nearest-neighbor query failed inside the engine.
    VectorSearchFailed(String),
    /// No metadata entry exists under this key.
    MetadataNotFound(String),
    /// A metadata value could not be parsed.
    MetaParseFailed(String),
    /// A value could not be serialized or deserialized.
    Serialization(String),
    /// A persisted section-type name was not one of the known names.
    InvalidSectionType(String),
    /// The store holds no comics at all.
    NoComicsFound,
}

impl DatabaseError {
    /// A short, stable name for the kind of this error.
    pub fn kind_name(&self) -> (r: &'static str)
        ensures
            r@ == self.spec_kind_name(),
    {
        match self {
            DatabaseError::InitializationError(_) => "initialization error",
            DatabaseError::Connection(_) => "connection error",
            DatabaseError::NotInitialized => "not initialized",
            DatabaseError::InvalidComicNumber(_) => "invalid comic number",
            DatabaseError::InvalidEmbeddingDimension { .. } => "invalid embedding dimension",
            DatabaseError::InvalidChunkIndex(_) => "invalid chunk index",
            DatabaseError::InvalidContent(_) => "invalid content",
            DatabaseError::ComicNotFound(_) => "comic not found",
            DatabaseError::ChunkNotFound(_) => "chunk not found",
            DatabaseError::ComicAlreadyExists(_) => "comic already exists",
            DatabaseError::ConstraintViolation(_) => "constraint violation",
            DatabaseError::PreparedFailed(_) => "prepared statement failed",
            DatabaseError::QueryFailed(_) => "query failed",
            DatabaseError::RowParseFailed(_) => "row parse failed",
            DatabaseError::TransactionFailed(_) => "transaction failed",
            DatabaseError::VectorSearchFailed(_) => "vector search failed",
            DatabaseError::MetadataNotFound(_) => "metadata not found",
            DatabaseError::MetaParseFailed(_) => "metadata parse failed",
            DatabaseError::Serialization(_) => "serialization failed",
            DatabaseError::InvalidSectionType(_) => "invalid section type",
            DatabaseError::NoComicsFound => "no comics found",
        }
    }

    /// The name `kind_name` returns, as a sequence of characters.
    pub open spec fn spec_kind_name(&self) -> Seq<char> {
        match self {
            DatabaseError::InitializationError(_) => "initialization error"@,
            DatabaseError::Connection(_) => "connection error"@,
            DatabaseError::NotInitialized => "not initialized"@,
            DatabaseError::InvalidComicNumber(_) => "invalid comic number"@,
            DatabaseError::InvalidEmbeddingDimension { .. } => "invalid embedding dimension"@,
            DatabaseError::InvalidChunkIndex(_) => "invalid chunk index"@,
            DatabaseError::InvalidContent(_) => "invalid content"@,
            DatabaseError::ComicNotFound(_) => "comic not found"@,
            DatabaseError::ChunkNotFound(_) => "chunk not found"@,
            DatabaseError::ComicAlreadyExists(_) => "comic already exists"@,
            DatabaseError::ConstraintViolation(_) => "constraint violation"@,
            DatabaseError::PreparedFailed(_) => "prepared statement failed"@,
            DatabaseError::QueryFailed(_) => "query failed"@,
            DatabaseError::RowParseFailed(_) => "row parse failed"@,
            DatabaseError::TransactionFailed(_) => "transaction failed"@,
            DatabaseError::VectorSearchFailed(_) => "vector search failed"@,
            DatabaseError::MetadataNotFound(_) => "metadata not found"@,
            DatabaseError::MetaParseFailed(_) => "metadata parse failed"@,
            DatabaseError::Serialization(_) => "serialization failed"@,
            DatabaseError::InvalidSectionType(_) => "invalid section type"@,
            DatabaseError::NoComicsFound => "no comics found"@,
        }
    }
}

} // verus!
