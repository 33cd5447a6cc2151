//! The typed outcomes the engine reports instead of a result.

use vstd::prelude::*;

verus! {

/// The five classes of failure.
#[derive(Clone, Copy, Debug, PartialEq, Eq, Structural)]
pub enum ErrorKind {
    NotFound,
    InvalidInput,
    Conflict,
    ResourceExhausted,
    Internal,
}

/// Why an operation was not carried out.
#[derive(Clone, Copy, Debug, PartialEq, Eq, Structural)]
pub enum EngineError {
    /// No collection has that name.
    UnknownCollection,
    /// No live point has that id.
    UnknownPoint,
    /// A vector has the wrong length, or is the zero vector under the cosine.
    BadVector,
    /// A filter compares against something that is not a scalar, or holds a
    /// range without bounds or with its bounds inverted.
    BadFilter,
    /// A request that cannot be answered as it stands: a page of no
    /// points, a recommendation without a positive example, a collection
    /// without dimensions or segments.
    BadRequest,
    /// A collection of that name exists already.
    DuplicateCollection,
    /// The update is not newer than what is recorded.
    StaleVersion,
    /// The compute runtime is saturated or shutting down.
    Saturated,
    /// A segment's log could not be written.
    SegmentFailed,
    /// What was read back from disk cannot be applied.
    Corrupted,
}

impl EngineError {
    /// The class of each error.
    pub open spec fn class(self) -> ErrorKind {
        match self {
            EngineError::UnknownCollection => ErrorKind::NotFound,
            EngineError::UnknownPoint => ErrorKind::NotFound,
            EngineError::BadVector => ErrorKind::InvalidInput,
            EngineError::BadFilter => ErrorKind::InvalidInput,
            EngineError::BadRequest => ErrorKind::InvalidInput,
            EngineError::DuplicateCollection => ErrorKind::Conflict,
            EngineError::StaleVersion => ErrorKind::Conflict,
            EngineError::Saturated => ErrorKind::ResourceExhausted,
            EngineError::SegmentFailed => ErrorKind::Internal,
            EngineError::Corrupted => ErrorKind::Internal,
        }
    }

    /// The class the error belongs to.
    pub fn kind(&self) -> (r: ErrorKind)
        ensures
            r == self.class(),
    {
        match self {
            EngineError::UnknownCollection => ErrorKind::NotFound,
            EngineError::UnknownPoint => ErrorKind::NotFound,
            EngineError::BadVector => ErrorKind::InvalidInput,
            EngineError::BadFilter => ErrorKind::InvalidInput,
            EngineError::BadRequest => ErrorKind::InvalidInput,
            EngineError::DuplicateCollection => ErrorKind::Conflict,
            EngineError::StaleVersion => ErrorKind::Conflict,
            EngineError::Saturated => ErrorKind::ResourceExhausted,
            EngineError::SegmentFailed => ErrorKind::Internal,
            EngineError::Corrupted => ErrorKind::Internal,
        }
    }
}

} // verus!
