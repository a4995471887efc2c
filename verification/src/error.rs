//! Error kinds surfaced by the engine.

use vstd::prelude::*;

verus! {

/// What can go wrong: validation failures first, then lookup, conflict,
/// storage, resource and authorization failures.
#[derive(Clone, Copy, Debug, PartialEq, Eq, Structural)]
pub enum IggyError {
    InvalidIdentifier,
    InvalidMessagePayloadLength,
    TooBigHeadersPayload,
    InvalidOffset,
    InvalidPartitioning,
    InvalidHeaderKey,
    InvalidHeaderValue,
    StreamNotFound,
    TopicNotFound,
    PartitionNotFound,
    ConsumerOffsetNotFound,
    StreamAlreadyExists,
    TopicAlreadyExists,
    InvalidNumberEncoding,
    CorruptedIndex,
    CannotAppendMessages,
    CannotReadMessage,
    SegmentFull,
    CacheFull,
    Unauthenticated,
    Forbidden,
}

/// The groups that errors fall into.
#[derive(Clone, Copy, Debug, PartialEq, Eq, Structural)]
pub enum ErrorKind {
    /// The request itself is at fault; nothing was looked up or stored.
    Validation,
    /// The request addresses something that does not exist.
    NotFound,
    /// The request would create what already exists.
    Conflict,
    /// Stored bytes could not be written or read.
    Storage,
    /// A bounded resource is used up.
    Resource,
    /// The caller may not do this.
    Authorization,
}

impl IggyError {
    /// The group of an error.
    pub open spec fn group(self) -> ErrorKind {
        match self {
            IggyError::InvalidIdentifier
            | IggyError::InvalidMessagePayloadLength
            | IggyError::TooBigHeadersPayload
            | IggyError::InvalidOffset
            | IggyError::InvalidPartitioning
            | IggyError::InvalidHeaderKey
            | IggyError::InvalidHeaderValue => ErrorKind::Validation,
            IggyError::StreamNotFound
            | IggyError::TopicNotFound
            | IggyError::PartitionNotFound
            | IggyError::ConsumerOffsetNotFound => ErrorKind::NotFound,
            IggyError::StreamAlreadyExists | IggyError::TopicAlreadyExists => ErrorKind::Conflict,
            IggyError::InvalidNumberEncoding
            | IggyError::CorruptedIndex
            | IggyError::CannotAppendMessages
            | IggyError::CannotReadMessage => ErrorKind::Storage,
            IggyError::SegmentFull | IggyError::CacheFull => ErrorKind::Resource,
            IggyError::Unauthenticated | IggyError::Forbidden => ErrorKind::Authorization,
        }
    }

    /// Returns the group of the error.
    pub fn kind(&self) -> (kind: ErrorKind)
        ensures
            kind == self.group(),
    {
        match self {
            IggyError::InvalidIdentifier
            | IggyError::InvalidMessagePayloadLength
            | IggyError::TooBigHeadersPayload
            | IggyError::InvalidOffset
            | IggyError::InvalidPartitioning
            | IggyError::InvalidHeaderKey
            | IggyError::InvalidHeaderValue => ErrorKind::Validation,
            IggyError::StreamNotFound
            | IggyError::TopicNotFound
            | IggyError::PartitionNotFound
            | IggyError::ConsumerOffsetNotFound => ErrorKind::NotFound,
            IggyError::StreamAlreadyExists | IggyError::TopicAlreadyExists => ErrorKind::Conflict,
            IggyError::InvalidNumberEncoding
            | IggyError::CorruptedIndex
            | IggyError::CannotAppendMessages
            | IggyError::CannotReadMessage => ErrorKind::Storage,
            IggyError::SegmentFull | IggyError::CacheFull => ErrorKind::Resource,
            IggyError::Unauthenticated | IggyError::Forbidden => ErrorKind::Authorization,
        }
    }
}

} // verus!
