//! Result and error types of the note store.
use vstd::prelude::*;

use crate::entities::{NoteId, PeerId};
use crate::sync::{SyncResponse, SyncResponseV};

verus! {

/// Refusals of the store's tables, as a relational store reports them.
#[derive(Clone, Copy, Debug, PartialEq, Eq, Structural)]
pub enum DbError {
    /// A lookup of a single row found none.
    QueryReturnedNoRows,
    /// A row would duplicate a key that must be unique.
    UniqueConstraintFailed,
    /// A row would refer to a note that does not exist.
    ForeignKeyConstraintFailed,
    /// A value that must be present is missing (such as the rank of a note).
    NullValue,
}

/// Errors of the note store and of the sync protocol.
#[derive(Debug)]
pub enum ShizenError {
    ErrorCreatingDb(String),
    ErrorOpeningDb(String),
    RusqliteError(DbError),
    UuidError(uuid::Error),
    NoSuchNote(NoteId),
    UnexpectedMutationResult(usize, usize),
    /// Parent (0) -> Child (1)
    ParentCircularReference(NoteId, NoteId),
    /// Blocker (0) -> Blockee (1)
    DependencyCircularReference(NoteId, NoteId),
    /// Blocker (0) -> Blockee (1)
    NoSuchDependency(NoteId, NoteId),
    CouldNotLockDatabase,
    SerdeError(String),
    PeerTcpConnectionFailed(String),
    UnexpectedSyncProtocolResponse(String, SyncResponse),
    CannotBePeerOfSelf,
    PeerAlreadyExists(PeerId),
    InvalidRankAdjustment,
    /// The two neighbours of a move have the same rank: no rank lies between.
    NoRankBetween,
    LexorankParseError(lexorank::error::ParseError),
}

pub type ShizenResult<T> = Result<T, ShizenError>;

/// The value of a [`ShizenError`]: its kind with the ids, messages and
/// response it holds. The errors of the `uuid` and `lexorank` crates are
/// opaque values, so only their kind is kept.
pub enum ErrorV {
    ErrorCreatingDb(Seq<char>),
    ErrorOpeningDb(Seq<char>),
    Db(DbError),
    Uuid,
    NoSuchNote(NoteId),
    UnexpectedMutationResult(usize, usize),
    ParentCircularReference(NoteId, NoteId),
    DependencyCircularReference(NoteId, NoteId),
    NoSuchDependency(NoteId, NoteId),
    CouldNotLockDatabase,
    Serde(Seq<char>),
    PeerTcpConnectionFailed(Seq<char>),
    UnexpectedSyncProtocolResponse(Seq<char>, SyncResponseV),
    CannotBePeerOfSelf,
    PeerAlreadyExists(PeerId),
    InvalidRankAdjustment,
    NoRankBetween,
    LexorankParse,
}

impl View for ShizenError {
    type V = ErrorV;

    open spec fn view(&self) -> ErrorV {
        match self {
            ShizenError::ErrorCreatingDb(m) => ErrorV::ErrorCreatingDb(m@),
            ShizenError::ErrorOpeningDb(m) => ErrorV::ErrorOpeningDb(m@),
            ShizenError::RusqliteError(e) => ErrorV::Db(*e),
            ShizenError::UuidError(_) => ErrorV::Uuid,
            ShizenError::NoSuchNote(n) => ErrorV::NoSuchNote(*n),
            ShizenError::UnexpectedMutationResult(a, b) => ErrorV::UnexpectedMutationResult(*a, *b),
            ShizenError::ParentCircularReference(a, b) => ErrorV::ParentCircularReference(*a, *b),
            ShizenError::DependencyCircularReference(a, b) => ErrorV::DependencyCircularReference(
                *a,
                *b,
            ),
            ShizenError::NoSuchDependency(a, b) => ErrorV::NoSuchDependency(*a, *b),
            ShizenError::CouldNotLockDatabase => ErrorV::CouldNotLockDatabase,
            ShizenError::SerdeError(m) => ErrorV::Serde(m@),
            ShizenError::PeerTcpConnectionFailed(m) => ErrorV::PeerTcpConnectionFailed(m@),
            ShizenError::UnexpectedSyncProtocolResponse(m, r) =>
                ErrorV::UnexpectedSyncProtocolResponse(m@, r@),
            ShizenError::CannotBePeerOfSelf => ErrorV::CannotBePeerOfSelf,
            ShizenError::PeerAlreadyExists(p) => ErrorV::PeerAlreadyExists(*p),
            ShizenError::InvalidRankAdjustment => ErrorV::InvalidRankAdjustment,
            ShizenError::NoRankBetween => ErrorV::NoRankBetween,
            ShizenError::LexorankParseError(_) => ErrorV::LexorankParse,
        }
    }
}

} // verus!
