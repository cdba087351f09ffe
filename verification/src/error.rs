//! The error taxonomy every operation of the core reports through.

use vstd::prelude::*;

verus! {

/// The model of an error value.
pub enum ErrM {
    TableNotFound(Seq<char>),
    ColumnNotFound(Seq<char>),
    TransactionNotFound(u64),
    TransactionNotActive,
    LockConflict(Seq<char>),
    Deadlock,
    WriteConflict,
    SerializationFailure,
    SavepointNotFound(Seq<char>),
    WalIoError(Seq<char>),
    LockAcquisitionFailed(Seq<char>),
    InvalidOperation(Seq<char>),
    Other(Seq<char>),
}

/// Everything that can go wrong while executing against the core.
#[derive(PartialEq, Eq, Debug)]
pub enum ReefDBError {
    /// The named table does not exist.
    TableNotFound(String),
    /// The named column does not exist.
    ColumnNotFound(String),
    /// No active transaction carries this id.
    TransactionNotFound(u64),
    /// The transaction exists but is not in the `Active` state.
    TransactionNotActive,
    /// A lock on the named table is held in a conflicting mode.
    LockConflict(String),
    /// The requester was chosen as a deadlock victim.
    Deadlock,
    /// Another live transaction has an uncommitted version on the key.
    WriteConflict,
    /// First-committer-wins detected a concurrent committed write.
    SerializationFailure,
    /// No savepoint of that name exists in the transaction.
    SavepointNotFound(String),
    /// The write-ahead log could not append.
    WalIoError(String),
    /// An internal guard could not be taken.
    LockAcquisitionFailed(String),
    /// The statement is not permitted in this context.
    InvalidOperation(String),
    /// Any other failure.
    Other(String),
}

impl DeepView for ReefDBError {
    type V = ErrM;

    open spec fn deep_view(&self) -> ErrM {
        match self {
            ReefDBError::TableNotFound(s) => ErrM::TableNotFound(s@),
            ReefDBError::ColumnNotFound(s) => ErrM::ColumnNotFound(s@),
            ReefDBError::TransactionNotFound(id) => ErrM::TransactionNotFound(*id),
            ReefDBError::TransactionNotActive => ErrM::TransactionNotActive,
            ReefDBError::LockConflict(s) => ErrM::LockConflict(s@),
            ReefDBError::Deadlock => ErrM::Deadlock,
            ReefDBError::WriteConflict => ErrM::WriteConflict,
            ReefDBError::SerializationFailure => ErrM::SerializationFailure,
            ReefDBError::SavepointNotFound(s) => ErrM::SavepointNotFound(s@),
            ReefDBError::WalIoError(s) => ErrM::WalIoError(s@),
            ReefDBError::LockAcquisitionFailed(s) => ErrM::LockAcquisitionFailed(s@),
            ReefDBError::InvalidOperation(s) => ErrM::InvalidOperation(s@),
            ReefDBError::Other(s) => ErrM::Other(s@),
        }
    }
}

} // verus!
