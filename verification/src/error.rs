//! Error types for the record store.
use crate::digest::hex_text;
use crate::text::{decimal, decimal_string, joined};
use crate::types::{RecordId, Sequence};
use vstd::prelude::*;
use vstd::string::*;

verus! {

/// Main error type for store operations.
#[allow(inconsistent_fields)]
#[derive(Debug)]
pub enum StoreError {
    Io(String),
    RecordNotFound(RecordId),
    BranchNotFound(String),
    BlobNotFound(crate::types::Hash),
    StateNotRegistered(String),
    StateExists(String),
    InvalidSequence(Sequence, Sequence),
    BranchExists(String),
    Serialization(String),
    Deserialization(String),
    Corruption(String),
    StrategyMismatch { expected: String, got: String },
    Locked,
    NotInitialized,
    InvalidFormat(String),
    ChecksumMismatch { expected: u32, got: u32 },
    HashMismatch { expected: crate::types::Hash, got: crate::types::Hash },
    Transaction(String),
    InvalidOperation(String),
    SubscriptionDropped,
    PayloadTooLarge { size: u64, limit: u64 },
    SequenceOverflow,
}

/// The error with its texts as character sequences.
#[allow(inconsistent_fields)]
pub enum ErrorView {
    Io(Seq<char>),
    RecordNotFound(RecordId),
    BranchNotFound(Seq<char>),
    BlobNotFound(Seq<u8>),
    StateNotRegistered(Seq<char>),
    StateExists(Seq<char>),
    InvalidSequence(Sequence, Sequence),
    BranchExists(Seq<char>),
    Serialization(Seq<char>),
    Deserialization(Seq<char>),
    Corruption(Seq<char>),
    StrategyMismatch { expected: Seq<char>, got: Seq<char> },
    Locked,
    NotInitialized,
    InvalidFormat(Seq<char>),
    ChecksumMismatch { expected: u32, got: u32 },
    HashMismatch { expected: Seq<u8>, got: Seq<u8> },
    Transaction(Seq<char>),
    InvalidOperation(Seq<char>),
    SubscriptionDropped,
    PayloadTooLarge { size: u64, limit: u64 },
    SequenceOverflow,
}

impl View for StoreError {
    type V = ErrorView;

    open spec fn view(&self) -> ErrorView {
        match *self {
            StoreError::Io(s) => ErrorView::Io(s@),
            StoreError::RecordNotFound(id) => ErrorView::RecordNotFound(id),
            StoreError::BranchNotFound(s) => ErrorView::BranchNotFound(s@),
            StoreError::BlobNotFound(h) => ErrorView::BlobNotFound(h.0@),
            StoreError::StateNotRegistered(s) => ErrorView::StateNotRegistered(s@),
            StoreError::StateExists(s) => ErrorView::StateExists(s@),
            StoreError::InvalidSequence(a, b) => ErrorView::InvalidSequence(a, b),
            StoreError::BranchExists(s) => ErrorView::BranchExists(s@),
            StoreError::Serialization(s) => ErrorView::Serialization(s@),
            StoreError::Deserialization(s) => ErrorView::Deserialization(s@),
            StoreError::Corruption(s) => ErrorView::Corruption(s@),
            StoreError::StrategyMismatch { expected, got } => ErrorView::StrategyMismatch {
                expected: expected@,
                got: got@,
            },
            StoreError::Locked => ErrorView::Locked,
            StoreError::NotInitialized => ErrorView::NotInitialized,
            StoreError::InvalidFormat(s) => ErrorView::InvalidFormat(s@),
            StoreError::ChecksumMismatch { expected, got } => ErrorView::ChecksumMismatch {
                expected,
                got,
            },
            StoreError::HashMismatch { expected, got } => ErrorView::HashMismatch {
                expected: expected.0@,
                got: got.0@,
            },
            StoreError::Transaction(s) => ErrorView::Transaction(s@),
            StoreError::InvalidOperation(s) => ErrorView::InvalidOperation(s@),
            StoreError::SubscriptionDropped => ErrorView::SubscriptionDropped,
            StoreError::PayloadTooLarge { size, limit } => ErrorView::PayloadTooLarge {
                size,
                limit,
            },
            StoreError::SequenceOverflow => ErrorView::SequenceOverflow,
        }
    }
}

/// The text of an error.
pub open spec fn error_text(e: ErrorView) -> Seq<char> {
    match e {
        ErrorView::Io(s) => "IO error: "@ + s,
        ErrorView::BranchNotFound(s) => "Branch not found: "@ + s,
        ErrorView::StateNotRegistered(s) => "State not registered: "@ + s,
        ErrorView::StateExists(s) => "State already exists: "@ + s,
        ErrorView::BranchExists(s) => "Branch already exists: "@ + s,
        ErrorView::Serialization(s) => "Serialization error: "@ + s,
        ErrorView::Deserialization(s) => "Deserialization error: "@ + s,
        ErrorView::Corruption(s) => "Corruption detected: "@ + s,
        ErrorView::InvalidFormat(s) => "Invalid store format: "@ + s,
        ErrorView::Transaction(s) => "Transaction error: "@ + s,
        ErrorView::InvalidOperation(s) => "Invalid operation: "@ + s,
        ErrorView::Locked => "Store is locked by another process"@,
        ErrorView::NotInitialized => "Store not initialized"@,
        ErrorView::SubscriptionDropped => "Subscription was dropped"@,
        ErrorView::SequenceOverflow => "Sequence overflow: counter exhausted"@,
        ErrorView::RecordNotFound(id) => "Record not found: "@ + decimal(id.0 as nat),
        ErrorView::BlobNotFound(h) => "Blob not found: "@ + hex_text(h),
        ErrorView::InvalidSequence(at, head) => "Invalid sequence: Seq("@ + decimal(at.0 as nat)
            + ") (head is Seq("@ + decimal(head.0 as nat) + "))"@,
        ErrorView::StrategyMismatch { expected, got } => "State strategy mismatch: expected "@
            + expected + ", got "@ + got,
        ErrorView::ChecksumMismatch { expected, got } => "Checksum mismatch: expected "@ + decimal(
            expected as nat,
        ) + ", got "@ + decimal(got as nat),
        ErrorView::HashMismatch { expected, got } => "Hash mismatch: expected "@ + hex_text(
            expected,
        ) + ", got "@ + hex_text(got),
        ErrorView::PayloadTooLarge { size, limit } => "Payload too large: "@ + decimal(size as nat)
            + " bytes exceeds limit of "@ + decimal(limit as nat) + " bytes"@,
    }
}

impl StoreError {
    /// The text of this error.
    pub fn message(&self) -> (s: String)
        ensures
            s@ == error_text(self@),
    {
        match self {
            StoreError::Io(s) => joined("IO error: ", s.as_str()),
            StoreError::BranchNotFound(s) => joined("Branch not found: ", s.as_str()),
            StoreError::StateNotRegistered(s) => joined("State not registered: ", s.as_str()),
            StoreError::StateExists(s) => joined("State already exists: ", s.as_str()),
            StoreError::BranchExists(s) => joined("Branch already exists: ", s.as_str()),
            StoreError::Serialization(s) => joined("Serialization error: ", s.as_str()),
            StoreError::Deserialization(s) => joined("Deserialization error: ", s.as_str()),
            StoreError::Corruption(s) => joined("Corruption detected: ", s.as_str()),
            StoreError::InvalidFormat(s) => joined("Invalid store format: ", s.as_str()),
            StoreError::Transaction(s) => joined("Transaction error: ", s.as_str()),
            StoreError::InvalidOperation(s) => joined("Invalid operation: ", s.as_str()),
            StoreError::Locked => "Store is locked by another process".to_owned(),
            StoreError::NotInitialized => "Store not initialized".to_owned(),
            StoreError::SubscriptionDropped => "Subscription was dropped".to_owned(),
            StoreError::SequenceOverflow => "Sequence overflow: counter exhausted".to_owned(),
            StoreError::RecordNotFound(id) => joined(
                "Record not found: ",
                decimal_string(id.0).as_str(),
            ),
            StoreError::BlobNotFound(h) => joined("Blob not found: ", h.to_hex().as_str()),
            StoreError::InvalidSequence(at, head) => {
                let mut s = joined("Invalid sequence: Seq(", decimal_string(at.0).as_str());
                s.append(") (head is Seq(");
                s.append(decimal_string(head.0).as_str());
                s.append("))");
                s
            },
            StoreError::StrategyMismatch { expected, got } => {
                let mut s = joined("State strategy mismatch: expected ", expected.as_str());
                s.append(", got ");
                s.append(got.as_str());
                s
            },
            StoreError::ChecksumMismatch { expected, got } => {
                let mut s = joined(
                    "Checksum mismatch: expected ",
                    decimal_string(*expected as u64).as_str(),
                );
                s.append(", got ");
                s.append(decimal_string(*got as u64).as_str());
                s
            },
            StoreError::HashMismatch { expected, got } => {
                let mut s = joined("Hash mismatch: expected ", expected.to_hex().as_str());
                s.append(", got ");
                s.append(got.to_hex().as_str());
                s
            },
            StoreError::PayloadTooLarge { size, limit } => {
                let mut s = joined("Payload too large: ", decimal_string(*size).as_str());
                s.append(" bytes exceeds limit of ");
                s.append(decimal_string(*limit).as_str());
                s.append(" bytes");
                s
            },
        }
    }
}

/// The error of a read past the end of a file.
pub open spec fn end_of_file() -> ErrorView {
    ErrorView::Io("failed to fill whole buffer"@)
}

/// Makes the error of a read past the end of a file.
pub fn unexpected_eof() -> (e: StoreError)
    ensures
        e@ == end_of_file(),
{
    StoreError::Io("failed to fill whole buffer".to_owned())
}

/// Makes an invalid-format error.
pub fn invalid_format(text: &str) -> (e: StoreError)
    ensures
        e@ == ErrorView::InvalidFormat(text@),
{
    StoreError::InvalidFormat(text.to_owned())
}

/// Makes an invalid-operation error.
pub fn invalid_operation(text: &str) -> (e: StoreError)
    ensures
        e@ == ErrorView::InvalidOperation(text@),
{
    StoreError::InvalidOperation(text.to_owned())
}

} // verus!
