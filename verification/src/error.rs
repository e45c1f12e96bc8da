//! The errors that every operation of the crate reports.
use vstd::prelude::*;
use vstd::string::*;

use crate::text::{decimal, hex, push_decimal, push_hex};

verus! {

/// Why an operation was refused.
#[derive(Debug)]
pub enum QuiverError {
    /// An I/O error, as the operating system words it.
    Io(String),
    /// The file format is invalid or corrupted.
    InvalidFormat(String),
    /// A log entry does not match its checksum.
    WalChecksumMismatch { offset: u64, expected: u32, actual: u32 },
    /// A vector of the wrong length was offered.
    DimensionMismatch { expected: u32, actual: u32 },
    /// The requested vector ID (or slot) does not exist.
    NotFound(u64),
    /// The index is empty and cannot be searched.
    EmptyIndex,
    /// A metric byte that names no metric.
    UnsupportedMetric(u8),
}

/// A [`QuiverError`] with its text as a sequence of characters.
pub enum ErrorView {
    Io(Seq<char>),
    InvalidFormat(Seq<char>),
    WalChecksumMismatch { offset: u64, expected: u32, actual: u32 },
    DimensionMismatch { expected: u32, actual: u32 },
    NotFound(u64),
    EmptyIndex,
    UnsupportedMetric(u8),
}

impl View for QuiverError {
    type V = ErrorView;

    open spec fn view(&self) -> ErrorView {
        match *self {
            QuiverError::Io(text) => ErrorView::Io(text@),
            QuiverError::InvalidFormat(text) => ErrorView::InvalidFormat(text@),
            QuiverError::WalChecksumMismatch { offset, expected, actual } =>
                ErrorView::WalChecksumMismatch { offset, expected, actual },
            QuiverError::DimensionMismatch { expected, actual } =>
                ErrorView::DimensionMismatch { expected, actual },
            QuiverError::NotFound(id) => ErrorView::NotFound(id),
            QuiverError::EmptyIndex => ErrorView::EmptyIndex,
            QuiverError::UnsupportedMetric(byte) => ErrorView::UnsupportedMetric(byte),
        }
    }
}

impl ErrorView {
    /// The sentence that describes the error.
    pub open spec fn sentence(self) -> Seq<char> {
        match self {
            ErrorView::Io(text) => "I/O error: "@ + text,
            ErrorView::InvalidFormat(text) => "Invalid file format: "@ + text,
            ErrorView::WalChecksumMismatch { offset, expected, actual } =>
                "WAL checksum mismatch at offset "@ + decimal(offset as nat) + ": expected 0x"@
                    + hex(expected as nat, 8) + ", got 0x"@ + hex(actual as nat, 8),
            ErrorView::DimensionMismatch { expected, actual } =>
                "Dimension mismatch: expected "@ + decimal(expected as nat) + ", got "@
                    + decimal(actual as nat),
            ErrorView::NotFound(id) => "Vector ID "@ + decimal(id as nat) + " not found"@,
            ErrorView::EmptyIndex => "Index is empty"@,
            ErrorView::UnsupportedMetric(byte) =>
                "Unsupported metric type: "@ + decimal(byte as nat),
        }
    }
}

impl QuiverError {
    /// The sentence that describes the error.
    pub fn message(&self) -> (text: String)
        ensures
            text@ == self@.sentence(),
    {
        match self {
            QuiverError::Io(text) => {
                let mut out = "I/O error: ".to_owned();
                out.append(text.as_str());
                out
            },
            QuiverError::InvalidFormat(text) => {
                let mut out = "Invalid file format: ".to_owned();
                out.append(text.as_str());
                out
            },
            QuiverError::WalChecksumMismatch { offset, expected, actual } => {
                let mut out = "WAL checksum mismatch at offset ".to_owned();
                push_decimal(&mut out, *offset);
                out.append(": expected 0x");
                push_hex(&mut out, *expected as u64, 8);
                out.append(", got 0x");
                push_hex(&mut out, *actual as u64, 8);
                out
            },
            QuiverError::DimensionMismatch { expected, actual } => {
                let mut out = "Dimension mismatch: expected ".to_owned();
                push_decimal(&mut out, *expected as u64);
                out.append(", got ");
                push_decimal(&mut out, *actual as u64);
                out
            },
            QuiverError::NotFound(id) => {
                let mut out = "Vector ID ".to_owned();
                push_decimal(&mut out, *id);
                out.append(" not found");
                out
            },
            QuiverError::EmptyIndex => "Index is empty".to_owned(),
            QuiverError::UnsupportedMetric(byte) => {
                let mut out = "Unsupported metric type: ".to_owned();
                push_decimal(&mut out, *byte as u64);
                out
            },
        }
    }
}

/// An [`QuiverError::InvalidFormat`] with a fixed text.
pub(crate) fn invalid(text: &str) -> (e: QuiverError)
    ensures
        e@ == ErrorView::InvalidFormat(text@),
{
    QuiverError::InvalidFormat(text.to_owned())
}

} // verus!
