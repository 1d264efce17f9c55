//! The failures that packing and unpacking an archive can end in.

use vstd::prelude::*;

verus! {

/// Why a stream refused an operation.
#[derive(Debug, Clone, Copy, PartialEq, Eq, Structural)]
pub enum IoErrorKind {
    /// The stream ended before the requested bytes were read.
    UnexpectedEof,
    /// A seek to a negative or overflowing position, or a write that starts
    /// past the end of the stream.
    InvalidInput,
}

/// Malformed data, met while decoding or while building a manifest.
#[derive(Debug, Clone, PartialEq, Eq)]
pub enum RepackerValueError {
    /// The code units of a name are no UTF-16 text.
    StringConversion,
    /// A path of the file system that is no Unicode text.
    PathConversion(String),
    /// A name length outside the allowed range: the least and the greatest
    /// allowed length, then the length met.
    PathLenOutOfRange(u64, u64, u64),
    /// A directory entry with this file size, which is not zero.
    DirLenNotZero(u64),
    /// A header that starts with these four bytes instead of `AAFC`.
    InvalidMagic([u8; 4]),
    /// The entry of this name has no resolved offset.
    MissingOffset(String),
}

/// Why packing or unpacking stopped.
#[derive(Debug, Clone, PartialEq, Eq)]
pub enum RepackerError {
    /// A stream failed.
    Io(IoErrorKind),
    /// The tree holds no header file.
    MissingHeader,
    /// The stream does not end where the manifest says: the expected
    /// length, then the actual one.
    StreamRead(u64, u64),
    /// The item at this path is neither a directory nor a regular file.
    SymlinkDetected(String),
    /// This path does not point to a directory.
    NotADir(String),
    /// Malformed data.
    Value(RepackerValueError),
}

/// What a value error says.
pub enum ValueErrorView {
    StringConversion,
    PathConversion(Seq<char>),
    PathLenOutOfRange(u64, u64, u64),
    DirLenNotZero(u64),
    InvalidMagic(Seq<u8>),
    MissingOffset(Seq<char>),
}

/// What an error says.
pub enum ErrorView {
    Io(IoErrorKind),
    MissingHeader,
    StreamRead(u64, u64),
    SymlinkDetected(Seq<char>),
    NotADir(Seq<char>),
    Value(ValueErrorView),
}

impl View for RepackerValueError {
    type V = ValueErrorView;

    open spec fn view(&self) -> ValueErrorView {
        match *self {
            RepackerValueError::StringConversion => ValueErrorView::StringConversion,
            RepackerValueError::PathConversion(p) => ValueErrorView::PathConversion(p@),
            RepackerValueError::PathLenOutOfRange(lo, hi, n) => ValueErrorView::PathLenOutOfRange(
                lo,
                hi,
                n,
            ),
            RepackerValueError::DirLenNotZero(n) => ValueErrorView::DirLenNotZero(n),
            RepackerValueError::InvalidMagic(m) => ValueErrorView::InvalidMagic(m@),
            RepackerValueError::MissingOffset(p) => ValueErrorView::MissingOffset(p@),
        }
    }
}

impl View for RepackerError {
    type V = ErrorView;

    open spec fn view(&self) -> ErrorView {
        match *self {
            RepackerError::Io(k) => ErrorView::Io(k),
            RepackerError::MissingHeader => ErrorView::MissingHeader,
            RepackerError::StreamRead(expected, actual) => ErrorView::StreamRead(expected, actual),
            RepackerError::SymlinkDetected(p) => ErrorView::SymlinkDetected(p@),
            RepackerError::NotADir(p) => ErrorView::NotADir(p@),
            RepackerError::Value(e) => ErrorView::Value(e@),
        }
    }
}

impl From<IoErrorKind> for RepackerError {
    fn from(kind: IoErrorKind) -> (e: RepackerError) {
        RepackerError::Io(kind)
    }
}

impl vstd::std_specs::convert::FromSpecImpl<IoErrorKind> for RepackerError {
    open spec fn obeys_from_spec() -> bool {
        true
    }

    open spec fn from_spec(kind: IoErrorKind) -> RepackerError {
        RepackerError::Io(kind)
    }
}

impl From<RepackerValueError> for RepackerError {
    fn from(value: RepackerValueError) -> (e: RepackerError) {
        RepackerError::Value(value)
    }
}

impl vstd::std_specs::convert::FromSpecImpl<RepackerValueError> for RepackerError {
    open spec fn obeys_from_spec() -> bool {
        true
    }

    open spec fn from_spec(value: RepackerValueError) -> RepackerError {
        RepackerError::Value(value)
    }
}

} // verus!
