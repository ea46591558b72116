use vstd::prelude::*;

verus! {

/// Failure taxonomy shared by the build and extraction pipelines.
///
/// Each variant that carries a `String` holds the offending path or the
/// underlying cause, so that callers can act on the report.
#[derive(Debug)]
pub enum ArchiveError {
    /// A filesystem or container read/write/metadata failure.
    Io(String),
    /// A path component that cannot be represented as an archive entry name.
    InvalidName(String),
    /// A malformed or unreadable container.
    InvalidData(String),
    /// An entry whose stored name would escape the extraction destination.
    UnsafePath(String),
    /// An internal hand-off between pipeline stages broke; fatal, never retried.
    ChannelFailure,
}

} // verus!
