//! The error taxonomy of the archive pipeline.

use vstd::prelude::*;

verus! {

/// Why an archive operation failed.
///
/// Every pipeline step aborts on its first failure and surfaces exactly one
/// of these variants; nothing is retried and no partial result is returned.
#[derive(Debug, Clone, Copy, PartialEq, Eq, Structural)]
pub enum ArchiveError {
    /// An underlying read/write/create/delete step failed, or a path could
    /// not be represented in the container (for tar, a name over 100 bytes
    /// or one holding a NUL byte).
    IoFailure,
    /// The source path is neither a directory, a regular file, nor a symlink.
    UnsupportedInputKind,
    /// The input to decompression is not a valid gzip stream.
    InvalidCompressedStream,
    /// The decompressed bytes are not a tar container this crate can unpack.
    ExtractionFailed,
    /// The temporary staged file could not be removed after use.
    StagingCleanupFailed,
}

} // verus!
