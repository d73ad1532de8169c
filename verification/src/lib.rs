//! Packs a filesystem path (regular file, symlink, or directory tree) into a
//! gzip-compressed tar archive and reverses that process.
//!
//! The crate works on plain values: the caller walks the filesystem and hands
//! over a list of [`container::ArchiveEntry`] values; the library builds the
//! tar container, runs it through the gzip codec, and reports size statistics.
//! The reverse direction decompresses, parses the container, and hands the
//! entries back for the caller to write out.

pub mod codec;
pub mod container;
pub mod digits;
pub mod error;
pub mod level;
pub mod pipeline;
pub mod staging;
pub mod stats;

pub use error::ArchiveError;
pub use pipeline::Compressor;
pub use pipeline::Extractor;
pub use level::CompressionLevel;
pub use stats::ArchiveInfo;
