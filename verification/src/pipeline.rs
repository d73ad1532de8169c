//! The two archive pipelines: entries to compressed container and back.
//!
//! The caller walks the filesystem and hands over plain entries; everything
//! from there to the compressed bytes (and the reverse) happens here, with
//! the statistics of the size-changing step. [`Compressor`] and [`Extractor`]
//! record the source and destination paths of one operation.

use crate::codec::{gunzip_of, gzip_compress, gzip_decompress, gzip_of};
use crate::container::{build_tar, models, parse_archive, parse_tar, tar_bytes, valid_entries,
    ArchiveEntry, EntryModel};
use crate::error::ArchiveError;
use crate::level::{spec_level_value, CompressionLevel};
use crate::stats::ArchiveInfo;
use vstd::prelude::*;

verus! {

/// The compressed archive of the given entries at the given level.
pub open spec fn compress_model(es: Seq<EntryModel>, level: CompressionLevel) -> Seq<u8> {
    gzip_of(tar_bytes(es), spec_level_value(level) as int)
}

/// What extraction yields from the given bytes: the entries of the tar
/// container inside the gzip stream, if both layers are well-formed.
pub open spec fn extract_model(data: Seq<u8>) -> Option<Seq<EntryModel>> {
    match gunzip_of(data) {
        Option::Some(tar) => parse_tar(tar),
        Option::None => Option::None,
    }
}

/// Builds the tar container of the entries and compresses it at the given
/// level.
///
/// On success the bytes are exactly [`compress_model`] of the entries, the
/// statistics carry the container size in and the compressed size out, and
/// decompressing the bytes is guaranteed to give the container back. The one
/// error, `IoFailure`, comes exactly when some entry cannot be represented
/// in the container (see [`build_tar`]).
pub fn compress_entries(entries: &Vec<ArchiveEntry>, level: &CompressionLevel) -> (r: Result<
    (Vec<u8>, ArchiveInfo),
    ArchiveError,
>)
    requires
        tar_bytes(models(entries@)).len() <= usize::MAX,
    ensures
        match r {
            Ok(p) => {
                &&& valid_entries(models(entries@))
                &&& p.0@ == compress_model(models(entries@), *level)
                &&& gunzip_of(p.0@) == Option::Some(tar_bytes(models(entries@)))
                &&& p.1.input_size == tar_bytes(models(entries@)).len()
                &&& p.1.output_size == p.0@.len()
            },
            Err(err) => err == ArchiveError::IoFailure && !valid_entries(models(entries@)),
        },
{
    let tar = match build_tar(entries) {
        Ok(t) => t,
        Err(err) => {
            return Err(err);
        },
    };
    let gz = gzip_compress(&tar, level.value());
    let info = ArchiveInfo::new(tar.len() as u64, gz.len() as u64);
    Ok((gz, info))
}

/// Decompresses an archive and parses the container inside it back into
/// entries.
///
/// On success the entries are exactly [`extract_model`] of the bytes, and
/// the statistics carry the compressed size in and the container size out.
/// `InvalidCompressedStream` comes exactly when the bytes are not a gzip
/// stream; `ExtractionFailed` exactly when they are, but the payload is not
/// a container this crate unpacks.
pub fn extract_entries(data: &Vec<u8>) -> (r: Result<(Vec<ArchiveEntry>, ArchiveInfo), ArchiveError>)
    ensures
        match r {
            Ok(p) => {
                &&& gunzip_of(data@) is Some
                &&& extract_model(data@) == Option::Some(models(p.0@))
                &&& p.1.input_size == data@.len()
                &&& p.1.output_size == gunzip_of(data@)->Some_0.len()
            },
            Err(err) => match err {
                ArchiveError::InvalidCompressedStream => gunzip_of(data@) is None,
                ArchiveError::ExtractionFailed => gunzip_of(data@) is Some && parse_tar(
                    gunzip_of(data@)->Some_0,
                ) is None,
                _ => false,
            },
        },
{
    let tar = match gzip_decompress(data) {
        Option::Some(t) => t,
        Option::None => {
            return Err(ArchiveError::InvalidCompressedStream);
        },
    };
    let entries = match parse_archive(&tar) {
        Ok(es) => es,
        Err(_) => {
            return Err(ArchiveError::ExtractionFailed);
        },
    };
    let info = ArchiveInfo::new(data.len() as u64, tar.len() as u64);
    Ok((entries, info))
}

/// Round-trip: extracting what a compress run produced gives back exactly
/// the entries that went in — paths, kinds, and file contents alike. The
/// premise on `gz` is what [`compress_entries`] ensures of its output.
pub proof fn lemma_round_trip(es: Seq<EntryModel>, gz: Seq<u8>)
    requires
        valid_entries(es),
        gunzip_of(gz) == Option::Some(tar_bytes(es)),
    ensures
        extract_model(gz) == Option::Some(es),
{
    crate::container::lemma_parse_of_tar_bytes(es);
}

/// What a source path turned out to be, from the caller's metadata probe.
#[derive(Debug, Clone, Copy, PartialEq, Eq, Structural)]
pub enum SourceKind {
    /// A directory: its whole tree is archived under its base name.
    Directory,
    /// A regular file: archived as a single entry.
    File,
    /// A symbolic link: archived as a single entry, never dereferenced.
    Symlink,
}

/// Decides what to archive from a metadata probe of the source path, in the
/// order the probe's answers take precedence: a directory is walked as a
/// tree, a regular file or a symlink becomes a single entry, and anything
/// else is refused with `UnsupportedInputKind` before any staging happens.
pub fn classify_source(is_dir: bool, is_file: bool, is_symlink: bool) -> (r: Result<
    SourceKind,
    ArchiveError,
>)
    ensures
        is_dir ==> r == Result::<SourceKind, ArchiveError>::Ok(SourceKind::Directory),
        !is_dir && is_file ==> r == Result::<SourceKind, ArchiveError>::Ok(SourceKind::File),
        !is_dir && !is_file && is_symlink ==> r == Result::<SourceKind, ArchiveError>::Ok(
            SourceKind::Symlink,
        ),
        !is_dir && !is_file && !is_symlink ==> r == Result::<SourceKind, ArchiveError>::Err(
            ArchiveError::UnsupportedInputKind,
        ),
{
    if is_dir {
        Ok(SourceKind::Directory)
    } else if is_file {
        Ok(SourceKind::File)
    } else if is_symlink {
        Ok(SourceKind::Symlink)
    } else {
        Err(ArchiveError::UnsupportedInputKind)
    }
}

/// Records the source and destination of one compress run: `input` is the
/// path to archive, `output` the path of the compressed archive to write.
#[derive(Debug, Clone, PartialEq, Hash)]
pub struct Compressor<'a> {
    /// The path to archive.
    pub input: &'a str,
    /// The path the compressed archive goes to.
    pub output: &'a str,
}

/// Records the source and destination of one extract run: `input` is the
/// compressed archive, `output` the directory to unpack into.
#[derive(Debug, Clone, PartialEq, Hash)]
pub struct Extractor<'a> {
    /// The path of the compressed archive to read.
    pub input: &'a str,
    /// The directory the entries are written under.
    pub output: &'a str,
}

impl<'a> Compressor<'a> {
    /// Creates a new compressor with the given input and output.
    pub fn new(input: &'a str, output: &'a str) -> (r: Compressor<'a>)
        ensures
            r.input == input,
            r.output == output,
    {
        Compressor { input, output }
    }
}

impl<'a> Extractor<'a> {
    /// Create a new extractor with the given input and output.
    pub fn new(input: &'a str, output: &'a str) -> (r: Extractor<'a>)
        ensures
            r.input == input,
            r.output == output,
    {
        Extractor { input, output }
    }
}

} // verus!
