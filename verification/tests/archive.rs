use comprexor::container::{build_tar, parse_archive, ArchiveEntry, EntryKind};
use comprexor::pipeline::{classify_source, compress_entries, extract_entries, SourceKind};
use comprexor::{ArchiveError, ArchiveInfo, CompressionLevel, Compressor, Extractor};

fn file_entry(path: &str, data: &[u8]) -> ArchiveEntry {
    ArchiveEntry { path: path.as_bytes().to_vec(), kind: EntryKind::File(data.to_vec()) }
}

fn dir_entry(path: &str) -> ArchiveEntry {
    ArchiveEntry { path: path.as_bytes().to_vec(), kind: EntryKind::Directory }
}

fn link_entry(path: &str, target: &str) -> ArchiveEntry {
    ArchiveEntry {
        path: path.as_bytes().to_vec(),
        kind: EntryKind::Symlink(target.as_bytes().to_vec()),
    }
}

#[test]
fn round_trip_single_file() {
    let entries = vec![file_entry("notes.txt", b"pack me up and bring me back")];
    let (gz, info) = compress_entries(&entries, &CompressionLevel::Default).unwrap();
    let (out, _) = extract_entries(&gz).unwrap();
    assert_eq!(out, entries);
    assert_eq!(info.output_size(), gz.len() as u64);
}

#[test]
fn round_trip_directory_tree() {
    let entries = vec![
        dir_entry("tree"),
        file_entry("tree/a.txt", b"alpha"),
        dir_entry("tree/sub"),
        file_entry("tree/sub/b.bin", &[0u8, 1, 2, 3, 255, 254]),
        file_entry("tree/empty", b""),
    ];
    let (gz, _) = compress_entries(&entries, &CompressionLevel::Fast).unwrap();
    let (out, _) = extract_entries(&gz).unwrap();
    assert_eq!(out, entries);
}

#[test]
fn symlink_is_one_entry_not_dereferenced() {
    let entries = vec![link_entry("shortcut", "some/target/file")];
    let (gz, _) = compress_entries(&entries, &CompressionLevel::Default).unwrap();
    let (out, _) = extract_entries(&gz).unwrap();
    assert_eq!(out.len(), 1);
    assert_eq!(out[0].path, b"shortcut".to_vec());
    match &out[0].kind {
        EntryKind::Symlink(target) => assert_eq!(target, &b"some/target/file".to_vec()),
        other => panic!("expected a symlink entry, got {:?}", other),
    }
}

#[test]
fn ratio_formatted_renders_exact_digit_count() {
    let info = ArchiveInfo::new(1000, 1000);
    assert_eq!(info.ratio_formatted(5), "1.00000");
    assert_eq!(info.ratio_formatted(2), "1.00");
    let info = ArchiveInfo::new(4, 3);
    assert_eq!(info.ratio_formatted(2), "0.75");
    assert_eq!(info.ratio_formatted(0), "0");
    let info = ArchiveInfo::new(3, 7);
    assert_eq!(info.ratio_formatted(4), "2.3333");
}

#[test]
fn ratio_of_zero_input_is_not_a_number() {
    assert_eq!(ArchiveInfo::new(0, 5).ratio_formatted(2), "inf");
    assert_eq!(ArchiveInfo::new(0, 0).ratio_formatted(3), "NaN");
}

#[test]
fn sizes_format_on_the_decimal_scale() {
    let info = ArchiveInfo::new(1000, 1000);
    assert_eq!(info.input_size_formatted(), "1.0 kB");
    assert_eq!(info.output_size_formatted(), "1.0 kB");
    assert_eq!(ArchiveInfo::new(999, 0).input_size_formatted(), "999 B");
    assert_eq!(ArchiveInfo::new(0, 0).input_size_formatted(), "0 B");
    assert_eq!(ArchiveInfo::new(1500000, 0).input_size_formatted(), "1.5 MB");
    assert_eq!(ArchiveInfo::new(2340000000, 0).input_size_formatted(), "2.3 GB");
}

#[test]
fn level_values_map_as_documented() {
    assert_eq!(CompressionLevel::NoCompression.value(), 0);
    assert_eq!(CompressionLevel::Fast.value(), 1);
    assert_eq!(CompressionLevel::Default.value(), 6);
    assert_eq!(CompressionLevel::Maximum.value(), 9);
    assert_eq!(CompressionLevel::Custom(3).value(), 3);
    assert_eq!(CompressionLevel::Custom(77).value(), 9);
    let as_number: u32 = CompressionLevel::Custom(4).into();
    assert_eq!(as_number, 4);
    assert_eq!(u32::from(CompressionLevel::Maximum), 9);
}

#[test]
fn store_level_does_not_shrink_and_best_level_crushes_redundancy() {
    let entries = vec![file_entry("big.bin", &vec![7u8; 1_000_000])];
    let (_, stored) = compress_entries(&entries, &CompressionLevel::NoCompression).unwrap();
    assert!(stored.output_size() >= stored.input_size());
    let (_, best) = compress_entries(&entries, &CompressionLevel::Maximum).unwrap();
    assert!(best.output_size() * 100 < best.input_size());
}

#[test]
fn unsupported_input_kind_is_refused() {
    assert_eq!(
        classify_source(false, false, false),
        Err(ArchiveError::UnsupportedInputKind)
    );
    assert_eq!(classify_source(true, false, false), Ok(SourceKind::Directory));
    assert_eq!(classify_source(false, true, false), Ok(SourceKind::File));
    assert_eq!(classify_source(false, false, true), Ok(SourceKind::Symlink));
}

#[test]
fn invalid_gzip_data_is_rejected() {
    let garbage = b"this is not a gzip stream at all".to_vec();
    assert_eq!(
        extract_entries(&garbage).unwrap_err(),
        ArchiveError::InvalidCompressedStream
    );
}

#[test]
fn valid_gzip_with_invalid_container_is_rejected() {
    let mut enc =
        flate2::write::GzEncoder::new(Vec::new(), flate2::Compression::default());
    std::io::Write::write_all(&mut enc, b"gzip yes, tar no").unwrap();
    let gz = enc.finish().unwrap();
    assert_eq!(extract_entries(&gz).unwrap_err(), ArchiveError::ExtractionFailed);
}

#[test]
fn unrepresentable_paths_are_io_failures() {
    let long = vec![b'a'; 150];
    let entries = vec![ArchiveEntry { path: long, kind: EntryKind::Directory }];
    assert_eq!(
        compress_entries(&entries, &CompressionLevel::Default).unwrap_err(),
        ArchiveError::IoFailure
    );
    let empty = vec![ArchiveEntry { path: Vec::new(), kind: EntryKind::Directory }];
    assert!(build_tar(&empty).is_err());
}

#[test]
fn request_records_hold_their_paths() {
    let compressor = Compressor::new("./folder-to-compress", "./archive.tar.gz");
    assert_eq!(compressor.input, "./folder-to-compress");
    assert_eq!(compressor.output, "./archive.tar.gz");
    let extractor = Extractor::new("./archive.tar.gz", "./output-folder");
    assert_eq!(extractor.input, "./archive.tar.gz");
    assert_eq!(extractor.output, "./output-folder");
}

#[test]
fn container_read_back_directly() {
    let entries = vec![dir_entry("d"), file_entry("d/x", b"xyz")];
    let tar = build_tar(&entries).unwrap();
    assert_eq!(tar.len() % 512, 0);
    let out = parse_archive(&tar).unwrap();
    assert_eq!(out, entries);
}
