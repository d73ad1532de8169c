//! The containers this crate writes must be readable by standard tar
//! tooling, and containers standard tooling writes must be readable here.

use comprexor::container::{build_tar, parse_archive, ArchiveEntry, EntryKind};

#[test]
fn tar_crate_reads_our_container() {
    let entries = vec![
        ArchiveEntry { path: b"top".to_vec(), kind: EntryKind::Directory },
        ArchiveEntry {
            path: b"top/data.txt".to_vec(),
            kind: EntryKind::File(b"interoperable bytes".to_vec()),
        },
    ];
    let tar = build_tar(&entries).unwrap();
    let mut archive = tar::Archive::new(&tar[..]);
    let mut seen: Vec<(String, Vec<u8>)> = Vec::new();
    for entry in archive.entries().unwrap() {
        let mut entry = entry.unwrap();
        let name = entry.path().unwrap().to_string_lossy().into_owned();
        let mut data = Vec::new();
        std::io::Read::read_to_end(&mut entry, &mut data).unwrap();
        seen.push((name, data));
    }
    assert_eq!(seen.len(), 2);
    assert_eq!(seen[0].0, "top");
    assert_eq!(seen[0].1, b"");
    assert_eq!(seen[1].0, "top/data.txt");
    assert_eq!(seen[1].1, b"interoperable bytes");
}

#[test]
fn our_parser_reads_tar_crate_container() {
    let mut builder = tar::Builder::new(Vec::new());
    let mut header = tar::Header::new_ustar();
    header.set_entry_type(tar::EntryType::Regular);
    header.set_path("hello.txt").unwrap();
    header.set_size(5);
    header.set_mode(0o644);
    header.set_cksum();
    builder.append(&header, &b"hello"[..]).unwrap();
    let mut header = tar::Header::new_ustar();
    header.set_entry_type(tar::EntryType::Directory);
    header.set_path("sub").unwrap();
    header.set_size(0);
    header.set_mode(0o755);
    header.set_cksum();
    builder.append(&header, &b""[..]).unwrap();
    let tar_bytes = builder.into_inner().unwrap();
    let entries = parse_archive(&tar_bytes).unwrap();
    assert_eq!(entries.len(), 2);
    assert_eq!(entries[0].path, b"hello.txt".to_vec());
    assert_eq!(entries[0].kind, EntryKind::File(b"hello".to_vec()));
    assert_eq!(entries[1].path, b"sub".to_vec());
    assert_eq!(entries[1].kind, EntryKind::Directory);
}
