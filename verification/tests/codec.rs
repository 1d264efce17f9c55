use laby2_repack::arch::{ArchiveFile, ArchiveHeader, FileSystemEntry, Laby2};
use laby2_repack::error::{IoErrorKind, RepackerError, RepackerValueError};
use laby2_repack::io::{ByteSeek, ByteStream, SeekFrom};
use laby2_repack::unpack::decode_units;
use laby2_repack::xor::{xor_encode, XorReadable};

fn entry_bytes(name: &str, size: u64) -> Vec<u8> {
    let units: Vec<u16> = name.encode_utf16().collect();
    raw_entry(&units, size)
}

fn raw_entry(units: &[u16], size: u64) -> Vec<u8> {
    let mut out = Vec::new();
    out.extend_from_slice(&(units.len() as u32).to_be_bytes());
    for u in units {
        out.extend_from_slice(&u.to_be_bytes());
    }
    out.extend_from_slice(&size.to_be_bytes());
    out
}

fn entry(name: &str, size: u64) -> FileSystemEntry {
    FileSystemEntry { name: String::from(name), file_size: size }
}

fn archive(entries: &[(&str, u64)], content: &[u8]) -> Vec<u8> {
    let mut plain = Vec::new();
    plain.extend_from_slice(b"AAFC");
    plain.extend_from_slice(&[1, 2, 3, 4, 5, 6, 7, 8, 9, 10, 11, 12]);
    plain.extend_from_slice(&(entries.len() as u32).to_be_bytes());
    for (name, size) in entries {
        plain.extend_from_slice(&entry_bytes(name, *size));
    }
    plain.extend_from_slice(content);
    plain
}

#[test]
fn entry_encode_matches_layout() {
    assert_eq!(
        entry("a.txt", 2).encode(),
        vec![
            0, 0, 0, 5, 0, b'a', 0, b'.', 0, b't', 0, b'x', 0, b't', 0, 0, 0, 0, 0, 0, 0, 2
        ]
    );
    assert_eq!(entry("a.txt", 2).encode(), entry_bytes("a.txt", 2));
    assert_eq!(entry("", 0).encode(), vec![0, 0, 0, 0, 0, 0, 0, 0, 0, 0, 0, 0]);
}

#[test]
fn entry_encode_counts_code_units() {
    // U+1F600 takes a surrogate pair, U+00E9 one unit.
    let e = entry("\u{1F600}\u{e9}", 0x0102_0304_0506_0708);
    assert_eq!(
        e.encode(),
        vec![0, 0, 0, 3, 0xD8, 0x3D, 0xDE, 0x00, 0x00, 0xE9, 1, 2, 3, 4, 5, 6, 7, 8]
    );
}

#[test]
fn entry_write_to_a_stream() {
    let mut s = ByteStream::new(vec![0xAA, 0xBB]);
    assert_eq!(s.seek(SeekFrom::End(0)), Ok(2));
    assert_eq!(entry("d/", 0).write_to(&mut s), Ok(()));
    let mut want = vec![0xAA, 0xBB];
    want.extend_from_slice(&entry_bytes("d/", 0));
    assert_eq!(s.data, want);
    assert_eq!(s.pos, 2 + 16);

    let mut gap = ByteStream::new(Vec::new());
    assert_eq!(gap.seek(SeekFrom::Start(1)), Ok(1));
    assert_eq!(
        entry("d/", 0).write_to(&mut gap),
        Err(RepackerError::Io(IoErrorKind::InvalidInput))
    );
    assert!(gap.data.is_empty());
}

#[test]
fn entry_is_dir_by_trailing_slash() {
    assert!(entry("sub/", 0).is_dir());
    assert!(entry("/", 0).is_dir());
    assert!(!entry("sub", 0).is_dir());
    assert!(!entry("", 0).is_dir());
    assert!(!entry("a/b", 0).is_dir());
    assert_eq!(entry("x", 3).duplicate(), entry("x", 3));
}

#[test]
fn entry_read_back() {
    let mut s = ByteStream::new(entry_bytes("sub/", 0));
    let e = FileSystemEntry::read_from(&mut s).unwrap();
    assert_eq!(e, entry("sub/", 0));
    assert_eq!(s.pos, 20);
}

#[test]
fn entry_read_surrogate_pair() {
    let mut s = ByteStream::new(raw_entry(&[0xD83D, 0xDE00, 0x002E], 9));
    let e = FileSystemEntry::read_from(&mut s).unwrap();
    assert_eq!(e, entry("\u{1F600}.", 9));
}

#[test]
fn name_of_64_units_is_accepted() {
    let name = "x".repeat(64);
    let mut s = ByteStream::new(entry_bytes(&name, 7));
    assert_eq!(FileSystemEntry::read_from(&mut s), Ok(entry(&name, 7)));
    assert_eq!(s.pos, 4 + 128 + 8);
}

#[test]
fn name_of_65_units_is_refused() {
    let name = "x".repeat(65);
    let mut s = ByteStream::new(entry_bytes(&name, 7));
    assert_eq!(
        FileSystemEntry::read_from(&mut s),
        Err(RepackerError::Value(RepackerValueError::PathLenOutOfRange(1, 64, 65)))
    );
    assert_eq!(s.pos, 4);
}

#[test]
fn name_of_no_units_is_refused() {
    let mut s = ByteStream::new(entry_bytes("", 0));
    assert_eq!(
        FileSystemEntry::read_from(&mut s),
        Err(RepackerError::Value(RepackerValueError::PathLenOutOfRange(1, 64, 0)))
    );
}

#[test]
fn name_length_counts_units_not_characters() {
    // 33 characters of two code units each: 66 code units.
    let name = "\u{1F600}".repeat(33);
    let mut s = ByteStream::new(entry_bytes(&name, 0));
    assert_eq!(
        FileSystemEntry::read_from(&mut s),
        Err(RepackerError::Value(RepackerValueError::PathLenOutOfRange(1, 64, 66)))
    );
    let fits = "\u{1F600}".repeat(32);
    let mut s = ByteStream::new(entry_bytes(&fits, 0));
    assert_eq!(FileSystemEntry::read_from(&mut s), Ok(entry(&fits, 0)));
}

#[test]
fn huge_name_length_is_refused() {
    let mut s = ByteStream::new(vec![0xFF, 0xFF, 0xFF, 0xFF, 0, 0]);
    assert_eq!(
        FileSystemEntry::read_from(&mut s),
        Err(RepackerError::Value(RepackerValueError::PathLenOutOfRange(1, 64, 0xFFFF_FFFF)))
    );
}

#[test]
fn lone_surrogate_is_a_conversion_error() {
    let mut s = ByteStream::new(raw_entry(&[0x0061, 0xD800], 0));
    assert_eq!(
        FileSystemEntry::read_from(&mut s),
        Err(RepackerError::Value(RepackerValueError::StringConversion))
    );
    assert_eq!(s.pos, 8);
    let mut s = ByteStream::new(raw_entry(&[0xDC00, 0xD800], 0));
    assert_eq!(
        FileSystemEntry::read_from(&mut s),
        Err(RepackerError::Value(RepackerValueError::StringConversion))
    );
}

#[test]
fn directory_with_content_is_refused() {
    let mut s = ByteStream::new(entry_bytes("sub/", 5));
    assert_eq!(
        FileSystemEntry::read_from(&mut s),
        Err(RepackerError::Value(RepackerValueError::DirLenNotZero(5)))
    );
    assert_eq!(s.pos, 20);
}

#[test]
fn bad_name_is_found_before_the_size_is_read() {
    // The size is missing, but the name is refused first.
    let mut bytes = raw_entry(&[0xD800], 0);
    bytes.truncate(6);
    let mut s = ByteStream::new(bytes);
    assert_eq!(
        FileSystemEntry::read_from(&mut s),
        Err(RepackerError::Value(RepackerValueError::StringConversion))
    );
}

#[test]
fn truncated_entry_is_an_eof() {
    let whole = entry_bytes("abc", 1);
    for cut in [0usize, 3, 4, 9, 10, 17] {
        let mut s = ByteStream::new(whole[..cut].to_vec());
        assert_eq!(
            FileSystemEntry::read_from(&mut s),
            Err(RepackerError::Io(IoErrorKind::UnexpectedEof)),
            "cut at {}",
            cut
        );
        assert_eq!(s.pos, cut as u64);
    }
}

#[test]
fn decode_units_pairs_bytes() {
    assert_eq!(decode_units(&[0x12, 0x34, 0x00, 0x2F]), vec![0x1234, 0x002F]);
    assert_eq!(decode_units(&[0x12, 0x34, 0x56]), vec![0x1234]);
    assert_eq!(decode_units(&[]), Vec::<u16>::new());
}

#[test]
fn header_parse_checks_the_magic() {
    let mut good = [0u8; 16];
    good[..4].copy_from_slice(b"AAFC");
    good[15] = 0xEE;
    assert_eq!(ArchiveHeader::parse(good), Ok(ArchiveHeader(good)));
    let mut bad = good;
    bad[3] = b'c';
    assert_eq!(ArchiveHeader::parse(bad), Err(RepackerValueError::InvalidMagic(*b"AAFc")));
    assert_eq!(ArchiveHeader::parse([0u8; 16]), Err(RepackerValueError::InvalidMagic([0; 4])));
}

#[test]
fn archive_header_and_manifest() {
    let plain = archive(&[("a.txt", 2), ("sub/", 0), ("sub/b.txt", 3)], b"hiabc");
    let start = 20 + 22 + 20 + 30;
    let coded = xor_encode(&plain, 0);
    let mut input = ByteStream::new(coded).xor_read();
    let arch = Laby2::read_header_from(&mut input).unwrap();
    assert_eq!(
        arch,
        Laby2 {
            header: ArchiveHeader(*b"AAFC\x01\x02\x03\x04\x05\x06\x07\x08\x09\x0a\x0b\x0c"),
            files: vec![
                ArchiveFile { file_data: entry("a.txt", 2), offset: Some(start) },
                ArchiveFile { file_data: entry("sub/", 0), offset: Some(start + 2) },
                ArchiveFile { file_data: entry("sub/b.txt", 3), offset: Some(start + 2) },
            ],
        }
    );
    assert_eq!(input.inner.pos, start);
}

#[test]
fn archive_read_from_the_middle_of_a_stream() {
    let mut bytes = vec![0xEE; 5];
    bytes.extend_from_slice(&archive(&[("f", 1)], b"!"));
    let mut input = ByteStream::new(bytes);
    assert_eq!(input.seek(SeekFrom::Start(5)), Ok(5));
    let arch = Laby2::read_header_from(&mut input).unwrap();
    assert_eq!(arch.files[0].offset, Some(5 + 20 + 14));
}

#[test]
fn manifest_then_offsets() {
    let plain = archive(&[("a", 2), ("b", 3)], b"");
    let mut input = ByteStream::new(plain);
    let arch = Laby2::read_manifest(&mut input).unwrap();
    assert_eq!(arch.files.len(), 2);
    assert_eq!(arch.files[0].offset, None);
    assert_eq!(arch.files[1].offset, None);
    assert_eq!(input.pos, 48);
    let resolved = arch.clone().resolve_offsets(48, 53).unwrap();
    assert_eq!(resolved.files[0].offset, Some(48));
    assert_eq!(resolved.files[1].offset, Some(50));
    assert_eq!(resolved.header, arch.header);
    assert_eq!(arch.clone().resolve_offsets(48, 52), Err(RepackerError::StreamRead(53, 52)));
    assert_eq!(arch.clone().resolve_offsets(48, 54), Err(RepackerError::StreamRead(53, 54)));
    assert_eq!(arch.resolve_offsets(100, 105).unwrap().files[1].offset, Some(102));
}

#[test]
fn offsets_that_overflow_are_a_length_mismatch() {
    let arch = Laby2 {
        header: ArchiveHeader(*b"AAFC000000000000"),
        files: vec![
            ArchiveFile { file_data: entry("a", u64::MAX), offset: None },
            ArchiveFile { file_data: entry("b", 1), offset: None },
        ],
    };
    assert_eq!(
        arch.clone().resolve_offsets(0, u64::MAX),
        Err(RepackerError::StreamRead(u64::MAX, u64::MAX))
    );
    assert_eq!(arch.resolve_offsets(5, 4), Err(RepackerError::StreamRead(u64::MAX, 4)));
}

#[test]
fn empty_manifest_is_an_archive() {
    let plain = archive(&[], b"");
    let mut input = ByteStream::new(plain);
    let arch = Laby2::read_header_from(&mut input).unwrap();
    assert!(arch.files.is_empty());
    assert_eq!(input.pos, 20);
}

#[test]
fn truncated_content_is_a_length_mismatch() {
    let mut plain = archive(&[("a.txt", 2)], b"hi");
    plain.pop();
    let mut input = ByteStream::new(plain);
    let r = Laby2::read_header_from(&mut input);
    assert_eq!(r, Err(RepackerError::StreamRead(44, 43)));
}

#[test]
fn overlong_content_is_a_length_mismatch() {
    let plain = archive(&[("a.txt", 2)], b"hi!");
    let mut input = ByteStream::new(plain);
    let r = Laby2::read_header_from(&mut input);
    assert_eq!(r, Err(RepackerError::StreamRead(44, 45)));
}

#[test]
fn bad_magic_is_reported() {
    let mut input = ByteStream::new(b"AAFDxxxxxxxxxxxxxxxxxxxx".to_vec());
    let r = Laby2::read_header_from(&mut input);
    assert_eq!(r, Err(RepackerError::Value(RepackerValueError::InvalidMagic(*b"AAFD"))));
    let mut short = ByteStream::new(b"AAFC".to_vec());
    assert_eq!(
        Laby2::read_header_from(&mut short),
        Err(RepackerError::Io(IoErrorKind::UnexpectedEof))
    );
}

#[test]
fn bad_magic_under_the_filter() {
    // Without the filter taken off, the magic is not there.
    let plain = archive(&[], b"");
    let coded = xor_encode(&plain, 0);
    let mut raw = ByteStream::new(coded.clone());
    assert_eq!(
        Laby2::read_header_from(&mut raw),
        Err(RepackerError::Value(RepackerValueError::InvalidMagic([0x41, 0x40, 0x44, 0x40])))
    );
    let mut input = ByteStream::new(coded).xor_read();
    assert!(Laby2::read_header_from(&mut input).is_ok());
}

#[test]
fn missing_count_and_missing_entries_are_eof() {
    let plain = archive(&[("a", 0), ("b", 0)], b"");
    for cut in [16usize, 19, 20, 25, 34, 40] {
        let mut input = ByteStream::new(plain[..cut].to_vec());
        assert_eq!(
            Laby2::read_header_from(&mut input),
            Err(RepackerError::Io(IoErrorKind::UnexpectedEof)),
            "cut at {}",
            cut
        );
    }
}

#[test]
fn bad_entry_stops_the_manifest() {
    let mut plain = Vec::new();
    plain.extend_from_slice(b"AAFC");
    plain.extend_from_slice(&[0u8; 12]);
    plain.extend_from_slice(&2u32.to_be_bytes());
    plain.extend_from_slice(&entry_bytes("ok", 0));
    plain.extend_from_slice(&entry_bytes("dir/", 1));
    let mut input = ByteStream::new(plain);
    assert_eq!(
        Laby2::read_header_from(&mut input),
        Err(RepackerError::Value(RepackerValueError::DirLenNotZero(1)))
    );
}
