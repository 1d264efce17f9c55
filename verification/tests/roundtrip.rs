use laby2_repack::arch::Laby2;
use laby2_repack::error::{IoErrorKind, RepackerError, RepackerValueError};
use laby2_repack::io::{ByteSeek, ByteStream, SeekFrom};
use laby2_repack::tree::{ItemKind, TreeItem};
use laby2_repack::xor::{xor_encode, XorReadable, XorWritable};

fn dir(path: &str) -> TreeItem {
    TreeItem { path: String::from(path), kind: ItemKind::Dir, content: Vec::new() }
}

fn file(path: &str, content: &[u8]) -> TreeItem {
    TreeItem { path: String::from(path), kind: ItemKind::File, content: content.to_vec() }
}

fn header_bytes() -> Vec<u8> {
    let mut h = b"AAFC".to_vec();
    h.extend_from_slice(&[0u8; 12]);
    h
}

fn example_tree() -> Vec<TreeItem> {
    vec![
        file("./a.txt", b"hi"),
        dir("./sub"),
        file("./.header", &header_bytes()),
        file("./sub/b.txt", b"yo"),
    ]
}

fn pack_filtered(items: &Vec<TreeItem>) -> Vec<u8> {
    let mut out = ByteStream::new(Vec::new()).xor_write();
    assert_eq!(Laby2::pack(&mut out, &dir("tree"), items), Ok(()));
    out.inner.into_inner()
}

fn unpack_filtered(stored: Vec<u8>) -> Result<Vec<TreeItem>, RepackerError> {
    let mut input = ByteStream::new(stored).xor_read();
    Laby2::unpack(&mut input)
}

#[test]
fn example_tree_round_trip() {
    let stored = pack_filtered(&example_tree());
    let items = unpack_filtered(stored).unwrap();
    assert_eq!(
        items,
        vec![
            file(".header", &header_bytes()),
            file("a.txt", b"hi"),
            dir("sub/"),
            file("sub/b.txt", b"yo"),
        ]
    );
}

#[test]
fn example_tree_manifest_order() {
    let stored = pack_filtered(&example_tree());
    let mut input = ByteStream::new(stored).xor_read();
    let arch = Laby2::read_header_from(&mut input).unwrap();
    let names: Vec<&str> = arch.files.iter().map(|f| f.file_data.name.as_str()).collect();
    assert_eq!(names, vec!["a.txt", "sub/", "sub/b.txt"]);
    assert_eq!(arch.header.0.to_vec(), header_bytes());
}

#[test]
fn stored_bytes_are_filtered() {
    let stored = pack_filtered(&example_tree());
    let mut plain = ByteStream::new(Vec::new());
    assert_eq!(Laby2::pack(&mut plain, &dir("tree"), &example_tree()), Ok(()));
    assert_eq!(stored, xor_encode(&plain.data, 0));
    assert_eq!(&stored[..4], &[0x41, 0x40, 0x44, 0x40]);
}

#[test]
fn pack_of_a_file_is_refused() {
    let mut out = ByteStream::new(Vec::new()).xor_write();
    let r = Laby2::pack(&mut out, &file("tree", b""), &example_tree());
    assert_eq!(r, Err(RepackerError::NotADir(String::from("tree"))));
    assert!(out.inner.data.is_empty());
}

#[test]
fn deep_tree_round_trip() {
    let big: Vec<u8> = (0..70_000u32).map(|i| (i % 253) as u8).collect();
    let items = vec![
        dir(".\\z"),
        file(".\\.header", b"AAFC0123456789ab"),
        file(".\\m.bin", &big),
        dir(".\\a"),
        file(".\\empty", b""),
        file(".\\z\\one", b"1"),
        dir(".\\z\\deep"),
        file(".\\a\\\u{e9}t\u{e9}.txt", "\u{e9}".as_bytes()),
        file(".\\z\\deep\\\u{1F600}", b"smile"),
        file(".\\z\\.header", b"not a header"),
    ];
    let unpacked = unpack_filtered(pack_filtered(&items)).unwrap();
    assert_eq!(
        unpacked,
        vec![
            file(".header", b"AAFC0123456789ab"),
            dir("a/"),
            file("a/\u{e9}t\u{e9}.txt", "\u{e9}".as_bytes()),
            file("empty", b""),
            file("m.bin", &big),
            dir("z/"),
            file("z/.header", b"not a header"),
            dir("z/deep/"),
            file("z/deep/\u{1F600}", b"smile"),
            file("z/one", b"1"),
        ]
    );
}

#[test]
fn directories_come_before_what_is_below_them() {
    let items = vec![
        file("./.header", &header_bytes()),
        file("./d/e/f/g", b"4"),
        file("./d/e/f!", b"3"),
        dir("./d/e/f"),
        dir("./d/e"),
        dir("./d"),
        file("./d!", b"0"),
    ];
    let unpacked = unpack_filtered(pack_filtered(&items)).unwrap();
    let names: Vec<&str> = unpacked.iter().map(|t| t.path.as_str()).collect();
    assert_eq!(names, vec![".header", "d!", "d/", "d/e/", "d/e/f!", "d/e/f/", "d/e/f/g"]);
    for (i, a) in names.iter().enumerate() {
        for (j, b) in names.iter().enumerate() {
            if a.ends_with('/') && b.len() > a.len() && b.starts_with(a) {
                assert!(i < j, "{} is listed behind {}", a, b);
            }
        }
    }
}

#[test]
fn equal_names_keep_their_own_content() {
    let items = vec![
        file("./.header", &header_bytes()),
        file("./twin", b"bb"),
        file(".\\twin", b"aa"),
        file("twin", b"c"),
    ];
    let unpacked = unpack_filtered(pack_filtered(&items)).unwrap();
    assert_eq!(
        unpacked,
        vec![
            file(".header", &header_bytes()),
            file("twin", b"c"),
            file("twin", b"bb"),
            file("twin", b"aa"),
        ]
    );
}

#[test]
fn truncated_archive_reports_both_lengths() {
    let mut stored = pack_filtered(&example_tree());
    let full = stored.len() as u64;
    assert_eq!(full, 20 + 22 + 20 + 30 + 4);
    stored.pop();
    assert_eq!(unpack_filtered(stored), Err(RepackerError::StreamRead(full, full - 1)));
}

#[test]
fn overlong_archive_reports_both_lengths() {
    let mut stored = pack_filtered(&example_tree());
    let full = stored.len() as u64;
    stored.push(0);
    assert_eq!(unpack_filtered(stored), Err(RepackerError::StreamRead(full, full + 1)));
}

#[test]
fn archive_without_magic_reports_the_bytes() {
    let mut plain = b"LABY".to_vec();
    plain.extend_from_slice(&[0u8; 16]);
    let stored = xor_encode(&plain, 0);
    assert_eq!(
        unpack_filtered(stored),
        Err(RepackerError::Value(RepackerValueError::InvalidMagic(*b"LABY")))
    );
    assert_eq!(unpack_filtered(Vec::new()), Err(RepackerError::Io(IoErrorKind::UnexpectedEof)));
}

#[test]
fn unpack_leaves_the_stream_at_its_end() {
    let stored = pack_filtered(&example_tree());
    let len = stored.len() as u64;
    let mut input = ByteStream::new(stored).xor_read();
    assert!(Laby2::unpack(&mut input).is_ok());
    assert_eq!(input.inner.pos, len);

    let only_header = pack_filtered(&vec![file("./.header", &header_bytes())]);
    let mut input = ByteStream::new(only_header).xor_read();
    assert_eq!(Laby2::unpack(&mut input), Ok(vec![file(".header", &header_bytes())]));
    assert_eq!(input.inner.pos, 20);
}

#[test]
fn unpack_from_the_middle_of_a_stream() {
    let packed = {
        let mut out = ByteStream::new(Vec::new());
        assert_eq!(Laby2::pack(&mut out, &dir("t"), &example_tree()), Ok(()));
        out.into_inner()
    };
    let mut bytes = vec![0xAB; 7];
    bytes.extend_from_slice(&packed);
    let mut input = ByteStream::new(bytes);
    assert_eq!(input.seek(SeekFrom::Start(7)), Ok(7));
    let items = Laby2::unpack(&mut input).unwrap();
    assert_eq!(items[1], file("a.txt", b"hi"));
    assert_eq!(items[3], file("sub/b.txt", b"yo"));
}

#[test]
fn long_names_pack_but_do_not_unpack() {
    let long = format!("./{}", "n".repeat(65));
    let items = vec![file("./.header", &header_bytes()), file(&long, b"x")];
    let stored = pack_filtered(&items);
    assert_eq!(
        unpack_filtered(stored),
        Err(RepackerError::Value(RepackerValueError::PathLenOutOfRange(1, 64, 65)))
    );
    let fits = format!("./{}", "n".repeat(64));
    let items = vec![file("./.header", &header_bytes()), file(&fits, b"x")];
    let unpacked = unpack_filtered(pack_filtered(&items)).unwrap();
    assert_eq!(unpacked[1], file(&"n".repeat(64), b"x"));
}

#[test]
fn manifest_is_read_from_its_span_alone() {
    let stored = pack_filtered(&example_tree());
    let mut lead = stored[..20].to_vec();
    laby2_repack::xor::xor_in_place(&mut lead, 20, 0);
    let span = Laby2::manifest_span(&lead);
    assert_eq!(span, 20 + 3 * 140);
    assert_eq!(Laby2::manifest_span(&lead[..19]), 20);
    assert_eq!(Laby2::manifest_span(&[0xFF; 20]), 20 + 140 * 0xFFFF_FFFF);

    let cut = (span as usize).min(stored.len());
    let mut head = ByteStream::new(stored[..cut].to_vec()).xor_read();
    let from_span = Laby2::read_manifest(&mut head).unwrap();
    let mut whole = ByteStream::new(stored.clone()).xor_read();
    let from_all = Laby2::read_manifest(&mut whole).unwrap();
    assert_eq!(from_span, from_all);
    assert_eq!(head.inner.pos, whole.inner.pos);
    let resolved = from_span.resolve_offsets(head.inner.pos, stored.len() as u64).unwrap();
    let mut again = ByteStream::new(stored).xor_read();
    assert_eq!(Laby2::read_header_from(&mut again), Ok(resolved));
}

#[test]
fn reading_and_writing_a_manifest_keeps_its_bytes() {
    let stored = pack_filtered(&example_tree());
    let mut input = ByteStream::new(stored.clone()).xor_read();
    let arch = Laby2::read_manifest(&mut input).unwrap();
    let end = input.inner.pos as usize;
    let mut out = ByteStream::new(Vec::new()).xor_write();
    assert_eq!(arch.write_manifest(&mut out), Ok(()));
    assert_eq!(out.inner.data, stored[..end].to_vec());
}
