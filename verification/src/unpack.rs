//! Unpacking: from the bytes of an archive to its manifest and its items.

use crate::arch::{
    be_units, entries_in, has_magic, is_dir_name, total_size, ArchiveFile,
    ARCH_HEADER_FILE_NAME, ArchiveHeader, ArchiveView, EntryView,
    FileSystemEntry, FileView, Laby2, MAX_NAME_LEN, MIN_NAME_LEN,
};
use crate::bytes::{be_u32, be_u64, u16_from_be_bytes, u32_from_be_bytes, u64_from_be_bytes};
use crate::error::{ErrorView, IoErrorKind, RepackerError, RepackerValueError, ValueErrorView};
use crate::io::{
    chunked_copy, read, read_fixed, remaining, span, ByteRead, ByteSeek, ByteStream, SeekFrom,
    StreamLen,
};
use crate::tree::{header_name, ItemKind, ItemView, TreeItem};
use crate::smallbuf::buffer_as_slice;
use crate::utf16::{
    lemma_utf16_injective, string_from_utf16, utf16_decode, utf16_encode, utf16_valid,
};
use vstd::prelude::*;
use vstd::slice::slice_to_vec;
use vstd::string::StringExecFns;

verus! {

/// What reading one manifest record at `pos` gives, and where the stream
/// is left. The checks come in the order of the bytes: the number of code
/// units, then the code units, then the file size, which must be zero for a
/// directory.
#[verifier::opaque]
pub open spec fn parse_entry(content: Seq<u8>, pos: nat) -> (Result<EntryView, ErrorView>, nat) {
    let rest = remaining(content, pos);
    if rest.len() < 4 {
        (Err(ErrorView::Io(IoErrorKind::UnexpectedEof)), pos + rest.len())
    } else {
        let n = be_u32(rest.subrange(0, 4));
        if n < MIN_NAME_LEN || n > MAX_NAME_LEN {
            (
                Err(
                    ErrorView::Value(
                        ValueErrorView::PathLenOutOfRange(
                            MIN_NAME_LEN as u64,
                            MAX_NAME_LEN as u64,
                            n as u64,
                        ),
                    ),
                ),
                pos + 4,
            )
        } else if rest.len() < 4 + 2 * n {
            (Err(ErrorView::Io(IoErrorKind::UnexpectedEof)), pos + rest.len())
        } else {
            let units = be_units(rest.subrange(4, 4 + 2 * n));
            if !utf16_valid(units) {
                (Err(ErrorView::Value(ValueErrorView::StringConversion)), (pos + 4 + 2 * n) as nat)
            } else if rest.len() < 12 + 2 * n {
                (Err(ErrorView::Io(IoErrorKind::UnexpectedEof)), pos + rest.len())
            } else {
                let size = be_u64(rest.subrange(4 + 2 * n, 12 + 2 * n));
                let name = utf16_decode(units);
                if is_dir_name(name) && size != 0 {
                    (
                        Err(ErrorView::Value(ValueErrorView::DirLenNotZero(size))),
                        ((pos + 12 + 2 * n) as nat) as nat,
                    )
                } else {
                    (Ok(EntryView { name, file_size: size }), (pos + 12 + 2 * n) as nat)
                }
            }
        }
    }
}

/// Whether a record read, or the failure to read one, is the one expected.
pub open spec fn entry_matches(
    r: Result<FileSystemEntry, RepackerError>,
    expected: Result<EntryView, ErrorView>,
) -> bool {
    match (r, expected) {
        (Ok(e), Ok(v)) => e@ == v,
        (Err(e), Err(x)) => e@ == x,
        _ => false,
    }
}

/// The code units that the bytes stand for, most significant byte first.
pub fn decode_units(bytes: &[u8]) -> (units: Vec<u16>)
    ensures
        units@ == be_units(bytes@),
{
    let count = bytes.len() / 2;
    let mut units: Vec<u16> = Vec::new();
    let mut i: usize = 0;
    while i < count
        invariant
            i <= count,
            count == bytes@.len() / 2,
            bytes@.len() <= usize::MAX,
            units@ == be_units(bytes@).subrange(0, i as int),
        decreases count - i,
    {
        let pair: [u8; 2] = [bytes[2 * i], bytes[2 * i + 1]];
        assert(pair@ =~= bytes@.subrange(2 * i, 2 * i + 2));
        units.push(u16_from_be_bytes(pair));
        i += 1;
        assert(units@ =~= be_units(bytes@).subrange(0, i as int));
    }
    assert(be_units(bytes@).subrange(0, i as int) =~= be_units(bytes@));
    units
}

impl FileSystemEntry {
    /// Reads one manifest record at the position of `input`.
    pub fn read_from<R: ByteRead>(input: &mut R) -> (r: Result<FileSystemEntry, RepackerError>)
        ensures
            final(input).content() == old(input).content(),
            final(input).position() == parse_entry(old(input).content(), old(input).position()).1,
            entry_matches(r, parse_entry(old(input).content(), old(input).position()).0),
    {
        let ghost content = input.content();
        let ghost pos = input.position();
        let ghost rest = remaining(content, pos);
        proof {
            reveal(parse_entry);
        }
        let buf = match read_fixed::<4, R>(input) {
            Ok(buf) => buf,
            Err(e) => {
                return Err(RepackerError::Io(e));
            },
        };
        assert(buf@ =~= rest.subrange(0, 4));
        let n = u32_from_be_bytes(buf);
        if n < MIN_NAME_LEN || n > MAX_NAME_LEN {
            return Err(
                RepackerError::Value(
                    RepackerValueError::PathLenOutOfRange(
                        MIN_NAME_LEN as u64,
                        MAX_NAME_LEN as u64,
                        n as u64,
                    ),
                ),
            );
        }
        let buf = match read(input, 2 * (n as usize)) {
            Ok(buf) => buf,
            Err(e) => {
                return Err(RepackerError::Io(e));
            },
        };
        let units = decode_units(buffer_as_slice(&buf));
        assert(span(content, pos + 4, (2 * n) as nat) =~= rest.subrange(4, 4 + 2 * n));
        let name = match string_from_utf16(units.as_slice()) {
            Ok(name) => name,
            Err(_) => {
                return Err(RepackerError::Value(RepackerValueError::StringConversion));
            },
        };
        proof {
            lemma_utf16_injective(name@, utf16_decode(units@));
        }
        let buf = match read_fixed::<8, R>(input) {
            Ok(buf) => buf,
            Err(e) => {
                return Err(RepackerError::Io(e));
            },
        };
        assert(buf@ =~= rest.subrange(4 + 2 * n, 12 + 2 * n));
        let file_size = u64_from_be_bytes(buf);
        let entry = FileSystemEntry { name, file_size };
        if entry.is_dir() && file_size != 0 {
            return Err(RepackerError::Value(RepackerValueError::DirLenNotZero(file_size)));
        }
        Ok(entry)
    }
}

/// What reading `count` manifest records in a row from `pos` gives, and
/// where the stream is left: the records in order, or the first failure.
pub open spec fn parse_entries(content: Seq<u8>, pos: nat, count: nat) -> (
    Result<Seq<EntryView>, ErrorView>,
    nat,
)
    decreases count,
{
    if count == 0 {
        (Ok(Seq::empty()), pos)
    } else {
        let (first, next) = parse_entry(content, pos);
        match first {
            Err(e) => (Err(e), next),
            Ok(v) => {
                let (rest, end) = parse_entries(content, next, (count - 1) as nat);
                match rest {
                    Err(e) => (Err(e), end),
                    Ok(vs) => (Ok(seq![v] + vs), end),
                }
            },
        }
    }
}

/// The records read so far, put in front of what reading the rest gives.
pub open spec fn prepend(
    done: Seq<EntryView>,
    rest: (Result<Seq<EntryView>, ErrorView>, nat),
) -> (Result<Seq<EntryView>, ErrorView>, nat) {
    match rest.0 {
        Err(e) => (Err(e), rest.1),
        Ok(vs) => (Ok(done + vs), rest.1),
    }
}

/// Reading one record more moves it from what is to come to what is done.
pub proof fn lemma_parse_entries_step(content: Seq<u8>, pos: nat, count: nat, done: Seq<EntryView>)
    requires
        count > 0,
    ensures
        prepend(done, parse_entries(content, pos, count)) == match parse_entry(content, pos).0 {
            Err(e) => (Err::<Seq<EntryView>, ErrorView>(e), parse_entry(content, pos).1),
            Ok(v) => prepend(
                done.push(v),
                parse_entries(content, parse_entry(content, pos).1, (count - 1) as nat),
            ),
        },
{
    let (first, next) = parse_entry(content, pos);
    if let Ok(v) = first {
        let (rest, end) = parse_entries(content, next, (count - 1) as nat);
        if let Ok(vs) = rest {
            assert(done + (seq![v] + vs) =~= done.push(v) + vs);
        }
    }
}

/// The number that `a + b` is cut to where it does not fit in 64 bits.
pub open spec fn saturating_sum(a: nat, b: nat) -> u64 {
    if a + b > u64::MAX {
        u64::MAX
    } else {
        (a + b) as u64
    }
}

/// The records with their offsets: the content of each starts where that of
/// the one before it ends, and that of the first at `start`.
pub open spec fn resolved(entries: Seq<EntryView>, start: nat) -> Seq<FileView> {
    Seq::new(
        entries.len(),
        |i: int|
            FileView {
                entry: entries[i],
                offset: Some(saturating_sum(start, total_size(entries.subrange(0, i)))),
            },
    )
}

/// The records as they come out of the manifest, with no offset yet.
pub open spec fn unresolved(entries: Seq<EntryView>) -> Seq<FileView> {
    Seq::new(entries.len(), |i: int| FileView { entry: entries[i], offset: None })
}

/// The records of what came out of the manifest are the records read.
pub proof fn lemma_entries_in_unresolved(entries: Seq<EntryView>)
    ensures
        entries_in(unresolved(entries)) == entries,
{
    assert(entries_in(unresolved(entries)) =~= entries);
}

/// What reading an archive's header and manifest at `pos` gives, and where
/// the stream is left: the header must start with the magic, and every
/// record must be well formed. The records have no offset yet.
#[verifier::opaque]
pub open spec fn parse_manifest(content: Seq<u8>, pos: nat) -> (
    Result<ArchiveView, ErrorView>,
    nat,
) {
    let rest = remaining(content, pos);
    if rest.len() < 16 {
        (Err(ErrorView::Io(IoErrorKind::UnexpectedEof)), pos + rest.len())
    } else if !has_magic(rest) {
        (
            Err(ErrorView::Value(ValueErrorView::InvalidMagic(rest.subrange(0, 4)))),
            pos + 16,
        )
    } else if rest.len() < 20 {
        (Err(ErrorView::Io(IoErrorKind::UnexpectedEof)), pos + rest.len())
    } else {
        let count = be_u32(rest.subrange(16, 20));
        let (entries, end) = parse_entries(content, pos + 20, count as nat);
        match entries {
            Err(e) => (Err(e), end),
            Ok(es) => (
                Ok(ArchiveView { header: rest.subrange(0, 16), files: unresolved(es) }),
                end,
            ),
        }
    }
}

/// The archive with the offsets of its records, where the content of the
/// records, which starts at `start`, ends at `file_end`, the end of the
/// stream. Where it does not, the failure names the length that the
/// manifest asks for, cut to 64 bits, and the length of the stream.
pub open spec fn resolve_result(a: ArchiveView, start: nat, file_end: nat) -> Result<
    ArchiveView,
    ErrorView,
> {
    let entries = entries_in(a.files);
    if start + total_size(entries) == file_end {
        Ok(ArchiveView { header: a.header, files: resolved(entries, start) })
    } else {
        Err(ErrorView::StreamRead(saturating_sum(start, total_size(entries)), file_end as u64))
    }
}

/// What reading an archive's header and manifest at `pos` and resolving the
/// offsets gives, and where the stream is left: behind the manifest, where
/// the content of the first record starts.
pub open spec fn parse_archive(content: Seq<u8>, pos: nat) -> (
    Result<ArchiveView, ErrorView>,
    nat,
) {
    let (manifest, end) = parse_manifest(content, pos);
    match manifest {
        Err(e) => (Err(e), end),
        Ok(a) => (resolve_result(a, end, content.len()), end),
    }
}

/// Whether an archive read, or the failure to read one, is the one
/// expected.
pub open spec fn archive_matches(
    r: Result<Laby2, RepackerError>,
    expected: Result<ArchiveView, ErrorView>,
) -> bool {
    match (r, expected) {
        (Ok(a), Ok(v)) => a@ == v,
        (Err(e), Err(x)) => e@ == x,
        _ => false,
    }
}

impl ArchiveHeader {
    /// Checks that the sixteen bytes start with the magic `AAFC`.
    pub fn parse(buf: [u8; 16]) -> (r: Result<ArchiveHeader, RepackerValueError>)
        ensures
            match r {
                Ok(h) => has_magic(buf@) && h.0 == buf,
                Err(e) => !has_magic(buf@) && e@ == ValueErrorView::InvalidMagic(
                    buf@.subrange(0, 4),
                ),
            },
    {
        if buf[0] != 0x41 || buf[1] != 0x41 || buf[2] != 0x46 || buf[3] != 0x43 {
            let magic: [u8; 4] = [buf[0], buf[1], buf[2], buf[3]];
            assert(magic@ =~= buf@.subrange(0, 4));
            Err(RepackerValueError::InvalidMagic(magic))
        } else {
            Ok(ArchiveHeader(buf))
        }
    }
}

impl Laby2 {
    /// Reads the header and the manifest of an archive at the position of
    /// `input`. The records have no offset yet.
    pub fn read_manifest<R: ByteRead>(input: &mut R) -> (r: Result<Laby2, RepackerError>)
        ensures
            final(input).content() == old(input).content(),
            final(input).position() == parse_manifest(
                old(input).content(),
                old(input).position(),
            ).1,
            archive_matches(r, parse_manifest(old(input).content(), old(input).position()).0),
    {
        let ghost content = input.content();
        let ghost pos = input.position();
        let ghost rest = remaining(content, pos);
        proof {
            reveal(parse_manifest);
        }
        let buf = match read_fixed::<16, R>(input) {
            Ok(buf) => buf,
            Err(e) => {
                return Err(RepackerError::Io(e));
            },
        };
        assert(buf@ =~= rest.subrange(0, 16));
        assert(buf@.subrange(0, 4) =~= rest.subrange(0, 4));
        let header = match ArchiveHeader::parse(buf) {
            Ok(header) => header,
            Err(e) => {
                return Err(RepackerError::Value(e));
            },
        };
        let buf = match read_fixed::<4, R>(input) {
            Ok(buf) => buf,
            Err(e) => {
                return Err(RepackerError::Io(e));
            },
        };
        assert(buf@ =~= rest.subrange(16, 20));
        let fs_entry_count = u32_from_be_bytes(buf);
        let ghost whole = parse_entries(content, pos + 20, fs_entry_count as nat);

        let mut files: Vec<ArchiveFile> = Vec::new();
        let ghost mut done: Seq<EntryView> = Seq::empty();
        let mut i: u32 = 0;
        while i < fs_entry_count
            invariant
                i <= fs_entry_count,
                input.content() == content,
                content == old(input).content(),
                pos == old(input).position(),
                rest == remaining(content, pos),
                rest.len() >= 20,
                has_magic(rest),
                fs_entry_count == be_u32(rest.subrange(16, 20)),
                whole == parse_entries(content, pos + 20, fs_entry_count as nat),
                whole == prepend(
                    done,
                    parse_entries(content, input.position(), (fs_entry_count - i) as nat),
                ),
                files@.len() == i,
                done.len() == i,
                forall|k: int|
                    0 <= k < i ==> #[trigger] files@[k]@ == (FileView {
                        entry: done[k],
                        offset: None,
                    }),
            decreases fs_entry_count - i,
        {
            proof {
                reveal(parse_manifest);
                lemma_parse_entries_step(
                    content,
                    input.position(),
                    (fs_entry_count - i) as nat,
                    done,
                );
            }
            let fs_entry = match FileSystemEntry::read_from(input) {
                Ok(fs_entry) => fs_entry,
                Err(e) => {
                    return Err(e);
                },
            };
            proof {
                done = done.push(fs_entry@);
            }
            files.push(ArchiveFile { file_data: fs_entry, offset: None });
            i += 1;
        }
        assert(whole == (Ok::<Seq<EntryView>, ErrorView>(done), input.position())) by {
            assert(done + Seq::<EntryView>::empty() =~= done);
        }
        let arch = Laby2 { header, files };
        assert(arch@.files =~= unresolved(done));
        Ok(arch)
    }

    /// Gives every record its offset: the content of the first record
    /// starts at `start`, and that of each other record where the content
    /// of the one before it ends. The content of the last record must end
    /// at `file_end`, the end of the stream.
    pub fn resolve_offsets(self, start: u64, file_end: u64) -> (r: Result<Laby2, RepackerError>)
        ensures
            archive_matches(r, resolve_result(self@, start as nat, file_end as nat)),
    {
        let header = self.header;
        let mut files = self.files;
        let ghost done = entries_in(self@.files);
        let mut stream_location = start;
        let mut fits = true;
        let mut k: usize = 0;
        while k < files.len()
            invariant
                k <= files@.len(),
                files@.len() == done.len(),
                done == entries_in(self@.files),
                stream_location == saturating_sum(
                    start as nat,
                    total_size(done.subrange(0, k as int)),
                ),
                fits <==> start + total_size(done.subrange(0, k as int)) <= u64::MAX,
                forall|j: int|
                    0 <= j < k ==> #[trigger] files@[j]@ == resolved(done, start as nat)[j],
                forall|j: int| k <= j < files@.len() ==> (#[trigger] files@[j]@).entry == done[j],
            decreases files@.len() - k,
        {
            let ghost before = files@;
            assert(before[k as int]@.entry == done[k as int]);
            let size = files[k].file_data.file_size;
            files[k].offset = Some(stream_location);
            assert(files@[k as int].file_data == before[k as int].file_data);
            assert(forall|j: int| 0 <= j < files@.len() && j != k ==> files@[j] == before[j]);
            match stream_location.checked_add(size) {
                Some(next) => {
                    stream_location = next;
                },
                None => {
                    fits = false;
                    stream_location = u64::MAX;
                },
            }
            proof {
                assert(done.subrange(0, k + 1).drop_last() =~= done.subrange(0, k as int));
                assert(done.subrange(0, k + 1).last() == done[k as int]);
                assert(size == done[k as int].file_size);
            }
            k += 1;
        }
        assert(done.subrange(0, k as int) =~= done);

        if fits && stream_location == file_end {
            let arch = Laby2 { header, files };
            assert(arch@.files =~= resolved(done, start as nat));
            Ok(arch)
        } else {
            Err(RepackerError::StreamRead(stream_location, file_end))
        }
    }

    /// Reads the header and the manifest of an archive at the position of
    /// `input`, and resolves the offset of every record against the length
    /// of the stream.
    pub fn read_header_from<R: ByteRead + ByteSeek>(input: &mut R) -> (r: Result<
        Laby2,
        RepackerError,
    >)
        ensures
            final(input).content() == old(input).content(),
            final(input).position() == parse_archive(
                old(input).content(),
                old(input).position(),
            ).1,
            archive_matches(r, parse_archive(old(input).content(), old(input).position()).0),
    {
        proof {
            input.lemma_stream_bounds();
        }
        let arch = match Laby2::read_manifest(input) {
            Ok(arch) => arch,
            Err(e) => {
                return Err(e);
            },
        };
        let file_end = match input.stream_len() {
            Ok(len) => len,
            Err(e) => {
                return Err(RepackerError::Io(e));
            },
        };
        let stream_location = match input.stream_position() {
            Ok(p) => p,
            Err(e) => {
                return Err(RepackerError::Io(e));
            },
        };
        arch.resolve_offsets(stream_location, file_end)
    }
}

/// The records before one of them, and that one, have no more content than
/// all the records together.
pub proof fn lemma_total_size_prefix(entries: Seq<EntryView>, k: int)
    requires
        0 <= k < entries.len(),
    ensures
        total_size(entries.subrange(0, k)) + entries[k].file_size <= total_size(entries),
    decreases entries.len(),
{
    if k == entries.len() - 1 {
        assert(entries.subrange(0, k) =~= entries.drop_last());
    } else {
        lemma_total_size_prefix(entries.drop_last(), k);
        assert(entries.drop_last().subrange(0, k) =~= entries.subrange(0, k));
    }
}

/// A record that was read is well formed.
pub proof fn lemma_parsed_entry_valid(content: Seq<u8>, pos: nat)
    requires
        parse_entry(content, pos).0 is Ok,
    ensures
        parse_entry(content, pos).0->Ok_0.valid(),
        parse_entry(content, pos).1 == pos + parse_entry(content, pos).0->Ok_0.encoding().len(),
        pos + parse_entry(content, pos).0->Ok_0.encoding().len() <= content.len(),
{
    reveal(parse_entry);
    let rest = remaining(content, pos);
    let n = be_u32(rest.subrange(0, 4));
    let units = be_units(rest.subrange(4, 4 + 2 * n));
    let v = parse_entry(content, pos).0->Ok_0;
    assert(v.name == utf16_decode(units));
    assert(utf16_encode(v.name) == units);
    assert(units.len() == n);
    crate::bytes::lemma_be_u32_decode_encode(n);
    crate::bytes::lemma_be_u64_decode_encode(v.file_size);
}

/// The records that were read are well formed.
pub proof fn lemma_parsed_entries_valid(content: Seq<u8>, pos: nat, count: nat)
    requires
        parse_entries(content, pos, count).0 is Ok,
    ensures
        parse_entries(content, pos, count).0->Ok_0.len() == count,
        forall|k: int|
            0 <= k < count ==> (#[trigger] parse_entries(content, pos, count).0->Ok_0[k]).valid(),
    decreases count,
{
    if count > 0 {
        lemma_parsed_entry_valid(content, pos);
        let next = parse_entry(content, pos).1;
        lemma_parsed_entries_valid(content, next, (count - 1) as nat);
    }
}

/// Whether an archive can be unpacked from a stream of `len` bytes: its
/// header has sixteen bytes and starts with the magic, every record is well
/// formed, and every record has its offset, at which the stream holds as
/// many bytes as the record says.
pub open spec fn archive_wf(a: ArchiveView, len: nat) -> bool {
    &&& a.header.len() == 16
    &&& has_magic(a.header)
    &&& forall|k: int|
        0 <= k < a.files.len() ==> {
            &&& (#[trigger] a.files[k]).entry.valid()
            &&& a.files[k].offset is Some
            &&& a.files[k].offset->Some_0 + a.files[k].entry.file_size <= len
        }
}

/// An archive that was read can be unpacked from the stream that it was
/// read from.
pub proof fn lemma_parsed_archive_wf(content: Seq<u8>, pos: nat)
    requires
        parse_archive(content, pos).0 is Ok,
    ensures
        archive_wf(parse_archive(content, pos).0->Ok_0, content.len()),
{
    reveal(parse_manifest);
    let rest = remaining(content, pos);
    let count = be_u32(rest.subrange(16, 20));
    let (entries, end) = parse_entries(content, pos + 20, count as nat);
    let es = entries->Ok_0;
    let a = parse_archive(content, pos).0->Ok_0;
    lemma_parsed_entries_valid(content, pos + 20, count as nat);
    lemma_entries_in_unresolved(es);
    assert forall|k: int| 0 <= k < a.files.len() implies {
        &&& (#[trigger] a.files[k]).entry.valid()
        &&& a.files[k].offset is Some
        &&& a.files[k].offset->Some_0 + a.files[k].entry.file_size <= content.len()
    } by {
        lemma_total_size_prefix(es, k);
    }
}

/// The item that a record of the archive is unpacked to: a directory for a
/// name that ends in `/`, else a file with the bytes that the stream holds
/// at the record's offset.
pub open spec fn unpacked_item(f: FileView, content: Seq<u8>) -> ItemView {
    if f.entry.is_dir() {
        ItemView { path: f.entry.name, kind: ItemKind::Dir, content: Seq::empty() }
    } else {
        ItemView {
            path: f.entry.name,
            kind: ItemKind::File,
            content: span(content, f.offset->Some_0 as nat, f.entry.file_size as nat),
        }
    }
}

/// The item that the header is unpacked to: the header file.
pub open spec fn header_item(header: Seq<u8>) -> ItemView {
    ItemView { path: header_name(), kind: ItemKind::File, content: header }
}

/// The items that an archive is unpacked to: the header file, then one item
/// for each record, in the order of the manifest.
pub open spec fn unpack_items(content: Seq<u8>, pos: nat) -> Result<Seq<ItemView>, ErrorView> {
    match parse_archive(content, pos).0 {
        Err(e) => Err(e),
        Ok(a) => Ok(
            seq![header_item(a.header)] + a.files.map_values(
                |f: FileView| unpacked_item(f, content),
            ),
        ),
    }
}

/// Whether the items unpacked, or the failure to unpack, are the ones
/// expected.
pub open spec fn items_match(
    r: Result<Vec<TreeItem>, RepackerError>,
    expected: Result<Seq<ItemView>, ErrorView>,
) -> bool {
    match (r, expected) {
        (Ok(items), Ok(views)) => crate::tree::item_views(items@) == views,
        (Err(e), Err(x)) => e@ == x,
        _ => false,
    }
}

/// What unpacking the header and the first `k` records of an archive from
/// a stream gives: the header file, then one item for each record, in the
/// order of the manifest. A file must have its offset, and the stream must
/// hold its content there.
pub open spec fn materialized(a: ArchiveView, content: Seq<u8>, k: nat) -> Result<
    Seq<ItemView>,
    ErrorView,
>
    decreases k,
{
    if k == 0 {
        Ok(seq![header_item(a.header)])
    } else {
        let f = a.files[k - 1];
        match materialized(a, content, (k - 1) as nat) {
            Err(e) => Err(e),
            Ok(items) => if f.entry.is_dir() {
                Ok(items.push(unpacked_item(f, content)))
            } else if f.offset is None {
                Err(ErrorView::Value(ValueErrorView::MissingOffset(f.entry.name)))
            } else if f.entry.file_size > 0 && f.offset->Some_0 + f.entry.file_size
                > content.len() {
                Err(ErrorView::Io(IoErrorKind::UnexpectedEof))
            } else {
                Ok(items.push(unpacked_item(f, content)))
            },
        }
    }
}

/// A failure ends the unpacking: it is the failure of unpacking more
/// records.
pub proof fn lemma_materialized_failure_stays(a: ArchiveView, content: Seq<u8>, k: nat, m: nat)
    requires
        k <= m,
        materialized(a, content, k) is Err,
    ensures
        materialized(a, content, m) == materialized(a, content, k),
    decreases m,
{
    if k < m {
        lemma_materialized_failure_stays(a, content, k, (m - 1) as nat);
    }
}

/// An archive that can be unpacked from a stream is unpacked to the header
/// file and one item for each record.
pub proof fn lemma_materialized_wf(a: ArchiveView, content: Seq<u8>, k: nat)
    requires
        archive_wf(a, content.len()),
        k <= a.files.len(),
    ensures
        materialized(a, content, k) == Ok::<Seq<ItemView>, ErrorView>(
            seq![header_item(a.header)] + a.files.subrange(0, k as int).map_values(
                |f: FileView| unpacked_item(f, content),
            ),
        ),
    decreases k,
{
    let unpack = |f: FileView| unpacked_item(f, content);
    if k == 0 {
        assert(seq![header_item(a.header)] + a.files.subrange(0, 0).map_values(unpack)
            =~= seq![header_item(a.header)]);
    } else {
        lemma_materialized_wf(a, content, (k - 1) as nat);
        let f = a.files[k - 1];
        let before = seq![header_item(a.header)] + a.files.subrange(0, k - 1).map_values(unpack);
        assert(before.push(unpacked_item(f, content)) =~= seq![header_item(a.header)]
            + a.files.subrange(0, k as int).map_values(unpack));
    }
}

impl Laby2 {
    /// Unpacks the header and the records of this archive from `input`: the
    /// header file first, then the items of the manifest in its order,
    /// every file with the bytes that the stream holds at its offset.
    pub fn materialize<R: ByteRead + ByteSeek>(&self, input: &mut R) -> (r: Result<
        Vec<TreeItem>,
        RepackerError,
    >)
        ensures
            final(input).content() == old(input).content(),
            items_match(r, materialized(self@, old(input).content(), self.files@.len() as nat)),
            r is Ok ==> final(input).position() == unpack_position(
                self@,
                self.files@.len() as int,
                old(input).position(),
            ),
    {
        let ghost content = input.content();
        let ghost start = input.position();
        proof {
            input.lemma_stream_bounds();
        }
        let mut items: Vec<TreeItem> = Vec::new();
        let header_path = String::from_str(ARCH_HEADER_FILE_NAME);
        proof {
            reveal_strlit(".header");
            assert(header_path@ =~= header_name());
        }
        items.push(
            TreeItem {
                path: header_path,
                kind: ItemKind::File,
                content: slice_to_vec(self.header.0.as_slice()),
            },
        );
        assert(crate::tree::item_views(items@) =~= seq![header_item(self@.header)]);

        let mut k: usize = 0;
        while k < self.files.len()
            invariant
                k <= self.files@.len(),
                input.content() == content,
                content == old(input).content(),
                start == old(input).position(),
                content.len() <= usize::MAX,
                items@.len() == k + 1,
                materialized(self@, content, k as nat) == Ok::<Seq<ItemView>, ErrorView>(
                    crate::tree::item_views(items@),
                ),
                input.position() == unpack_position(self@, k as int, start),
            decreases self.files@.len() - k,
        {
            let file = &self.files[k];
            assert(self@.files[k as int] == file@);
            proof {
                if materialized(self@, content, (k + 1) as nat) is Err {
                    lemma_materialized_failure_stays(
                        self@,
                        content,
                        (k + 1) as nat,
                        self.files@.len() as nat,
                    );
                }
            }
            let ghost shown = items@;
            let path = file.file_data.name.clone();
            if file.file_data.is_dir() {
                items.push(TreeItem { path, kind: ItemKind::Dir, content: Vec::new() });
            } else {
                let offset = match file.offset {
                    Some(offset) => offset,
                    None => {
                        return Err(RepackerError::Value(RepackerValueError::MissingOffset(path)));
                    },
                };
                if file.file_data.file_size > usize::MAX as u64 {
                    return Err(RepackerError::Io(IoErrorKind::UnexpectedEof));
                }
                match input.seek(SeekFrom::Start(offset)) {
                    Ok(_) => {},
                    Err(e) => {
                        return Err(RepackerError::Io(e));
                    },
                }
                let mut out = ByteStream::new(Vec::new());
                match chunked_copy(input, &mut out, file.file_data.file_size as usize) {
                    Ok(()) => {},
                    Err(e) => {
                        return Err(RepackerError::Io(e));
                    },
                }
                proof {
                    let size = file.file_data.file_size as nat;
                    let bytes = span(content, offset as nat, size);
                    if size > 0 {
                        assert(crate::io::write_at(Seq::<u8>::empty(), 0, bytes) =~= bytes);
                    } else {
                        assert(bytes =~= Seq::<u8>::empty());
                    }
                }
                items.push(TreeItem { path, kind: ItemKind::File, content: out.into_inner() });
            }
            proof {
                assert(items@ == shown.push(items@[k + 1]));
                assert(crate::tree::item_views(items@) =~= crate::tree::item_views(shown).push(
                    unpacked_item(file@, content),
                ));
            }
            k += 1;
        }
        Ok(items)
    }

    /// Unpacks the archive at the position of `input`: the header file
    /// first, then the items of the manifest in its order, every file with
    /// its content.
    pub fn unpack<R: ByteRead + ByteSeek>(input: &mut R) -> (r: Result<
        Vec<TreeItem>,
        RepackerError,
    >)
        ensures
            final(input).content() == old(input).content(),
            items_match(r, unpack_items(old(input).content(), old(input).position())),
            final(input).position() == if r is Ok {
                old(input).content().len()
            } else {
                parse_archive(old(input).content(), old(input).position()).1
            },
    {
        let ghost content = input.content();
        let ghost pos = input.position();
        let arch = match Laby2::read_header_from(input) {
            Ok(arch) => arch,
            Err(e) => {
                return Err(e);
            },
        };
        proof {
            input.lemma_stream_bounds();
            lemma_parsed_archive_wf(content, pos);
            lemma_unpack_end(content, pos);
            lemma_materialized_wf(arch@, content, arch@.files.len());
            assert(arch@.files.subrange(0, arch@.files.len() as int) =~= arch@.files);
        }
        arch.materialize(input)
    }
}

/// Where the stream stands after the first `k` records were unpacked: past
/// the content of the last file among them, or past the manifest where
/// there is none.
pub open spec fn unpack_position(a: ArchiveView, k: int, start: nat) -> nat
    decreases k,
{
    if k <= 0 {
        start
    } else if a.files[k - 1].entry.is_dir() {
        unpack_position(a, k - 1, start)
    } else {
        (a.files[k - 1].offset->Some_0 + a.files[k - 1].entry.file_size) as nat
    }
}

/// After all records were unpacked the stream stands at its end.
pub proof fn lemma_unpack_end(content: Seq<u8>, pos: nat)
    requires
        parse_archive(content, pos).0 is Ok,
        content.len() <= u64::MAX,
    ensures
        unpack_position(
            parse_archive(content, pos).0->Ok_0,
            parse_archive(content, pos).0->Ok_0.files.len() as int,
            parse_archive(content, pos).1,
        ) == content.len(),
{
    reveal(parse_manifest);
    let rest = remaining(content, pos);
    let count = be_u32(rest.subrange(16, 20));
    let (entries, end) = parse_entries(content, pos + 20, count as nat);
    let es = entries->Ok_0;
    let a = parse_archive(content, pos).0->Ok_0;
    lemma_parsed_entries_valid(content, pos + 20, count as nat);
    lemma_entries_in_unresolved(es);
    assert(end + total_size(es) == content.len());
    lemma_unpack_position(a, es, end, es.len() as int);
    assert(es.subrange(0, es.len() as int) =~= es);
}

/// After the first `k` records were unpacked the stream stands past the
/// content of all of them.
pub proof fn lemma_unpack_position(a: ArchiveView, es: Seq<EntryView>, end: nat, k: int)
    requires
        0 <= k <= es.len(),
        a.files == resolved(es, end),
        end + total_size(es) <= u64::MAX,
        forall|j: int| 0 <= j < es.len() ==> (#[trigger] es[j]).valid(),
    ensures
        unpack_position(a, k, end) == end + total_size(es.subrange(0, k)),
    decreases k,
{
    if k > 0 {
        lemma_unpack_position(a, es, end, k - 1);
        lemma_total_size_prefix(es, k - 1);
        assert(es.subrange(0, k).drop_last() =~= es.subrange(0, k - 1));
        assert(es.subrange(0, k).last() == es[k - 1]);
        assert(es[k - 1].valid());
    } else {
        assert(es.subrange(0, 0) =~= Seq::<EntryView>::empty());
    }
}

/// The most bytes that a well-formed record takes in a manifest: the
/// number of code units, 64 code units and the file size.
pub const MAX_ENTRY_LEN: u64 = 140;

/// An upper bound on the bytes that the header and the manifest take, as
/// the first twenty bytes of the archive tell it: twenty bytes, and for
/// each record that is announced the most that a record takes.
pub open spec fn manifest_bound(lead: Seq<u8>) -> nat {
    if lead.len() < 20 {
        20
    } else {
        (20 + MAX_ENTRY_LEN * be_u32(lead.subrange(16, 20))) as nat
    }
}

impl Laby2 {
    /// An upper bound on the bytes that the header and the manifest take,
    /// from the first twenty bytes of the archive, with the filter taken
    /// off. Reading the manifest needs no byte of the stream beyond it.
    pub fn manifest_span(lead: &[u8]) -> (n: u64)
        ensures
            n == manifest_bound(lead@),
    {
        if lead.len() < 20 {
            20
        } else {
            let count_bytes: [u8; 4] = [lead[16], lead[17], lead[18], lead[19]];
            assert(count_bytes@ =~= lead@.subrange(16, 20));
            let count = u32_from_be_bytes(count_bytes);
            20 + MAX_ENTRY_LEN * (count as u64)
        }
    }
}

/// The first `cut` bytes of a stream.
pub open spec fn stream_prefix(content: Seq<u8>, cut: nat) -> Seq<u8>
    recommends
        cut <= content.len(),
{
    content.subrange(0, cut as int)
}

/// Reading a record needs at most `MAX_ENTRY_LEN` bytes: from a stream cut
/// behind them it reads the same.
pub proof fn lemma_parse_entry_prefix(content: Seq<u8>, cut: nat, pos: nat)
    requires
        cut <= content.len(),
        cut == content.len() || cut >= pos + MAX_ENTRY_LEN,
    ensures
        parse_entry(stream_prefix(content, cut), pos) == parse_entry(content, pos),
        parse_entry(content, pos).1 <= pos + MAX_ENTRY_LEN || parse_entry(content, pos).1
            == content.len(),
        parse_entry(content, pos).1 >= pos,
{
    reveal(parse_entry);
    let short = stream_prefix(content, cut);
    if cut == content.len() {
        assert(short =~= content);
    } else {
        let rest = remaining(content, pos);
        let head = remaining(short, pos);
        assert(head =~= rest.subrange(0, cut - pos));
        assert(head.subrange(0, 4) =~= rest.subrange(0, 4));
        let n = be_u32(rest.subrange(0, 4));
        if MIN_NAME_LEN <= n <= MAX_NAME_LEN {
            assert(head.subrange(4, 4 + 2 * n) =~= rest.subrange(4, 4 + 2 * n));
            assert(head.subrange(4 + 2 * n, 12 + 2 * n) =~= rest.subrange(4 + 2 * n, 12 + 2 * n));
        }
    }
}

/// Reading `count` records needs at most `MAX_ENTRY_LEN` bytes for each:
/// from a stream cut behind them it reads the same.
pub proof fn lemma_parse_entries_prefix(content: Seq<u8>, cut: nat, pos: nat, count: nat)
    requires
        cut <= content.len(),
        cut == content.len() || cut >= pos + MAX_ENTRY_LEN * count,
    ensures
        parse_entries(stream_prefix(content, cut), pos, count) == parse_entries(
            content,
            pos,
            count,
        ),
        parse_entries(content, pos, count).1 <= pos + MAX_ENTRY_LEN * count || parse_entries(
            content,
            pos,
            count,
        ).1 == content.len(),
    decreases count,
{
    if count > 0 {
        if cut != content.len() {
            assert(MAX_ENTRY_LEN * count == MAX_ENTRY_LEN * (count - 1) + MAX_ENTRY_LEN)
                by (nonlinear_arith);
        }
        assert(MAX_ENTRY_LEN * count == MAX_ENTRY_LEN * (count - 1) + MAX_ENTRY_LEN)
            by (nonlinear_arith);
        lemma_parse_entry_prefix(content, cut, pos);
        let (first, next) = parse_entry(content, pos);
        if first is Ok {
            lemma_parsed_entry_valid(content, pos);
            lemma_parse_entries_prefix(content, cut, next, (count - 1) as nat);
        }
    }
}

/// Reading the header and the manifest needs no byte beyond the bound that
/// the first twenty bytes give: from a stream cut at the bound, or behind
/// it, it reads the same, and it leaves the stream inside the bound or at
/// its end.
pub proof fn lemma_parse_manifest_prefix(content: Seq<u8>, cut: nat)
    requires
        cut <= content.len(),
        cut == content.len() || cut >= manifest_bound(span(content, 0, 20)),
    ensures
        parse_manifest(stream_prefix(content, cut), 0) == parse_manifest(content, 0),
{
    reveal(parse_manifest);
    let short = stream_prefix(content, cut);
    if cut == content.len() {
        assert(short =~= content);
    } else {
        let rest = remaining(content, 0);
        let head = remaining(short, 0);
        assert(rest =~= content);
        assert(head =~= short);
        assert(span(content, 0, 20) =~= rest.subrange(0, 20));
        assert(span(content, 0, 20).subrange(16, 20) =~= rest.subrange(16, 20));
        assert(head.subrange(0, 4) =~= rest.subrange(0, 4));
        assert(head.subrange(0, 16) =~= rest.subrange(0, 16));
        assert(head.subrange(16, 20) =~= rest.subrange(16, 20));
        let count = be_u32(rest.subrange(16, 20));
        lemma_parse_entries_prefix(content, cut, 20, count as nat);
    }
}

} // verus!
