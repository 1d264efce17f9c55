//! The archive as it is held in memory, and the bytes that stand for it.

use crate::bytes::{
    be_u16, lemma_be_u16_decode_encode, lemma_be_u16_encode_decode, u16_be, u32_be, u64_be,
};
use crate::utf16::utf16_encode;
use vstd::prelude::*;

verus! {

/// The name of the file that carries the archive header in an unpacked tree.
pub const ARCH_HEADER_FILE_NAME: &'static str = ".header";

/// The least number of code units in an entry name.
pub const MIN_NAME_LEN: u32 = 1;

/// The greatest number of code units in an entry name.
pub const MAX_NAME_LEN: u32 = 64;

/// The sixteen bytes at the start of an archive. The first four are the
/// magic `AAFC`; the rest is kept as it is.
#[derive(Clone, Debug, Default, PartialEq, Eq, PartialOrd, Ord)]
pub struct ArchiveHeader(pub [u8; 16]);

/// One record of the manifest: a path relative to the root, with `/`
/// between its parts and a `/` at the end of a directory, and the number of
/// content bytes.
#[derive(Clone, Debug, Default, PartialEq, Eq, PartialOrd, Ord)]
pub struct FileSystemEntry {
    pub name: String,
    pub file_size: u64,
}

/// A manifest record with the absolute position of its content, once that
/// is resolved.
#[derive(Clone, Debug, Default, PartialEq, Eq, PartialOrd, Ord)]
pub struct ArchiveFile {
    pub file_data: FileSystemEntry,
    pub offset: Option<u64>,
}

/// An archive: its header and its manifest, in the order of the stream.
#[derive(Clone, Debug, Default, PartialEq, Eq, PartialOrd, Ord)]
pub struct Laby2 {
    pub header: ArchiveHeader,
    pub files: Vec<ArchiveFile>,
}

/// What a manifest record says.
pub struct EntryView {
    pub name: Seq<char>,
    pub file_size: u64,
}

/// What a manifest record with its offset says.
pub struct FileView {
    pub entry: EntryView,
    pub offset: Option<u64>,
}

/// What an archive says.
pub struct ArchiveView {
    pub header: Seq<u8>,
    pub files: Seq<FileView>,
}

impl View for ArchiveHeader {
    type V = Seq<u8>;

    open spec fn view(&self) -> Seq<u8> {
        self.0@
    }
}

impl View for FileSystemEntry {
    type V = EntryView;

    open spec fn view(&self) -> EntryView {
        EntryView { name: self.name@, file_size: self.file_size }
    }
}

impl View for ArchiveFile {
    type V = FileView;

    open spec fn view(&self) -> FileView {
        FileView { entry: self.file_data@, offset: self.offset }
    }
}

impl View for Laby2 {
    type V = ArchiveView;

    open spec fn view(&self) -> ArchiveView {
        ArchiveView { header: self.header@, files: self.files@.map_values(|f: ArchiveFile| f@) }
    }
}

/// Whether the bytes start with the magic `AAFC`.
pub open spec fn has_magic(bytes: Seq<u8>) -> bool {
    &&& bytes.len() >= 4
    &&& bytes[0] == 0x41
    &&& bytes[1] == 0x41
    &&& bytes[2] == 0x46
    &&& bytes[3] == 0x43
}

/// Whether a name is that of a directory: it ends in `/`.
pub open spec fn is_dir_name(name: Seq<char>) -> bool {
    name.len() > 0 && name.last() == '/'
}

/// The bytes of the code units, each most significant byte first.
pub open spec fn units_be(units: Seq<u16>) -> Seq<u8> {
    Seq::new(2 * units.len(), |i: int| u16_be(units[i / 2])[i % 2])
}

/// The code units that the bytes stand for, two bytes each.
pub open spec fn be_units(bytes: Seq<u8>) -> Seq<u16> {
    Seq::new(bytes.len() / 2, |i: int| be_u16(bytes.subrange(2 * i, 2 * i + 2)))
}

/// Decoding the bytes of code units gives the code units back.
pub proof fn lemma_units_decode_encode(units: Seq<u16>)
    ensures
        units_be(units).len() == 2 * units.len(),
        be_units(units_be(units)) == units,
{
    let bytes = units_be(units);
    assert forall|i: int| 0 <= i < units.len() implies be_units(bytes)[i] == units[i] by {
        lemma_be_u16_decode_encode(units[i]);
        assert(bytes.subrange(2 * i, 2 * i + 2) =~= u16_be(units[i]));
    }
    assert(be_units(bytes) =~= units);
}

/// Encoding the code units that bytes stand for gives the bytes back,
/// where each code unit has its two bytes.
pub proof fn lemma_units_encode_decode(bytes: Seq<u8>)
    requires
        bytes.len() % 2 == 0,
    ensures
        units_be(be_units(bytes)) == bytes,
{
    let units = be_units(bytes);
    assert forall|i: int| 0 <= i < bytes.len() implies units_be(units)[i] == bytes[i] by {
        let pair = bytes.subrange(2 * (i / 2), 2 * (i / 2) + 2);
        lemma_be_u16_encode_decode(pair);
        assert(pair[i % 2] == bytes[i]);
    }
    assert(units_be(units) =~= bytes);
}

impl EntryView {
    /// The code units of the name.
    pub open spec fn units(self) -> Seq<u16> {
        utf16_encode(self.name)
    }

    /// Whether the record is that of a directory.
    pub open spec fn is_dir(self) -> bool {
        is_dir_name(self.name)
    }

    /// Whether the record can stand in an archive: the name has from 1 to
    /// 64 code units, and a directory has no content.
    pub open spec fn valid(self) -> bool {
        &&& MIN_NAME_LEN <= self.units().len() <= MAX_NAME_LEN
        &&& self.is_dir() ==> self.file_size == 0
    }

    /// The bytes of the record in a manifest: the number of code units in
    /// 32 bits, the code units, and the file size in 64 bits, all most
    /// significant byte first. A number of code units beyond 32 bits is
    /// cut to its low 32 bits.
    pub open spec fn encoding(self) -> Seq<u8> {
        u32_be((self.units().len() % 0x1_0000_0000) as u32) + units_be(self.units()) + u64_be(
            self.file_size,
        )
    }
}

/// The manifest records of the files of an archive.
pub open spec fn entries_in(files: Seq<FileView>) -> Seq<EntryView> {
    files.map_values(|f: FileView| f.entry)
}

/// The bytes of the records of a manifest, one after the other.
pub open spec fn manifest_bytes(entries: Seq<EntryView>) -> Seq<u8>
    decreases entries.len(),
{
    if entries.len() == 0 {
        Seq::empty()
    } else {
        manifest_bytes(entries.drop_last()) + entries.last().encoding()
    }
}

/// The number of content bytes of the records together.
pub open spec fn total_size(entries: Seq<EntryView>) -> nat
    decreases entries.len(),
{
    if entries.len() == 0 {
        0
    } else {
        total_size(entries.drop_last()) + entries.last().file_size as nat
    }
}

impl FileSystemEntry {
    /// Whether the record is that of a directory.
    pub fn is_dir(&self) -> (b: bool)
        ensures
            b == self@.is_dir(),
    {
        let n = self.name.as_str().unicode_len();
        n > 0 && self.name.as_str().get_char(n - 1) == '/'
    }

    /// A copy of the record.
    pub fn duplicate(&self) -> (e: FileSystemEntry)
        ensures
            e@ == self@,
    {
        FileSystemEntry { name: self.name.clone(), file_size: self.file_size }
    }
}

} // verus!
