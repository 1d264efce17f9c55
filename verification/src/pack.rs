//! Packing: from the items of a directory tree to the bytes of an archive.

use crate::arch::{
    entries_in, has_magic, manifest_bytes, units_be, ArchiveFile, ArchiveHeader, EntryView,
    FileSystemEntry, FileView, Laby2,
};
use crate::bytes::{u16_to_be_bytes, u32_be, u32_to_be_bytes, u64_to_be_bytes};
use crate::error::{ErrorView, IoErrorKind, RepackerError, ValueErrorView};
use crate::io::{
    chunked_copy, lemma_write_at_twice, read_fixed, write_all, write_at, ByteSeek, ByteStream,
    ByteWrite,
};
use crate::order::{record_views, sort_records, sorted_records, Record, RecordView};
use crate::tree::{
    entry_name, is_header_path, item_views, manifest_name, names_header, ItemKind, ItemView,
    TreeItem,
};
use crate::utf16::str_encode_utf16;
use std::collections::VecDeque;
use vstd::prelude::*;
use vstd::slice::slice_to_vec;
use vstd::string::StringExecFns;

verus! {

/// Appends the bytes of an array to a vector.
pub fn push_bytes<const N: usize>(out: &mut Vec<u8>, bytes: [u8; N])
    ensures
        final(out)@ == old(out)@ + bytes@,
{
    let mut i: usize = 0;
    while i < N
        invariant
            i <= N,
            out@ == old(out)@ + bytes@.subrange(0, i as int),
        decreases N - i,
    {
        out.push(bytes[i]);
        i += 1;
        assert(out@ =~= old(out)@ + bytes@.subrange(0, i as int));
    }
    assert(bytes@.subrange(0, N as int) =~= bytes@);
}

impl FileSystemEntry {
    /// The bytes of the record in a manifest.
    pub fn encode(&self) -> (data: Vec<u8>)
        ensures
            data@ == self@.encoding(),
    {
        let units = str_encode_utf16(self.name.as_str());
        let name_len = ((units.len() as u64) % 0x1_0000_0000) as u32;
        let mut data: Vec<u8> = Vec::new();
        push_bytes(&mut data, u32_to_be_bytes(name_len));
        let ghost head = data@;
        let mut i: usize = 0;
        while i < units.len()
            invariant
                i <= units@.len(),
                data@ == head + units_be(units@.subrange(0, i as int)),
            decreases units@.len() - i,
        {
            push_bytes(&mut data, u16_to_be_bytes(units[i]));
            i += 1;
            assert(data@ =~= head + units_be(units@.subrange(0, i as int)));
        }
        assert(units@.subrange(0, i as int) =~= units@);
        push_bytes(&mut data, u64_to_be_bytes(self.file_size));
        assert(data@ =~= self@.encoding());
        data
    }

    /// Writes the bytes of the record at the position of `output`.
    pub fn write_to<W: ByteWrite>(&self, output: &mut W) -> (r: Result<(), RepackerError>)
        ensures
            old(output).position() <= old(output).content().len() ==> {
                &&& r == Ok::<(), RepackerError>(())
                &&& final(output).content() == write_at(
                    old(output).content(),
                    old(output).position(),
                    self@.encoding(),
                )
                &&& final(output).position() == old(output).position() + self@.encoding().len()
            },
            old(output).position() > old(output).content().len() ==> {
                &&& r == Err::<(), RepackerError>(RepackerError::Io(IoErrorKind::InvalidInput))
                &&& final(output).content() == old(output).content()
                &&& final(output).position() == old(output).position()
            },
    {
        let data = self.encode();
        match write_all(output, data.as_slice()) {
            Ok(()) => Ok(()),
            Err(e) => Err(RepackerError::Io(e)),
        }
    }
}

/// What the walk is to do after an item was visited.
#[derive(Debug, Clone, Copy, PartialEq, Eq, Structural)]
pub enum Visit {
    /// The item is in the manifest, or queued; go on with the next one.
    Recorded,
    /// The item is the header file: read its first sixteen bytes and hand
    /// them to `set_header`.
    NeedHeader,
}

/// The state of a walk over a directory tree, breadth first: the
/// directories that are still to be listed, the header if it was met, and
/// the records of the items met so far.
#[derive(Debug, Clone, PartialEq, Eq)]
pub struct PackScan {
    pub queue: VecDeque<String>,
    pub header: Option<ArchiveHeader>,
    pub records: Vec<Record>,
}

/// What a walk has gathered.
pub struct ScanView {
    pub header: Option<Seq<u8>>,
    pub records: Seq<RecordView>,
}

impl View for PackScan {
    type V = ScanView;

    open spec fn view(&self) -> ScanView {
        ScanView {
            header: match self.header {
                Some(h) => Some(h@),
                None => None,
            },
            records: record_views(self.records@),
        }
    }
}

/// The record of a directory at `path`: its name ends in `/` and it has no
/// content.
pub open spec fn dir_record(path: Seq<char>, source: nat) -> RecordView {
    RecordView { entry: EntryView { name: entry_name(path).push('/'), file_size: 0 }, source }
}

/// The record of a file of `len` bytes at `path`.
pub open spec fn file_record(path: Seq<char>, len: u64, source: nat) -> RecordView {
    RecordView { entry: EntryView { name: entry_name(path), file_size: len }, source }
}

/// What visiting an item does to what the walk has gathered. A directory
/// and a file are recorded, but for the first file whose last component is
/// the header name, which is asked for instead; anything else ends the
/// walk.
pub open spec fn visit_result(
    st: ScanView,
    path: Seq<char>,
    kind: ItemKind,
    len: u64,
    source: nat,
) -> Result<(ScanView, Visit), ErrorView> {
    match kind {
        ItemKind::Dir => Ok(
            (
                ScanView { header: st.header, records: st.records.push(dir_record(path, source)) },
                Visit::Recorded,
            ),
        ),
        ItemKind::File => if st.header is None && is_header_path(path) {
            Ok((st, Visit::NeedHeader))
        } else {
            Ok(
                (
                    ScanView {
                        header: st.header,
                        records: st.records.push(file_record(path, len, source)),
                    },
                    Visit::Recorded,
                ),
            )
        },
        ItemKind::Other => Err(ErrorView::SymlinkDetected(path)),
    }
}

/// What handing sixteen bytes over as the header does: they must start with
/// the magic.
pub open spec fn header_result(st: ScanView, bytes: Seq<u8>) -> Result<ScanView, ErrorView> {
    if has_magic(bytes) {
        Ok(ScanView { header: Some(bytes), records: st.records })
    } else {
        Err(ErrorView::Value(ValueErrorView::InvalidMagic(bytes.subrange(0, 4))))
    }
}

impl PackScan {
    /// The paths of the directories that are still to be listed, first
    /// come, first served.
    pub open spec fn pending(&self) -> Seq<Seq<char>> {
        self.queue@.map_values(|p: String| p@)
    }

    /// Starts a walk at the root, which must be a directory. The root,
    /// under the name `.`, is the first directory to list.
    pub fn begin(path: &str, kind: ItemKind) -> (r: Result<PackScan, RepackerError>)
        ensures
            match r {
                Ok(scan) => {
                    &&& kind == ItemKind::Dir
                    &&& scan@.header is None
                    &&& scan@.records == Seq::<RecordView>::empty()
                    &&& scan.pending() == seq![seq!['.']]
                },
                Err(e) => kind != ItemKind::Dir && e@ == ErrorView::NotADir(path@),
            },
    {
        match kind {
            ItemKind::Dir => {
                let mut queue: VecDeque<String> = VecDeque::new();
                let dot = String::from_str(".");
                proof {
                    reveal_strlit(".");
                    assert(dot@ =~= seq!['.']);
                }
                queue.push_back(dot);
                let scan = PackScan { queue, header: None, records: Vec::new() };
                assert(scan.pending() =~= seq![seq!['.']]);
                assert(scan@.records =~= Seq::<RecordView>::empty());
                Ok(scan)
            },
            _ => Err(RepackerError::NotADir(String::from_str(path))),
        }
    }

    /// The next directory to list, if one is left.
    pub fn next_dir(&mut self) -> (dir: Option<String>)
        ensures
            final(self)@ == old(self)@,
            match dir {
                Some(d) => {
                    &&& old(self).pending().len() > 0
                    &&& d@ == old(self).pending()[0]
                    &&& final(self).pending() == old(self).pending().drop_first()
                },
                None => old(self).pending().len() == 0 && final(self).pending() == old(
                    self,
                ).pending(),
            },
    {
        let dir = self.queue.pop_front();
        assert(self.pending() =~= if dir is Some {
            old(self).pending().drop_first()
        } else {
            old(self).pending()
        });
        dir
    }

    /// Takes note of the item at `path`, which is a file of `len` bytes
    /// where it is one, and which is the item number `source` of the walk.
    /// A directory is queued for listing as well.
    pub fn visit(&mut self, path: &str, kind: ItemKind, len: u64, source: usize) -> (r: Result<
        Visit,
        RepackerError,
    >)
        ensures
            match visit_result(old(self)@, path@, kind, len, source as nat) {
                Ok((st, v)) => r == Ok::<Visit, RepackerError>(v) && final(self)@ == st,
                Err(e) => r matches Err(x) && x@ == e && final(self)@ == old(self)@,
            },
            final(self).pending() == if kind == ItemKind::Dir {
                old(self).pending().push(path@)
            } else {
                old(self).pending()
            },
    {
        let name = manifest_name(path);
        match kind {
            ItemKind::Dir => {
                self.queue.push_back(String::from_str(path));
                let mut name = name;
                name.append("/");
                proof {
                    reveal_strlit("/");
                    assert(name@ =~= entry_name(path@).push('/'));
                }
                self.records.push(Record { entry: FileSystemEntry { name, file_size: 0 }, source });
                proof {
                    assert(self@.records =~= old(self)@.records.push(
                        dir_record(path@, source as nat),
                    ));
                    assert(self.pending() =~= old(self).pending().push(path@));
                }
                Ok(Visit::Recorded)
            },
            ItemKind::File => {
                if self.header.is_none() && names_header(name.as_str()) {
                    Ok(Visit::NeedHeader)
                } else {
                    self.records.push(
                        Record { entry: FileSystemEntry { name, file_size: len }, source },
                    );
                    proof {
                        assert(self@.records =~= old(self)@.records.push(
                            file_record(path@, len, source as nat),
                        ));
                    }
                    Ok(Visit::Recorded)
                }
            },
            ItemKind::Other => Err(RepackerError::SymlinkDetected(String::from_str(path))),
        }
    }

    /// Takes the sixteen bytes as the archive header, if they start with
    /// the magic.
    pub fn set_header(&mut self, bytes: [u8; 16]) -> (r: Result<(), RepackerError>)
        ensures
            final(self).pending() == old(self).pending(),
            match header_result(old(self)@, bytes@) {
                Ok(st) => r == Ok::<(), RepackerError>(()) && final(self)@ == st,
                Err(e) => r matches Err(x) && x@ == e && final(self)@ == old(self)@,
            },
    {
        match ArchiveHeader::parse(bytes) {
            Ok(header) => {
                self.header = Some(header);
                Ok(())
            },
            Err(e) => Err(RepackerError::Value(e)),
        }
    }
}

/// What the walk has gathered after one more item: the item is visited,
/// and where it is asked for as the header, its first sixteen bytes are
/// handed over.
pub open spec fn scan_step(st: ScanView, item: ItemView, source: nat) -> Result<
    ScanView,
    ErrorView,
> {
    match visit_result(st, item.path, item.kind, item.content.len() as u64, source) {
        Err(e) => Err(e),
        Ok((next, Visit::Recorded)) => Ok(next),
        Ok((next, Visit::NeedHeader)) => if item.content.len() < 16 {
            Err(ErrorView::Io(IoErrorKind::UnexpectedEof))
        } else {
            header_result(next, item.content.subrange(0, 16))
        },
    }
}

/// What the walk has gathered after the first `n` items, or the failure
/// that ended it.
pub open spec fn scan_all(items: Seq<ItemView>, n: nat) -> Result<ScanView, ErrorView>
    decreases n,
{
    if n == 0 {
        Ok(ScanView { header: None, records: Seq::empty() })
    } else {
        match scan_all(items, (n - 1) as nat) {
            Err(e) => Err(e),
            Ok(st) => scan_step(st, items[n - 1], (n - 1) as nat),
        }
    }
}

/// What is to be packed: the header and the records in the order of the
/// manifest. The root must be a directory, the walk must not fail, and it
/// must have met a header.
pub open spec fn pack_plan(root: ItemView, items: Seq<ItemView>) -> Result<
    (Seq<u8>, Seq<RecordView>),
    ErrorView,
> {
    if root.kind != ItemKind::Dir {
        Err(ErrorView::NotADir(root.path))
    } else {
        match scan_all(items, items.len()) {
            Err(e) => Err(e),
            Ok(st) => match st.header {
                None => Err(ErrorView::MissingHeader),
                Some(h) => Ok((h, sorted_records(st.records))),
            },
        }
    }
}

/// The manifest records of the records of a walk.
pub open spec fn entries_of(records: Seq<RecordView>) -> Seq<EntryView> {
    records.map_values(|r: RecordView| r.entry)
}

/// The content that a record brings into the archive: none for a name that
/// ends in `/`, else the bytes of its item.
pub open spec fn record_content(r: RecordView, items: Seq<ItemView>) -> Seq<u8> {
    if r.entry.is_dir() {
        Seq::empty()
    } else {
        items[r.source as int].content
    }
}

/// The content region of an archive: the content of the records, in their
/// order.
pub open spec fn content_bytes(records: Seq<RecordView>, items: Seq<ItemView>) -> Seq<u8>
    decreases records.len(),
{
    if records.len() == 0 {
        Seq::empty()
    } else {
        content_bytes(records.drop_last(), items) + record_content(records.last(), items)
    }
}

/// The bytes of an archive before its content: the header, the number of
/// records in 32 bits, and the records. A number of records beyond 32 bits
/// is cut to its low 32 bits.
pub open spec fn head_bytes(header: Seq<u8>, entries: Seq<EntryView>) -> Seq<u8> {
    header + u32_be((entries.len() % 0x1_0000_0000) as u32) + manifest_bytes(entries)
}

/// The bytes of an archive, before the filter.
pub open spec fn archive_bytes(
    header: Seq<u8>,
    records: Seq<RecordView>,
    items: Seq<ItemView>,
) -> Seq<u8> {
    head_bytes(header, entries_of(records)) + content_bytes(records, items)
}

/// Whether a record points at an item, and a record with content has the
/// size of that item's content.
pub open spec fn record_fits(r: RecordView, items: Seq<ItemView>) -> bool {
    &&& r.source < items.len()
    &&& r.entry.is_dir() || r.entry.file_size == items[r.source as int].content.len()
}

/// A failure ends the walk: it is the failure of every longer walk.
pub proof fn lemma_scan_failure_stays(items: Seq<ItemView>, n: nat, m: nat)
    requires
        n <= m,
        scan_all(items, n) is Err,
    ensures
        scan_all(items, m) == scan_all(items, n),
    decreases m,
{
    if n < m {
        lemma_scan_failure_stays(items, n, (m - 1) as nat);
    }
}

/// Every record of a walk points at the item that it was made for.
pub proof fn lemma_scan_records_fit(items: Seq<ItemView>, n: nat)
    requires
        n <= items.len(),
        forall|i: int| 0 <= i < items.len() ==> (#[trigger] items[i]).content.len() <= u64::MAX,
        scan_all(items, n) is Ok,
    ensures
        forall|k: int|
            0 <= k < scan_all(items, n)->Ok_0.records.len() ==> record_fits(
                #[trigger] scan_all(items, n)->Ok_0.records[k],
                items,
            ),
    decreases n,
{
    if n > 0 {
        lemma_scan_records_fit(items, (n - 1) as nat);
        let before = scan_all(items, (n - 1) as nat)->Ok_0;
        let after = scan_all(items, n)->Ok_0;
        let item = items[n - 1];
        assert forall|k: int| 0 <= k < after.records.len() implies record_fits(
            #[trigger] after.records[k],
            items,
        ) by {
            if k < before.records.len() {
                assert(after.records[k] == before.records[k]);
            } else {
                if item.kind == ItemKind::Dir {
                    assert(after.records[k] == dir_record(item.path, (n - 1) as nat));
                    assert(entry_name(item.path).push('/').last() == '/');
                }
            }
        }
    }
}

impl PackScan {
    /// Ends the walk: the archive with its records in the order of the
    /// manifest, and for each record the number of its item in the walk.
    /// A walk that met no header fails.
    pub fn finish(self) -> (r: Result<(Laby2, Vec<usize>), RepackerError>)
        ensures
            match self@.header {
                None => r matches Err(e) && e@ == ErrorView::MissingHeader,
                Some(h) => r matches Ok((arch, sources)) && {
                    let recs = sorted_records(self@.records);
                    &&& arch@.header == h
                    &&& sources@.len() == recs.len()
                    &&& arch@.files.len() == recs.len()
                    &&& forall|k: int|
                        0 <= k < recs.len() ==> {
                            &&& (#[trigger] arch@.files[k]) == (FileView {
                                entry: recs[k].entry,
                                offset: None,
                            })
                            &&& sources@[k] == recs[k].source
                        }
                },
            },
    {
        let header = match self.header {
            Some(header) => header,
            None => {
                return Err(RepackerError::MissingHeader);
            },
        };
        let sorted = sort_records(self.records);
        let ghost recs = record_views(sorted@);
        let mut files: Vec<ArchiveFile> = Vec::new();
        let mut sources: Vec<usize> = Vec::new();
        let mut k: usize = 0;
        while k < sorted.len()
            invariant
                k <= sorted@.len(),
                recs == record_views(sorted@),
                files@.len() == k,
                sources@.len() == k,
                forall|j: int|
                    0 <= j < k ==> {
                        &&& (#[trigger] files@[j])@ == (FileView {
                            entry: recs[j].entry,
                            offset: None,
                        })
                        &&& sources@[j] == recs[j].source
                    },
            decreases sorted@.len() - k,
        {
            assert(recs[k as int] == sorted@[k as int]@);
            files.push(ArchiveFile { file_data: sorted[k].entry.duplicate(), offset: None });
            sources.push(sorted[k].source);
            k += 1;
        }
        let arch = Laby2 { header, files };
        assert forall|j: int| 0 <= j < recs.len() implies (#[trigger] arch@.files[j]) == (FileView {
            entry: recs[j].entry,
            offset: None,
        }) by {
            assert(arch@.files[j] == files@[j]@);
        }
        Ok((arch, sources))
    }
}

impl Laby2 {
    /// Writes the header, the number of records and the records at the
    /// position of `output`.
    pub fn write_manifest<W: ByteWrite>(&self, output: &mut W) -> (r: Result<(), RepackerError>)
        ensures
            old(output).position() <= old(output).content().len() ==> {
                &&& r == Ok::<(), RepackerError>(())
                &&& final(output).content() == write_at(
                    old(output).content(),
                    old(output).position(),
                    head_bytes(self@.header, entries_in(self@.files)),
                )
                &&& final(output).position() == old(output).position() + head_bytes(
                    self@.header,
                    entries_in(self@.files),
                ).len()
            },
            old(output).position() > old(output).content().len() ==> {
                &&& r matches Err(e) && e@ == ErrorView::Io(IoErrorKind::InvalidInput)
                &&& final(output).content() == old(output).content()
                &&& final(output).position() == old(output).position()
            },
    {
        let ghost base = output.content();
        let ghost pos = output.position();
        let ghost entries = entries_in(self@.files);
        match write_all(output, self.header.0.as_slice()) {
            Ok(()) => {},
            Err(e) => {
                return Err(RepackerError::Io(e));
            },
        }
        let count = ((self.files.len() as u64) % 0x1_0000_0000) as u32;
        let count_bytes = u32_to_be_bytes(count);
        match write_all(output, count_bytes.as_slice()) {
            Ok(()) => {},
            Err(e) => {
                return Err(RepackerError::Io(e));
            },
        }
        let ghost lead = self@.header + u32_be(count);
        proof {
            lemma_write_at_twice(base, pos, self@.header, u32_be(count));
            assert(manifest_bytes(entries.subrange(0, 0)) =~= Seq::<u8>::empty());
            assert(lead + manifest_bytes(entries.subrange(0, 0)) =~= lead);
        }
        let mut k: usize = 0;
        while k < self.files.len()
            invariant
                k <= self.files@.len(),
                pos <= base.len(),
                entries == entries_in(self@.files),
                entries.len() == self.files@.len(),
                output.content() == write_at(
                    base,
                    pos,
                    lead + manifest_bytes(entries.subrange(0, k as int)),
                ),
                output.position() == pos + (lead + manifest_bytes(
                    entries.subrange(0, k as int),
                )).len(),
            decreases self.files@.len() - k,
        {
            let ghost done = lead + manifest_bytes(entries.subrange(0, k as int));
            match self.files[k].file_data.write_to(output) {
                Ok(()) => {},
                Err(e) => {
                    return Err(e);
                },
            }
            proof {
                let e = self.files@[k as int]@.entry;
                assert(entries[k as int] == e);
                assert(entries.subrange(0, k + 1).drop_last() =~= entries.subrange(0, k as int));
                assert(entries.subrange(0, k + 1).last() == e);
                lemma_write_at_twice(base, pos, done, e.encoding());
                assert(done + e.encoding() =~= lead + manifest_bytes(entries.subrange(0, k + 1)));
            }
            k += 1;
        }
        assert(entries.subrange(0, k as int) =~= entries);
        Ok(())
    }
}

/// A record that is among the sorted records is among the records.
pub proof fn lemma_sorted_member(records: Seq<RecordView>, k: int) -> (j: int)
    requires
        0 <= k < sorted_records(records).len(),
    ensures
        0 <= j < records.len(),
        records[j] == sorted_records(records)[k],
{
    crate::order::lemma_sorted_records(records);
    let s = sorted_records(records);
    vstd::seq_lib::to_multiset_contains(s, s[k]);
    vstd::seq_lib::to_multiset_contains(records, s[k]);
    assert(s.contains(s[k]));
    choose|j: int| 0 <= j < records.len() && records[j] == s[k]
}

impl Laby2 {
    /// Packs a directory tree into an archive, which is written at the
    /// position of `output`. `root` is the item at the root of the tree,
    /// and `items` are the items below it, in the order in which a walk
    /// meets them.
    pub fn pack<W: ByteWrite + ByteSeek>(
        output: &mut W,
        root: &TreeItem,
        items: &Vec<TreeItem>,
    ) -> (r: Result<(), RepackerError>)
        ensures
            match pack_plan(root@, item_views(items@)) {
                Err(e) => {
                    &&& r matches Err(x) && x@ == e
                    &&& final(output).content() == old(output).content()
                    &&& final(output).position() == old(output).position()
                },
                Ok((header, records)) => if old(output).position() <= old(
                    output,
                ).content().len() {
                    &&& r == Ok::<(), RepackerError>(())
                    &&& final(output).content() == write_at(
                        old(output).content(),
                        old(output).position(),
                        archive_bytes(header, records, item_views(items@)),
                    )
                    &&& final(output).position() == old(output).position() + archive_bytes(
                        header,
                        records,
                        item_views(items@),
                    ).len()
                } else {
                    &&& r matches Err(x) && x@ == ErrorView::Io(IoErrorKind::InvalidInput)
                    &&& final(output).content() == old(output).content()
                    &&& final(output).position() == old(output).position()
                },
            },
    {
        let ghost views = item_views(items@);
        let mut scan = match PackScan::begin(root.path.as_str(), root.kind) {
            Ok(scan) => scan,
            Err(e) => {
                return Err(e);
            },
        };
        let mut i: usize = 0;
        while i < items.len()
            invariant
                i <= items@.len(),
                views == item_views(items@),
                root@.kind == ItemKind::Dir,
                scan_all(views, i as nat) == Ok::<ScanView, ErrorView>(scan@),
                output.content() == old(output).content(),
                output.position() == old(output).position(),
            decreases items@.len() - i,
        {
            let item = &items[i];
            assert(views[i as int] == item@);
            proof {
                if scan_all(views, (i + 1) as nat) is Err {
                    lemma_scan_failure_stays(views, (i + 1) as nat, views.len());
                }
            }
            let visit = match scan.visit(
                item.path.as_str(),
                item.kind,
                item.content.len() as u64,
                i,
            ) {
                Ok(visit) => visit,
                Err(e) => {
                    return Err(e);
                },
            };
            match visit {
                Visit::Recorded => {},
                Visit::NeedHeader => {
                    let mut file = ByteStream::new(slice_to_vec(item.content.as_slice()));
                    let bytes = match read_fixed::<16, ByteStream>(&mut file) {
                        Ok(bytes) => bytes,
                        Err(e) => {
                            return Err(RepackerError::Io(e));
                        },
                    };
                    assert(bytes@ =~= item@.content.subrange(0, 16));
                    match scan.set_header(bytes) {
                        Ok(()) => {},
                        Err(e) => {
                            return Err(e);
                        },
                    }
                },
            }
            i += 1;
        }
        let ghost gathered = scan@;
        let (arch, sources) = match scan.finish() {
            Ok(plan) => plan,
            Err(e) => {
                return Err(e);
            },
        };
        let ghost header = gathered.header->Some_0;
        let ghost records = sorted_records(gathered.records);
        let ghost head = head_bytes(header, entries_of(records));
        proof {
            assert(entries_in(arch@.files) =~= entries_of(records));
            assert forall|k: int| 0 <= k < views.len() implies (#[trigger] views[k]).content.len()
                <= u64::MAX by {
                assert(views[k] == items@[k]@);
                assert(items@[k].content.len() <= usize::MAX);
            }
            lemma_scan_records_fit(views, views.len());
        }
        match arch.write_manifest(output) {
            Ok(()) => {},
            Err(e) => {
                return Err(e);
            },
        }
        let ghost base = old(output).content();
        let ghost pos = old(output).position();
        proof {
            assert(content_bytes(records.subrange(0, 0), views) =~= Seq::<u8>::empty());
            assert(head + content_bytes(records.subrange(0, 0), views) =~= head);
        }
        let mut k: usize = 0;
        while k < arch.files.len()
            invariant
                k <= arch.files@.len(),
                views == item_views(items@),
                arch.files@.len() == records.len(),
                sources@.len() == records.len(),
                records == sorted_records(gathered.records),
                forall|j: int|
                    0 <= j < records.len() ==> {
                        &&& (#[trigger] arch@.files[j]) == (FileView {
                            entry: records[j].entry,
                            offset: None,
                        })
                        &&& sources@[j] == records[j].source
                    },
                forall|j: int|
                    0 <= j < gathered.records.len() ==> record_fits(
                        #[trigger] gathered.records[j],
                        views,
                    ),
                pos <= base.len(),
                output.content() == write_at(
                    base,
                    pos,
                    head + content_bytes(records.subrange(0, k as int), views),
                ),
                output.position() == pos + (head + content_bytes(
                    records.subrange(0, k as int),
                    views,
                )).len(),
            decreases arch.files@.len() - k,
        {
            let ghost done = head + content_bytes(records.subrange(0, k as int), views);
            let ghost rec = records[k as int];
            proof {
                let j = lemma_sorted_member(gathered.records, k as int);
                assert(record_fits(gathered.records[j], views));
                assert(arch@.files[k as int] == arch.files@[k as int]@);
                assert(records.subrange(0, k + 1).drop_last() =~= records.subrange(0, k as int));
                assert(records.subrange(0, k + 1).last() == rec);
            }
            let file = &arch.files[k];
            if !file.file_data.is_dir() {
                let item = &items[sources[k]];
                assert(views[rec.source as int] == item@);
                assert(file@.entry == rec.entry);
                assert(rec.entry.file_size == item@.content.len());
                assert(item.content.len() == item.content@.len());
                let size = file.file_data.file_size as usize;
                let mut source = ByteStream::new(slice_to_vec(item.content.as_slice()));
                match chunked_copy(&mut source, output, size) {
                    Ok(()) => {},
                    Err(e) => {
                        return Err(RepackerError::Io(e));
                    },
                }
                proof {
                    let bytes = item@.content;
                    assert(crate::io::span(bytes, 0, size as nat) =~= bytes);
                    if size > 0 {
                        lemma_write_at_twice(base, pos, done, bytes);
                    }
                    assert(done + bytes =~= head + content_bytes(
                        records.subrange(0, k + 1),
                        views,
                    ));
                }
            } else {
                proof {
                    assert(done + Seq::<u8>::empty() =~= done);
                }
            }
            k += 1;
        }
        assert(records.subrange(0, k as int) =~= records);
        Ok(())
    }
}

} // verus!
