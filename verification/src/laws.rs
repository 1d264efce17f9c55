//! What holds of packing and unpacking together.

use crate::arch::{
    be_units, entries_in, has_magic, lemma_units_decode_encode, lemma_units_encode_decode,
    manifest_bytes, total_size, units_be, ArchiveView, EntryView, FileView,
};
use crate::bytes::{
    be_u32, lemma_be_u32_decode_encode, lemma_be_u32_encode_decode, lemma_be_u64_decode_encode,
    lemma_be_u64_encode_decode, u32_be, u64_be,
};
use crate::error::{ErrorView, ValueErrorView};
use crate::io::{lemma_span_split, remaining, span};
use crate::order::{lemma_sorted_records, sorted_records, RecordView};
use crate::pack::{
    archive_bytes, content_bytes, entries_of, head_bytes, lemma_scan_records_fit,
    lemma_sorted_member, pack_plan, record_content, record_fits, scan_all,
};
use crate::tree::{ItemKind, ItemView};
use crate::unpack::{
    header_item, lemma_entries_in_unresolved, parse_archive, parse_entries,
    parse_entry, parse_manifest, resolved, saturating_sum, unpack_items, unpacked_item,
    unresolved,
};
use crate::utf16::lemma_utf16_decode_encode;
use vstd::prelude::*;

verus! {

/// The number of bytes of a record in a manifest.
pub proof fn lemma_encoding_len(e: EntryView)
    ensures
        e.encoding().len() == 12 + 2 * e.units().len(),
{
    lemma_units_decode_encode(e.units());
}

/// A manifest is its first record followed by the manifest of the others.
pub proof fn lemma_manifest_front(entries: Seq<EntryView>)
    requires
        entries.len() > 0,
    ensures
        manifest_bytes(entries) == entries[0].encoding() + manifest_bytes(entries.drop_first()),
    decreases entries.len(),
{
    if entries.len() == 1 {
        assert(entries.drop_last() =~= Seq::<EntryView>::empty());
        assert(entries.drop_first() =~= Seq::<EntryView>::empty());
        assert(manifest_bytes(entries) =~= entries[0].encoding() + manifest_bytes(
            entries.drop_first(),
        ));
    } else {
        lemma_manifest_front(entries.drop_last());
        assert(entries.drop_last().drop_first() =~= entries.drop_first().drop_last());
        assert(entries.drop_first().last() == entries.last());
        assert(manifest_bytes(entries) =~= entries[0].encoding() + manifest_bytes(
            entries.drop_first(),
        ));
    }
}

/// Reading the bytes of a well-formed record gives the record back, and
/// leaves the stream behind them.
pub proof fn lemma_parse_encoded_entry(content: Seq<u8>, pos: nat, e: EntryView)
    requires
        e.valid(),
        pos + e.encoding().len() <= content.len(),
        span(content, pos, e.encoding().len()) == e.encoding(),
    ensures
        parse_entry(content, pos) == (
            Ok::<EntryView, ErrorView>(e),
            (pos + e.encoding().len()) as nat,
        ),
{
    let units = e.units();
    let n = units.len() as int;
    let rest = remaining(content, pos);
    lemma_encoding_len(e);
    assert(rest.len() >= 12 + 2 * n);
    assert(rest.subrange(0, 4) == u32_be(n as u32) && rest.subrange(4, 4 + 2 * n) == units_be(
        units,
    ) && rest.subrange(4 + 2 * n, 12 + 2 * n) == u64_be(e.file_size)) by {
        lemma_units_decode_encode(units);
        lemma_parts_of_three(u32_be(n as u32), units_be(units), u64_be(e.file_size));
        lemma_part_of_front(rest, 12 + 2 * n, 0, 4);
        lemma_part_of_front(rest, 12 + 2 * n, 4, 4 + 2 * n);
        lemma_part_of_front(rest, 12 + 2 * n, 4 + 2 * n, 12 + 2 * n);
    }
    assert(be_u32(rest.subrange(0, 4)) == n) by {
        lemma_be_u32_decode_encode(n as u32);
    }
    assert(be_units(rest.subrange(4, 4 + 2 * n)) == units) by {
        lemma_units_decode_encode(units);
    }
    assert(crate::bytes::be_u64(rest.subrange(4 + 2 * n, 12 + 2 * n)) == e.file_size) by {
        lemma_be_u64_decode_encode(e.file_size);
    }
    assert(crate::utf16::utf16_valid(units) && crate::utf16::utf16_decode(units) == e.name) by {
        lemma_utf16_decode_encode(e.name);
    }
    assert(parse_entry(content, pos) == (
        Ok::<EntryView, ErrorView>(e),
        (pos + 12 + 2 * n) as nat,
    )) by {
        reveal(parse_entry);
    }
}

/// The parts of three sequences in a row.
pub proof fn lemma_parts_of_three(a: Seq<u8>, b: Seq<u8>, c: Seq<u8>)
    ensures
        (a + b + c).subrange(0, a.len() as int) == a,
        (a + b + c).subrange(a.len() as int, (a.len() + b.len()) as int) == b,
        (a + b + c).subrange((a.len() + b.len()) as int, (a.len() + b.len() + c.len()) as int)
            == c,
{
    let i = a.len() as int;
    let j = i + b.len();
    let k = j + c.len();
    assert((a + b + c).subrange(0, i) =~= a);
    assert((a + b + c).subrange(i, j) =~= b);
    assert((a + b + c).subrange(j, k) =~= c);
}

/// A part of the front of a sequence is a part of the sequence.
pub proof fn lemma_part_of_front(s: Seq<u8>, k: int, i: int, j: int)
    requires
        0 <= i <= j <= k <= s.len(),
    ensures
        s.subrange(0, k).subrange(i, j) == s.subrange(i, j),
{
    assert(s.subrange(0, k).subrange(i, j) =~= s.subrange(i, j));
}

/// Reading the bytes of a manifest of well-formed records gives the records
/// back, and leaves the stream behind them.
pub proof fn lemma_parse_encoded_manifest(content: Seq<u8>, pos: nat, entries: Seq<EntryView>)
    requires
        forall|k: int| 0 <= k < entries.len() ==> (#[trigger] entries[k]).valid(),
        pos + manifest_bytes(entries).len() <= content.len(),
        span(content, pos, manifest_bytes(entries).len()) == manifest_bytes(entries),
    ensures
        parse_entries(content, pos, entries.len()) == (
            Ok::<Seq<EntryView>, ErrorView>(entries),
            (pos + manifest_bytes(entries).len()) as nat,
        ),
    decreases entries.len(),
{
    if entries.len() == 0 {
        assert(entries =~= Seq::<EntryView>::empty());
    } else {
        let first = entries[0];
        let others = entries.drop_first();
        let a = first.encoding().len();
        let b = manifest_bytes(others).len();
        let next = (pos + a) as nat;
        lemma_manifest_front(entries);
        lemma_span_split(content, pos, a, b);
        assert(span(content, pos, a) == first.encoding()) by {
            assert(manifest_bytes(entries).subrange(0, a as int) =~= first.encoding());
        }
        assert(span(content, next, b) == manifest_bytes(others)) by {
            assert(manifest_bytes(entries).subrange(a as int, (a + b) as int) =~= manifest_bytes(
                others,
            ));
        }
        lemma_parse_encoded_entry(content, pos, first);
        assert forall|k: int| 0 <= k < others.len() implies (#[trigger] others[k]).valid() by {
            assert(others[k] == entries[k + 1]);
        }
        lemma_parse_encoded_manifest(content, next, others);
        assert(seq![first] + others =~= entries);
        lemma_parse_entries_unfold(content, pos, entries.len());
    }
}

/// Reading records in a row is reading the first and then the others.
pub proof fn lemma_parse_entries_unfold(content: Seq<u8>, pos: nat, count: nat)
    requires
        count > 0,
    ensures
        parse_entries(content, pos, count) == match parse_entry(content, pos).0 {
            Err(e) => (Err::<Seq<EntryView>, ErrorView>(e), parse_entry(content, pos).1),
            Ok(v) => match parse_entries(
                content,
                parse_entry(content, pos).1,
                (count - 1) as nat,
            ).0 {
                Err(e) => (
                    Err::<Seq<EntryView>, ErrorView>(e),
                    parse_entries(content, parse_entry(content, pos).1, (count - 1) as nat).1,
                ),
                Ok(vs) => (
                    Ok::<Seq<EntryView>, ErrorView>(seq![v] + vs),
                    parse_entries(content, parse_entry(content, pos).1, (count - 1) as nat).1,
                ),
            },
        },
{
}

/// The header that a walk has gathered has sixteen bytes and starts with
/// the magic.
pub proof fn lemma_scan_header(items: Seq<ItemView>, n: nat)
    requires
        scan_all(items, n) is Ok,
        scan_all(items, n)->Ok_0.header is Some,
    ensures
        scan_all(items, n)->Ok_0.header->Some_0.len() == 16,
        has_magic(scan_all(items, n)->Ok_0.header->Some_0),
    decreases n,
{
    if n > 0 {
        let before = scan_all(items, (n - 1) as nat)->Ok_0;
        if before.header is Some {
            lemma_scan_header(items, (n - 1) as nat);
        }
    }
}

/// The content region has as many bytes as the records say together.
pub proof fn lemma_content_len(records: Seq<RecordView>, items: Seq<ItemView>)
    requires
        forall|k: int|
            0 <= k < records.len() ==> (#[trigger] records[k]).entry.valid() && record_fits(
                records[k],
                items,
            ),
    ensures
        content_bytes(records, items).len() == total_size(entries_of(records)),
    decreases records.len(),
{
    if records.len() > 0 {
        let front = records.drop_last();
        assert forall|k: int| 0 <= k < front.len() implies (#[trigger] front[k]).entry.valid()
            && record_fits(front[k], items) by {
            assert(front[k] == records[k]);
        }
        lemma_content_len(front, items);
        assert(entries_of(records).drop_last() =~= entries_of(front));
        assert(records.last() == records[records.len() - 1]);
    }
}

/// The content of a record stands in the content region behind the content
/// of the records before it.
pub proof fn lemma_content_at(records: Seq<RecordView>, items: Seq<ItemView>, k: int)
    requires
        0 <= k < records.len(),
        forall|j: int|
            0 <= j < records.len() ==> (#[trigger] records[j]).entry.valid() && record_fits(
                records[j],
                items,
            ),
    ensures
        total_size(entries_of(records).subrange(0, k)) + records[k].entry.file_size
            <= content_bytes(records, items).len(),
        content_bytes(records, items).subrange(
            total_size(entries_of(records).subrange(0, k)) as int,
            total_size(entries_of(records).subrange(0, k)) + records[k].entry.file_size,
        ) == record_content(records[k], items),
    decreases records.len(),
{
    let front = records.drop_last();
    let all = content_bytes(records, items);
    assert forall|j: int| 0 <= j < front.len() implies (#[trigger] front[j]).entry.valid()
        && record_fits(front[j], items) by {
        assert(front[j] == records[j]);
    }
    lemma_content_len(front, items);
    assert(records[k].entry.valid() && record_fits(records[k], items));
    if k == records.len() - 1 {
        assert(entries_of(records).subrange(0, k) =~= entries_of(front));
        let off = total_size(entries_of(front));
        assert(all.subrange(off as int, off + records[k].entry.file_size) =~= record_content(
            records[k],
            items,
        ));
    } else {
        lemma_content_at(front, items, k);
        assert(entries_of(records).subrange(0, k) =~= entries_of(front).subrange(0, k));
        let off = total_size(entries_of(front).subrange(0, k));
        assert(all.subrange(off as int, off + records[k].entry.file_size) =~= content_bytes(
            front,
            items,
        ).subrange(off as int, off + front[k].entry.file_size));
    }
}

/// The item that a record of a packed tree is unpacked to: a directory for
/// a name that ends in `/`, else a file with the bytes of the item that the
/// record was made for.
pub open spec fn packed_item(r: RecordView, items: Seq<ItemView>) -> ItemView {
    ItemView {
        path: r.entry.name,
        kind: if r.entry.is_dir() {
            ItemKind::Dir
        } else {
            ItemKind::File
        },
        content: record_content(r, items),
    }
}

/// Packing and then unpacking gives the tree back: where a tree is packed,
/// with every name of 1 to 64 code units and no content under a name that
/// ends in `/`, the archive is unpacked to the header file with the same
/// sixteen bytes, followed by the items of the tree in the order of the
/// manifest, each under its manifest name and each file with the same
/// bytes. The number of records must fit in 32 bits and the length of the
/// archive in 64.
pub proof fn lemma_pack_unpack_round_trip(root: ItemView, items: Seq<ItemView>)
    requires
        pack_plan(root, items) is Ok,
        forall|i: int| 0 <= i < items.len() ==> (#[trigger] items[i]).content.len() <= u64::MAX,
        forall|k: int|
            0 <= k < pack_plan(root, items)->Ok_0.1.len() ==> (#[trigger] pack_plan(
                root,
                items,
            )->Ok_0.1[k]).entry.valid(),
        pack_plan(root, items)->Ok_0.1.len() <= u32::MAX,
        archive_bytes(
            pack_plan(root, items)->Ok_0.0,
            pack_plan(root, items)->Ok_0.1,
            items,
        ).len() <= u64::MAX,
    ensures
        unpack_items(
            archive_bytes(pack_plan(root, items)->Ok_0.0, pack_plan(root, items)->Ok_0.1, items),
            0,
        ) == Ok::<Seq<ItemView>, ErrorView>(
            seq![header_item(pack_plan(root, items)->Ok_0.0)] + pack_plan(
                root,
                items,
            )->Ok_0.1.map_values(|r: RecordView| packed_item(r, items)),
        ),
{
    let (header, records) = pack_plan(root, items)->Ok_0;
    let gathered = scan_all(items, items.len())->Ok_0;
    let entries = entries_of(records);
    let content = content_bytes(records, items);
    let bytes = archive_bytes(header, records, items);
    let end = head_bytes(header, entries).len();

    lemma_scan_header(items, items.len());
    lemma_scan_records_fit(items, items.len());
    assert forall|k: int| 0 <= k < records.len() implies (#[trigger] records[k]).entry.valid()
        && record_fits(records[k], items) by {
        let j = lemma_sorted_member(gathered.records, k);
    }
    assert forall|k: int| 0 <= k < entries.len() implies (#[trigger] entries[k]).valid() by {
        assert(entries[k] == records[k].entry);
    }
    lemma_content_len(records, items);
    lemma_parse_encoded_archive(header, entries, content);

    let files = resolved(entries, end);
    let unpacked = files.map_values(|f: FileView| unpacked_item(f, bytes));
    let packed = records.map_values(|r: RecordView| packed_item(r, items));
    assert forall|k: int| 0 <= k < records.len() implies unpacked[k] == packed[k] by {
        lemma_unpacked_is_packed(header, records, items, k);
    }
    assert(unpacked =~= packed);
}

/// What reading gives where a header and a manifest of well-formed records
/// are followed by `tail`: the header and the records, each record with the
/// offset of its content, where `tail` has as many bytes as the records say
/// together; else the failure that names the length that the manifest asks
/// for and the length that is there.
pub open spec fn encoded_archive_result(
    header: Seq<u8>,
    entries: Seq<EntryView>,
    tail: Seq<u8>,
) -> Result<ArchiveView, ErrorView> {
    let end = head_bytes(header, entries).len();
    if tail.len() == total_size(entries) {
        Ok(ArchiveView { header, files: resolved(entries, end) })
    } else {
        Err(
            ErrorView::StreamRead(
                saturating_sum(end, total_size(entries)),
                (end + tail.len()) as u64,
            ),
        )
    }
}

/// Where the parts of an archive stand in its bytes.
pub proof fn lemma_archive_layout(
    header: Seq<u8>,
    count: Seq<u8>,
    manifest: Seq<u8>,
    tail: Seq<u8>,
)
    requires
        header.len() == 16,
        count.len() == 4,
    ensures
        remaining(header + count + manifest + tail, 0) == header + count + manifest + tail,
        (header + count + manifest + tail).subrange(0, 16) == header,
        (header + count + manifest + tail).subrange(16, 20) == count,
        span(header + count + manifest + tail, 20, manifest.len()) == manifest,
        has_magic(header + count + manifest + tail) == has_magic(header),
{
    let bytes = header + count + manifest + tail;
    assert(remaining(bytes, 0) =~= bytes);
    assert(bytes.subrange(0, 16) =~= header);
    assert(bytes.subrange(16, 20) =~= count);
    assert(span(bytes, 20, manifest.len()) =~= manifest);
}

/// Reading a header and a manifest of well-formed records gives them back,
/// whatever follows them, and leaves the stream behind the manifest.
pub proof fn lemma_parse_encoded_head(header: Seq<u8>, entries: Seq<EntryView>, tail: Seq<u8>)
    requires
        header.len() == 16,
        has_magic(header),
        entries.len() <= u32::MAX,
        forall|k: int| 0 <= k < entries.len() ==> (#[trigger] entries[k]).valid(),
    ensures
        parse_manifest(head_bytes(header, entries) + tail, 0) == (
            Ok::<ArchiveView, ErrorView>(ArchiveView { header, files: unresolved(entries) }),
            head_bytes(header, entries).len(),
        ),
{
    let n = entries.len() as u32;
    let count = u32_be(n);
    let manifest = manifest_bytes(entries);
    let bytes = header + count + manifest + tail;
    let rest = remaining(bytes, 0);
    assert(bytes == head_bytes(header, entries) + tail);
    assert(be_u32(count) == n && count.len() == 4) by {
        lemma_be_u32_decode_encode(n);
    }
    assert(rest == bytes && rest.subrange(0, 16) == header && rest.subrange(16, 20) == count
        && has_magic(rest) && span(bytes, 20, manifest.len()) == manifest) by {
        lemma_archive_layout(header, count, manifest, tail);
    }
    assert(parse_entries(bytes, 20, entries.len()) == (
        Ok::<Seq<EntryView>, ErrorView>(entries),
        (20 + manifest.len()) as nat,
    )) by {
        lemma_parse_encoded_manifest(bytes, 20, entries);
    }
    assert(rest.len() >= 20);
    reveal(parse_manifest);
}

/// Reading the bytes of an archive gives its header and its records back,
/// where the content region has the length that the records say, and fails
/// with both lengths where it is shorter or longer than that.
pub proof fn lemma_parse_encoded_archive(header: Seq<u8>, entries: Seq<EntryView>, tail: Seq<u8>)
    requires
        header.len() == 16,
        has_magic(header),
        entries.len() <= u32::MAX,
        forall|k: int| 0 <= k < entries.len() ==> (#[trigger] entries[k]).valid(),
    ensures
        parse_archive(head_bytes(header, entries) + tail, 0) == (
            encoded_archive_result(header, entries, tail),
            head_bytes(header, entries).len(),
        ),
{
    lemma_parse_encoded_head(header, entries, tail);
    lemma_entries_in_unresolved(entries);
}

/// An archive whose content region lacks its last byte is refused, and the
/// failure names the length that the manifest asks for and the length that
/// is there, which is one less.
pub proof fn lemma_truncated_archive(header: Seq<u8>, entries: Seq<EntryView>, content: Seq<u8>)
    requires
        header.len() == 16,
        has_magic(header),
        entries.len() <= u32::MAX,
        forall|k: int| 0 <= k < entries.len() ==> (#[trigger] entries[k]).valid(),
        content.len() == total_size(entries),
        content.len() > 0,
        head_bytes(header, entries).len() + content.len() <= u64::MAX,
    ensures
        parse_archive(head_bytes(header, entries) + content.drop_last(), 0).0 == Err::<
            ArchiveView,
            ErrorView,
        >(
            ErrorView::StreamRead(
                (head_bytes(header, entries).len() + content.len()) as u64,
                (head_bytes(header, entries).len() + content.len() - 1) as u64,
            ),
        ),
{
    lemma_parse_encoded_archive(header, entries, content.drop_last());
}

/// An archive that does not start with the magic is refused, and the
/// failure holds the four bytes that stand in its place.
pub proof fn lemma_bad_magic(content: Seq<u8>, pos: nat)
    requires
        remaining(content, pos).len() >= 16,
        !has_magic(remaining(content, pos)),
    ensures
        parse_archive(content, pos).0 == Err::<ArchiveView, ErrorView>(
            ErrorView::Value(ValueErrorView::InvalidMagic(span(content, pos, 4))),
        ),
{
    reveal(parse_manifest);
}

/// A record whose name has no code unit, or more than 64, is refused, and
/// the failure names the bounds and the number met.
pub proof fn lemma_name_length_refused(content: Seq<u8>, pos: nat)
    requires
        remaining(content, pos).len() >= 4,
        be_u32(span(content, pos, 4)) == 0 || be_u32(span(content, pos, 4)) > 64,
    ensures
        parse_entry(content, pos).0 == Err::<EntryView, ErrorView>(
            ErrorView::Value(
                ValueErrorView::PathLenOutOfRange(1, 64, be_u32(span(content, pos, 4)) as u64),
            ),
        ),
{
    reveal(parse_entry);
}

/// In the manifest of a packed tree, a name stands before every name that
/// it is a proper prefix of: a directory is listed before everything below
/// it.
pub proof fn lemma_packed_manifest_order(root: ItemView, items: Seq<ItemView>, i: int, j: int)
    requires
        pack_plan(root, items) is Ok,
        0 <= i < pack_plan(root, items)->Ok_0.1.len(),
        0 <= j < pack_plan(root, items)->Ok_0.1.len(),
        pack_plan(root, items)->Ok_0.1[i].entry.name.len() < pack_plan(
            root,
            items,
        )->Ok_0.1[j].entry.name.len(),
        pack_plan(root, items)->Ok_0.1[i].entry.name == pack_plan(
            root,
            items,
        )->Ok_0.1[j].entry.name.subrange(
            0,
            pack_plan(root, items)->Ok_0.1[i].entry.name.len() as int,
        ),
    ensures
        i < j,
{
    let gathered = scan_all(items, items.len())->Ok_0;
    lemma_sorted_records(gathered.records);
    crate::order::lemma_prefix_precedes(sorted_records(gathered.records), i, j);
}

/// The item that a record of a packed tree is unpacked to is the item that
/// it was packed from.
pub proof fn lemma_unpacked_is_packed(
    header: Seq<u8>,
    records: Seq<RecordView>,
    items: Seq<ItemView>,
    k: int,
)
    requires
        0 <= k < records.len(),
        forall|j: int|
            0 <= j < records.len() ==> (#[trigger] records[j]).entry.valid() && record_fits(
                records[j],
                items,
            ),
        archive_bytes(header, records, items).len() <= u64::MAX,
    ensures
        unpacked_item(
            resolved(entries_of(records), head_bytes(header, entries_of(records)).len())[k],
            archive_bytes(header, records, items),
        ) == packed_item(records[k], items),
{
    let entries = entries_of(records);
    let head = head_bytes(header, entries);
    let end = head.len();
    let content = content_bytes(records, items);
    let bytes = archive_bytes(header, records, items);
    let files = resolved(entries, end);
    lemma_content_len(records, items);
    lemma_content_at(records, items, k);
    crate::unpack::lemma_total_size_prefix(entries, k);
    let off = total_size(entries.subrange(0, k));
    let size = records[k].entry.file_size;
    assert(entries[k] == records[k].entry);
    assert(files[k].entry == records[k].entry);
    assert(files[k].offset == Some((end + off) as u64));
    if !records[k].entry.is_dir() {
        assert(span(bytes, end + off, size as nat) =~= content.subrange(off as int, off + size));
    }
}

/// A record that was read is written as the bytes that it was read from.
pub proof fn lemma_parsed_entry_reencodes(content: Seq<u8>, pos: nat)
    requires
        parse_entry(content, pos).0 is Ok,
    ensures
        span(content, pos, parse_entry(content, pos).0->Ok_0.encoding().len()) == parse_entry(
            content,
            pos,
        ).0->Ok_0.encoding(),
{
    let rest = remaining(content, pos);
    let v = parse_entry(content, pos).0->Ok_0;
    let n = be_u32(rest.subrange(0, 4)) as int;
    let name_bytes = rest.subrange(4, 4 + 2 * n);
    let size_bytes = rest.subrange(4 + 2 * n, 12 + 2 * n);
    assert(rest.len() >= 12 + 2 * n && 1 <= n <= 64 && crate::utf16::utf16_valid(
        be_units(name_bytes),
    ) && v.name == crate::utf16::utf16_decode(be_units(name_bytes)) && v.file_size
        == crate::bytes::be_u64(size_bytes)) by {
        reveal(parse_entry);
    }
    assert(v.units() == be_units(name_bytes));
    assert(v.units().len() == n);
    assert(u32_be(n as u32) == rest.subrange(0, 4)) by {
        lemma_be_u32_encode_decode(rest.subrange(0, 4));
    }
    assert(units_be(v.units()) == name_bytes) by {
        lemma_units_encode_decode(name_bytes);
    }
    assert(u64_be(v.file_size) == size_bytes) by {
        lemma_be_u64_encode_decode(size_bytes);
    }
    lemma_encoding_len(v);
    lemma_three_parts(rest, 4, 4 + 2 * n, 12 + 2 * n);
}

/// Three parts of a sequence that follow one another are one part of it.
pub proof fn lemma_three_parts(s: Seq<u8>, a: int, b: int, c: int)
    requires
        0 <= a <= b <= c <= s.len(),
    ensures
        s.subrange(0, a) + s.subrange(a, b) + s.subrange(b, c) == s.subrange(0, c),
{
    assert(s.subrange(0, a) + s.subrange(a, b) + s.subrange(b, c) =~= s.subrange(0, c));
}

/// The records that were read are written as the bytes that they were read
/// from.
pub proof fn lemma_parsed_entries_reencode(content: Seq<u8>, pos: nat, count: nat)
    requires
        parse_entries(content, pos, count).0 is Ok,
    ensures
        parse_entries(content, pos, count).1 == pos + manifest_bytes(
            parse_entries(content, pos, count).0->Ok_0,
        ).len(),
        count > 0 ==> parse_entries(content, pos, count).1 <= content.len(),
        span(content, pos, manifest_bytes(parse_entries(content, pos, count).0->Ok_0).len())
            == manifest_bytes(parse_entries(content, pos, count).0->Ok_0),
    decreases count,
{
    let entries = parse_entries(content, pos, count).0->Ok_0;
    if count == 0 {
        assert(manifest_bytes(entries) =~= Seq::<u8>::empty());
        assert(span(content, pos, 0) =~= Seq::<u8>::empty());
    } else {
        lemma_parse_entries_unfold(content, pos, count);
        let first = parse_entry(content, pos).0->Ok_0;
        let next = parse_entry(content, pos).1;
        let others = parse_entries(content, next, (count - 1) as nat).0->Ok_0;
        let a = first.encoding().len();
        let b = manifest_bytes(others).len();
        crate::unpack::lemma_parsed_entry_valid(content, pos);
        lemma_parsed_entry_reencodes(content, pos);
        lemma_parsed_entries_reencode(content, next, (count - 1) as nat);
        lemma_front_of_manifest(first, others);
        assert(entries == seq![first] + others);
        assert(pos + a + b <= content.len()) by {
            if count == 1 {
                assert(manifest_bytes(others) =~= Seq::<u8>::empty());
            }
        }
        lemma_span_split(content, pos, a, b);
    }
}

/// The manifest of a record followed by others is the bytes of the record
/// followed by the manifest of the others.
pub proof fn lemma_front_of_manifest(first: EntryView, others: Seq<EntryView>)
    ensures
        manifest_bytes(seq![first] + others) == first.encoding() + manifest_bytes(others),
{
    let entries = seq![first] + others;
    assert(entries[0] == first);
    assert(entries.drop_first() =~= others);
    lemma_manifest_front(entries);
}

/// A header and a manifest that were read are written as the bytes that
/// they were read from: what is kept of an archive is kept byte for byte.
pub proof fn lemma_parsed_manifest_reencodes(content: Seq<u8>, pos: nat)
    requires
        parse_manifest(content, pos).0 is Ok,
    ensures
        parse_manifest(content, pos).1 == pos + head_bytes(
            parse_manifest(content, pos).0->Ok_0.header,
            entries_in(parse_manifest(content, pos).0->Ok_0.files),
        ).len(),
        span(
            content,
            pos,
            head_bytes(
                parse_manifest(content, pos).0->Ok_0.header,
                entries_in(parse_manifest(content, pos).0->Ok_0.files),
            ).len(),
        ) == head_bytes(
            parse_manifest(content, pos).0->Ok_0.header,
            entries_in(parse_manifest(content, pos).0->Ok_0.files),
        ),
{
    let rest = remaining(content, pos);
    let count = be_u32(rest.subrange(16, 20));
    let entries = parse_entries(content, pos + 20, count as nat).0->Ok_0;
    let end = parse_entries(content, pos + 20, count as nat).1;
    let manifest = manifest_bytes(entries);
    let header = rest.subrange(0, 16);
    assert(rest.len() >= 20 && parse_entries(content, pos + 20, count as nat).0 is Ok
        && parse_manifest(content, pos) == (
        Ok::<ArchiveView, ErrorView>(ArchiveView { header, files: unresolved(entries) }),
        end,
    )) by {
        reveal(parse_manifest);
    }
    lemma_entries_in_unresolved(entries);
    assert(entries.len() == count) by {
        crate::unpack::lemma_parsed_entries_valid(content, pos + 20, count as nat);
    }
    assert(end == pos + 20 + manifest.len() && span(content, pos + 20, manifest.len())
        == manifest && (count > 0 ==> end <= content.len())) by {
        lemma_parsed_entries_reencode(content, pos + 20, count as nat);
    }
    assert(u32_be(count) == rest.subrange(16, 20)) by {
        lemma_be_u32_encode_decode(rest.subrange(16, 20));
    }
    assert(manifest.len() == 0 || pos + 20 + manifest.len() <= content.len()) by {
        if count == 0 {
            assert(manifest =~= Seq::<u8>::empty());
        }
    }
    lemma_head_of_stream(content, pos, manifest);
    assert(head_bytes(header, entries) == header + u32_be(count) + manifest);
}

/// The first twenty bytes of a stream followed by the bytes behind them
/// are the bytes of the stream.
pub proof fn lemma_head_of_stream(content: Seq<u8>, pos: nat, manifest: Seq<u8>)
    requires
        remaining(content, pos).len() >= 20,
        manifest.len() == 0 || pos + 20 + manifest.len() <= content.len(),
        span(content, pos + 20, manifest.len()) == manifest,
    ensures
        span(content, pos, 20 + manifest.len()) == remaining(content, pos).subrange(0, 16)
            + remaining(content, pos).subrange(16, 20) + manifest,
{
    let rest = remaining(content, pos);
    if manifest.len() == 0 {
        assert(manifest =~= Seq::<u8>::empty());
    }
    assert(span(content, pos, 20 + manifest.len()) =~= rest.subrange(0, 16) + rest.subrange(
        16,
        20,
    ) + manifest);
}

} // verus!
