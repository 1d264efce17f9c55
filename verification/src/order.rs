//! The order of the manifest: by name, character by character.

use crate::arch::{EntryView, FileSystemEntry};
use vstd::multiset::Multiset;
use vstd::prelude::*;
use vstd::relations::{sorted_by, total_ordering};
use vstd::seq_lib::to_multiset_insert;
use vstd::std_specs::iter::IteratorSpec;

verus! {

/// How one value stands to another in an order.
#[derive(Debug, Clone, Copy, PartialEq, Eq, Structural)]
pub enum Rank {
    Less,
    Same,
    Greater,
}

/// How the text `a` stands to `b` in lexicographic order: the first
/// character in which they differ decides, by its code point; a text comes
/// before every text that it is a proper prefix of.
pub open spec fn name_rank(a: Seq<char>, b: Seq<char>) -> Rank
    decreases a.len(),
{
    if a.len() == 0 && b.len() == 0 {
        Rank::Same
    } else if a.len() == 0 {
        Rank::Less
    } else if b.len() == 0 {
        Rank::Greater
    } else if a[0] != b[0] {
        if (a[0] as int) < (b[0] as int) {
            Rank::Less
        } else {
            Rank::Greater
        }
    } else {
        name_rank(a.drop_first(), b.drop_first())
    }
}

/// The code points that a character can have.
pub proof fn lemma_char_range(c: char)
    ensures
        0 <= c as int <= 0x10_FFFF,
        !(0xD800 <= c as int <= 0xDFFF),
        c as u32 as int == c as int,
{
}

/// Compares two texts in lexicographic order.
pub fn rank_names(a: &str, b: &str) -> (r: Rank)
    ensures
        r == name_rank(a@, b@),
{
    broadcast use vstd::string::group_string_axioms;

    let mut ia = a.chars();
    let mut ib = b.chars();
    let ghost mut left: nat = a@.len();
    loop
        invariant
            ia.obeys_prophetic_iter_laws(),
            ib.obeys_prophetic_iter_laws(),
            name_rank(a@, b@) == name_rank(ia.remaining(), ib.remaining()),
            left == ia.remaining().len(),
        decreases left,
    {
        let ca = ia.next();
        let cb = ib.next();
        proof {
            if ca is Some {
                left = (left - 1) as nat;
            }
        }
        match (ca, cb) {
            (None, None) => {
                return Rank::Same;
            },
            (None, Some(_)) => {
                return Rank::Less;
            },
            (Some(_), None) => {
                return Rank::Greater;
            },
            (Some(x), Some(y)) => {
                proof {
                    lemma_char_range(x);
                    lemma_char_range(y);
                }
                if x != y {
                    if (x as u32) < (y as u32) {
                        return Rank::Less;
                    } else {
                        return Rank::Greater;
                    }
                }
            },
        }
    }
}

/// A text stands to itself as `Same`, and only to itself.
pub proof fn lemma_name_rank_same(a: Seq<char>, b: Seq<char>)
    ensures
        name_rank(a, b) == Rank::Same <==> a == b,
    decreases a.len(),
{
    if a.len() > 0 && b.len() > 0 {
        lemma_name_rank_same(a.drop_first(), b.drop_first());
        if a[0] == b[0] && a.drop_first() == b.drop_first() {
            assert(a =~= seq![a[0]] + a.drop_first());
            assert(b =~= seq![b[0]] + b.drop_first());
        }
    } else if a.len() == 0 && b.len() == 0 {
        assert(a =~= b);
    }
}

/// Where `a` comes before `b`, `b` comes after `a`.
pub proof fn lemma_name_rank_flip(a: Seq<char>, b: Seq<char>)
    ensures
        name_rank(a, b) == Rank::Less <==> name_rank(b, a) == Rank::Greater,
        name_rank(a, b) == Rank::Same <==> name_rank(b, a) == Rank::Same,
    decreases a.len(),
{
    if a.len() > 0 && b.len() > 0 {
        lemma_name_rank_flip(a.drop_first(), b.drop_first());
    }
}

/// Texts in a row stay in a row: where `a` does not come after `b`, nor `b`
/// after `c`, `a` does not come after `c`, and comes before it where one of
/// the two steps is strict.
pub proof fn lemma_name_rank_transitive(a: Seq<char>, b: Seq<char>, c: Seq<char>)
    requires
        name_rank(a, b) != Rank::Greater,
        name_rank(b, c) != Rank::Greater,
    ensures
        name_rank(a, c) != Rank::Greater,
        name_rank(a, b) == Rank::Less || name_rank(b, c) == Rank::Less ==> name_rank(a, c)
            == Rank::Less,
    decreases a.len(),
{
    if a.len() > 0 && b.len() > 0 && c.len() > 0 {
        if a[0] == b[0] && b[0] == c[0] {
            lemma_name_rank_transitive(a.drop_first(), b.drop_first(), c.drop_first());
        }
    }
}

/// A text comes before every text that it is a proper prefix of.
pub proof fn lemma_prefix_comes_first(a: Seq<char>, b: Seq<char>)
    requires
        a.len() < b.len(),
        a == b.subrange(0, a.len() as int),
    ensures
        name_rank(a, b) == Rank::Less,
    decreases a.len(),
{
    if a.len() > 0 {
        assert(a[0] == b.subrange(0, a.len() as int)[0]);
        assert(a.drop_first() =~= b.drop_first().subrange(0, a.len() - 1));
        lemma_prefix_comes_first(a.drop_first(), b.drop_first());
    }
}

/// A manifest record together with the place of its item in the walk that
/// found it.
#[derive(Debug, Clone, PartialEq, Eq)]
pub struct Record {
    pub entry: FileSystemEntry,
    pub source: usize,
}

/// What a record with its place says.
pub struct RecordView {
    pub entry: EntryView,
    pub source: nat,
}

impl View for Record {
    type V = RecordView;

    open spec fn view(&self) -> RecordView {
        RecordView { entry: self.entry@, source: self.source as nat }
    }
}

/// What the records say, in order.
pub open spec fn record_views(records: Seq<Record>) -> Seq<RecordView> {
    records.map_values(|r: Record| r@)
}

/// The order of the manifest: by name, then by file size, then by place in
/// the walk.
pub open spec fn record_le(a: RecordView, b: RecordView) -> bool {
    match name_rank(a.entry.name, b.entry.name) {
        Rank::Less => true,
        Rank::Greater => false,
        Rank::Same => a.entry.file_size < b.entry.file_size || (a.entry.file_size
            == b.entry.file_size && a.source <= b.source),
    }
}

/// The order of the manifest is a total order.
pub proof fn lemma_record_le_total()
    ensures
        total_ordering(|a: RecordView, b: RecordView| record_le(a, b)),
{
    let le = |a: RecordView, b: RecordView| record_le(a, b);
    assert forall|x: RecordView| #[trigger] le(x, x) by {
        lemma_name_rank_same(x.entry.name, x.entry.name);
    }
    assert forall|x: RecordView, y: RecordView| #[trigger] le(x, y) && #[trigger] le(
        y,
        x,
    ) implies x == y by {
        lemma_name_rank_flip(x.entry.name, y.entry.name);
        lemma_name_rank_same(x.entry.name, y.entry.name);
    }
    assert forall|x: RecordView, y: RecordView, z: RecordView| #[trigger]
        le(x, y) && #[trigger] le(y, z) implies le(x, z) by {
        lemma_record_le_transitive(x, y, z);
    }
    assert forall|x: RecordView, y: RecordView| #[trigger] le(x, y) || #[trigger] le(y, x) by {
        lemma_name_rank_flip(x.entry.name, y.entry.name);
    }
}

/// Records in a row stay in a row.
pub proof fn lemma_record_le_transitive(x: RecordView, y: RecordView, z: RecordView)
    requires
        record_le(x, y),
        record_le(y, z),
    ensures
        record_le(x, z),
{
    lemma_name_rank_transitive(x.entry.name, y.entry.name, z.entry.name);
    lemma_name_rank_same(x.entry.name, y.entry.name);
    lemma_name_rank_same(y.entry.name, z.entry.name);
    lemma_name_rank_same(x.entry.name, z.entry.name);
}

/// Of two records, one does not come after the other.
pub proof fn lemma_record_le_connected(x: RecordView, y: RecordView)
    ensures
        record_le(x, y) || record_le(y, x),
{
    lemma_name_rank_flip(x.entry.name, y.entry.name);
}

/// Whether `a` does not come after `b` in the order of the manifest.
pub fn record_precedes(a: &Record, b: &Record) -> (r: bool)
    ensures
        r == record_le(a@, b@),
{
    match rank_names(a.entry.name.as_str(), b.entry.name.as_str()) {
        Rank::Less => true,
        Rank::Greater => false,
        Rank::Same => a.entry.file_size < b.entry.file_size || (a.entry.file_size
            == b.entry.file_size && a.source <= b.source),
    }
}

/// Whether the records stand in the order of the manifest.
pub open spec fn records_sorted(records: Seq<RecordView>) -> bool {
    forall|i: int, j: int|
        0 <= i < j < records.len() ==> record_le(#[trigger] records[i], #[trigger] records[j])
}

/// Where a record belongs among sorted records: behind all that do not come
/// after it, and before all that do.
fn insertion_point(sorted: &Vec<Record>, r: &Record) -> (at: usize)
    requires
        records_sorted(record_views(sorted@)),
    ensures
        at <= sorted@.len(),
        forall|j: int| 0 <= j < at ==> record_le(#[trigger] record_views(sorted@)[j], r@),
        forall|j: int|
            at <= j < sorted@.len() ==> record_le(r@, #[trigger] record_views(sorted@)[j])
                && !record_le(record_views(sorted@)[j], r@),
{
    let ghost views = record_views(sorted@);
    let mut lo: usize = 0;
    let mut hi: usize = sorted.len();
    while lo < hi
        invariant
            lo <= hi <= sorted@.len(),
            views == record_views(sorted@),
            records_sorted(views),
            forall|j: int| 0 <= j < lo ==> record_le(#[trigger] views[j], r@),
            forall|j: int|
                hi <= j < sorted@.len() ==> record_le(r@, #[trigger] views[j]) && !record_le(
                    views[j],
                    r@,
                ),
        decreases hi - lo,
    {
        let mid = lo + (hi - lo) / 2;
        assert(views[mid as int] == sorted@[mid as int]@);
        if record_precedes(&sorted[mid], r) {
            assert forall|j: int| 0 <= j < mid + 1 implies record_le(#[trigger] views[j], r@) by {
                if j < mid {
                    lemma_record_le_transitive(views[j], views[mid as int], r@);
                }
            }
            lo = mid + 1;
        } else {
            assert forall|j: int| mid <= j < sorted@.len() implies record_le(
                r@,
                #[trigger] views[j],
            ) && !record_le(views[j], r@) by {
                lemma_record_le_connected(views[mid as int], r@);
                if j > mid {
                    lemma_record_le_transitive(r@, views[mid as int], views[j]);
                    if record_le(views[j], r@) {
                        lemma_record_le_transitive(views[mid as int], views[j], r@);
                    }
                }
            }
            hi = mid;
        }
    }
    lo
}

/// Sorts the records into the order of the manifest.
pub fn sort_records(records: Vec<Record>) -> (sorted: Vec<Record>)
    ensures
        records_sorted(record_views(sorted@)),
        record_views(sorted@).to_multiset() == record_views(records@).to_multiset(),
        sorted@.len() == records@.len(),
        record_views(sorted@) == sorted_records(record_views(records@)),
{
    let mut rest = records;
    let mut sorted: Vec<Record> = Vec::new();
    assert(record_views(sorted@) =~= Seq::<RecordView>::empty());
    assert(record_views(sorted@).to_multiset().add(record_views(rest@).to_multiset())
        =~= record_views(records@).to_multiset()) by {
        broadcast use vstd::seq_lib::group_to_multiset_ensures;

    }
    while rest.len() > 0
        invariant
            records_sorted(record_views(sorted@)),
            record_views(sorted@).to_multiset().add(record_views(rest@).to_multiset())
                == record_views(records@).to_multiset(),
            sorted@.len() + rest@.len() == records@.len(),
        decreases rest@.len(),
    {
        let ghost before = record_views(rest@);
        let ghost out = record_views(sorted@);
        let r = rest.pop().unwrap();
        let at = insertion_point(&sorted, &r);
        sorted.insert(at, r);
        proof {
            let after = record_views(rest@);
            assert(after =~= before.drop_last());
            assert(before =~= after.push(r@));
            vstd::seq_lib::to_multiset_build(after, r@);
            assert(record_views(sorted@) =~= out.insert(at as int, r@));
            to_multiset_insert(out, at as int, r@);
            assert(out.to_multiset().insert(r@).add(after.to_multiset()) =~= out.to_multiset().add(
                after.to_multiset().insert(r@),
            ));
            let now = record_views(sorted@);
            assert forall|i: int, j: int| 0 <= i < j < now.len() implies record_le(
                now[i],
                now[j],
            ) by {
                assert(forall|k: int| 0 <= k < at ==> now[k] == out[k]);
                assert(forall|k: int| at < k < now.len() ==> now[k] == out[k - 1]);
                assert(now[at as int] == r@);
                if i < at && j > at {
                    assert(now[i] == out[i]);
                    assert(now[j] == out[j - 1]);
                } else if i == at {
                    assert(now[j] == out[j - 1]);
                } else if j == at {
                    assert(now[i] == out[i]);
                } else if j < at {
                    assert(now[i] == out[i] && now[j] == out[j]);
                } else {
                    assert(now[i] == out[i - 1] && now[j] == out[j - 1]);
                }
            }
        }
    }
    assert(record_views(rest@) =~= Seq::<RecordView>::empty());
    assert(record_views(rest@).to_multiset() =~= Multiset::<RecordView>::empty()) by {
        broadcast use vstd::seq_lib::group_to_multiset_ensures;

    }
    assert(record_views(sorted@).to_multiset().add(Multiset::<RecordView>::empty())
        =~= record_views(sorted@).to_multiset());
    proof {
        lemma_sorted_records(record_views(records@));
        lemma_sorted_records_unique(
            record_views(sorted@),
            sorted_records(record_views(records@)),
        );
    }
    sorted
}

/// The records in the order of the manifest.
pub open spec fn sorted_records(records: Seq<RecordView>) -> Seq<RecordView> {
    records.sort_by(|a: RecordView, b: RecordView| record_le(a, b))
}

/// There is one way to put records into the order of the manifest: sorted
/// records with the same members are the same sequence.
pub proof fn lemma_sorted_records_unique(x: Seq<RecordView>, y: Seq<RecordView>)
    requires
        records_sorted(x),
        records_sorted(y),
        x.to_multiset() == y.to_multiset(),
    ensures
        x == y,
{
    let le = |a: RecordView, b: RecordView| record_le(a, b);
    lemma_record_le_total();
    assert(sorted_by(x, le)) by {
        assert forall|i: int, j: int| 0 <= i < j < x.len() implies #[trigger] le(x[i], x[j]) by {
            assert(record_le(x[i], x[j]));
        }
    }
    assert(sorted_by(y, le)) by {
        assert forall|i: int, j: int| 0 <= i < j < y.len() implies #[trigger] le(y[i], y[j]) by {
            assert(record_le(y[i], y[j]));
        }
    }
    vstd::seq_lib::lemma_sorted_unique(x, y, le);
}

/// The sorted records stand in the order of the manifest and are the
/// records that were given.
pub proof fn lemma_sorted_records(records: Seq<RecordView>)
    ensures
        records_sorted(sorted_records(records)),
        sorted_records(records).to_multiset() == records.to_multiset(),
        sorted_records(records).len() == records.len(),
{
    let le = |a: RecordView, b: RecordView| record_le(a, b);
    lemma_record_le_total();
    records.lemma_sort_by_ensures(le);
    let s = sorted_records(records);
    assert forall|i: int, j: int| 0 <= i < j < s.len() implies record_le(
        #[trigger] s[i],
        #[trigger] s[j],
    ) by {
        assert(le(s[i], s[j]));
    }
    vstd::seq_lib::to_multiset_len(s);
    vstd::seq_lib::to_multiset_len(records);
}

/// In a sorted manifest, a name comes before every name that it is a proper
/// prefix of: a directory is listed before everything below it.
pub proof fn lemma_prefix_precedes(records: Seq<RecordView>, i: int, j: int)
    requires
        records_sorted(records),
        0 <= i < records.len(),
        0 <= j < records.len(),
        records[i].entry.name.len() < records[j].entry.name.len(),
        records[i].entry.name == records[j].entry.name.subrange(
            0,
            records[i].entry.name.len() as int,
        ),
    ensures
        i < j,
{
    lemma_prefix_comes_first(records[i].entry.name, records[j].entry.name);
    lemma_name_rank_flip(records[i].entry.name, records[j].entry.name);
    if j < i {
        assert(record_le(records[j], records[i]));
    }
}

} // verus!
