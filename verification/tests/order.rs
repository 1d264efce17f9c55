use laby2_repack::arch::FileSystemEntry;
use laby2_repack::order::{rank_names, record_precedes, sort_records, Rank, Record};

fn record(name: &str, size: u64, source: usize) -> Record {
    Record { entry: FileSystemEntry { name: String::from(name), file_size: size }, source }
}

#[test]
fn names_rank_by_first_difference() {
    assert_eq!(rank_names("a", "b"), Rank::Less);
    assert_eq!(rank_names("b", "a"), Rank::Greater);
    assert_eq!(rank_names("abc", "abc"), Rank::Same);
    assert_eq!(rank_names("", ""), Rank::Same);
    assert_eq!(rank_names("abd", "abc"), Rank::Greater);
    assert_eq!(rank_names("Z", "a"), Rank::Less);
}

#[test]
fn prefix_ranks_first() {
    assert_eq!(rank_names("", "a"), Rank::Less);
    assert_eq!(rank_names("sub/", "sub/b.txt"), Rank::Less);
    assert_eq!(rank_names("sub/b.txt", "sub/"), Rank::Greater);
    assert_eq!(rank_names("sub", "sub/"), Rank::Less);
}

#[test]
fn names_rank_by_code_point() {
    // U+FF5E is below U+1F600, though its UTF-16 code unit is above a surrogate.
    assert_eq!(rank_names("\u{FF5E}", "\u{1F600}"), Rank::Less);
    assert_eq!(rank_names("\u{e9}", "z"), Rank::Greater);
    // A character below `/` puts a sibling between a directory and its content.
    assert_eq!(rank_names("a!", "a/"), Rank::Less);
    assert_eq!(rank_names("a/", "a0"), Rank::Less);
}

#[test]
fn names_rank_as_strings_compare() {
    let names = ["", "a", "a/", "a/b", "a!", "ab", "b", "\u{e9}", "\u{1F600}", "\u{FF5E}", "A"];
    for a in names {
        for b in names {
            let want = match a.cmp(b) {
                std::cmp::Ordering::Less => Rank::Less,
                std::cmp::Ordering::Equal => Rank::Same,
                std::cmp::Ordering::Greater => Rank::Greater,
            };
            assert_eq!(rank_names(a, b), want, "{:?} against {:?}", a, b);
        }
    }
}

#[test]
fn records_rank_by_name_then_size_then_source() {
    assert!(record_precedes(&record("a", 9, 9), &record("b", 0, 0)));
    assert!(!record_precedes(&record("b", 0, 0), &record("a", 9, 9)));
    assert!(record_precedes(&record("a", 1, 9), &record("a", 2, 0)));
    assert!(!record_precedes(&record("a", 2, 0), &record("a", 1, 9)));
    assert!(record_precedes(&record("a", 1, 3), &record("a", 1, 4)));
    assert!(!record_precedes(&record("a", 1, 4), &record("a", 1, 3)));
    assert!(record_precedes(&record("a", 1, 3), &record("a", 1, 3)));
}

#[test]
fn sort_puts_directories_before_their_content() {
    let records = vec![
        record("sub/b.txt", 2, 3),
        record("a.txt", 2, 0),
        record("sub/deep/x", 1, 5),
        record("sub/", 0, 1),
        record("sub/deep/", 0, 4),
    ];
    let sorted = sort_records(records);
    let names: Vec<&str> = sorted.iter().map(|r| r.entry.name.as_str()).collect();
    assert_eq!(names, vec!["a.txt", "sub/", "sub/b.txt", "sub/deep/", "sub/deep/x"]);
    let sources: Vec<usize> = sorted.iter().map(|r| r.source).collect();
    assert_eq!(sources, vec![0, 1, 3, 4, 5]);
}

#[test]
fn sort_keeps_every_record() {
    let records = vec![
        record("b", 1, 0),
        record("a", 5, 1),
        record("b", 1, 2),
        record("a", 2, 3),
        record("b", 0, 4),
    ];
    let sorted = sort_records(records);
    assert_eq!(
        sorted,
        vec![
            record("a", 2, 3),
            record("a", 5, 1),
            record("b", 0, 4),
            record("b", 1, 0),
            record("b", 1, 2),
        ]
    );
    assert_eq!(sort_records(Vec::new()), Vec::new());
}

#[test]
fn sort_agrees_with_the_derived_order() {
    let names = ["q", "a/", "a/b", "a!", "ab", "b", "\u{e9}", "\u{1F600}", "\u{FF5E}", "A", "a"];
    let mut entries: Vec<FileSystemEntry> = Vec::new();
    let mut records = Vec::new();
    for (i, name) in names.iter().enumerate() {
        let size = (names.len() - i) as u64;
        entries.push(FileSystemEntry { name: String::from(*name), file_size: size });
        records.push(record(name, size, i));
    }
    entries.sort_unstable();
    let sorted: Vec<FileSystemEntry> = sort_records(records).into_iter().map(|r| r.entry).collect();
    assert_eq!(sorted, entries);
}
