use sorty::traverse::{Entry, EntryKind, ScanError, Traversal};
use std::collections::HashMap;

/// A directory tree in memory: each directory's listing by its path, `None`
/// for a directory that cannot be listed.
struct FakeFs {
    listings: HashMap<String, Option<Vec<Entry<String>>>>,
}

fn entry(path: &str, kind: EntryKind) -> Entry<String> {
    Entry { path: path.to_string(), kind }
}

fn file(path: &str, len: u64) -> Entry<String> {
    entry(path, EntryKind::File { len })
}

fn dir(path: &str) -> Entry<String> {
    entry(path, EntryKind::Directory)
}

fn fake(listings: Vec<(&str, Option<Vec<Entry<String>>>)>) -> FakeFs {
    let mut map = HashMap::new();
    for (path, listing) in listings {
        map.insert(path.to_string(), listing);
    }
    FakeFs { listings: map }
}

/// Runs a traversal to its end and returns the lists and the directories
/// that were listed, in order.
fn scan(
    fs: &FakeFs,
    root: &str,
    found: Option<EntryKind>,
    recursive: bool,
) -> Result<(Vec<String>, Vec<String>, Vec<String>), ScanError> {
    let mut traversal = Traversal::begin(root.to_string(), found, recursive)?;
    let mut asked = Vec::new();
    while let Some(directory) = traversal.next_directory() {
        let listing = fs.listings.get(&directory).cloned().flatten();
        asked.push(directory);
        traversal.listed(listing)?;
    }
    let (files, empty_files) = traversal.finish();
    Ok((files, empty_files, asked))
}

fn names(list: &[&str]) -> Vec<String> {
    list.iter().map(|s| s.to_string()).collect()
}

#[test]
fn empty_root_directory_gives_empty_lists() {
    let fs = fake(vec![("root", Some(vec![]))]);
    let (files, empty, asked) = scan(&fs, "root", Some(EntryKind::Directory), true).unwrap();
    assert_eq!(files, Vec::<String>::new());
    assert_eq!(empty, Vec::<String>::new());
    assert_eq!(asked, names(&["root"]));
}

#[test]
fn files_are_split_by_emptiness() {
    let fs = fake(vec![(
        "root",
        Some(vec![
            file("root/a.txt", 5),
            file("root/b.txt", 5),
            file("root/c.txt", 5),
            file("root/d.txt", 0),
        ]),
    )]);
    let (files, empty, _) = scan(&fs, "root", Some(EntryKind::Directory), false).unwrap();
    assert_eq!(files, names(&["root/a.txt", "root/b.txt", "root/c.txt"]));
    assert_eq!(empty, names(&["root/d.txt"]));
}

#[test]
fn missing_root_is_path_not_found() {
    let fs = fake(vec![]);
    assert_eq!(scan(&fs, "nowhere", None, true).unwrap_err(), ScanError::PathNotFound);
    assert_eq!(scan(&fs, "nowhere", None, false).unwrap_err(), ScanError::PathNotFound);
}

#[test]
fn root_without_readable_metadata_is_path_not_found() {
    let fs = fake(vec![]);
    assert_eq!(
        scan(&fs, "locked", Some(EntryKind::Unreadable), true).unwrap_err(),
        ScanError::PathNotFound
    );
}

#[test]
fn root_that_cannot_be_listed_is_a_traversal_failure() {
    let fs = fake(vec![("root", None)]);
    assert_eq!(
        scan(&fs, "root", Some(EntryKind::Directory), false).unwrap_err(),
        ScanError::TraversalFailure
    );
}

#[test]
fn subdirectory_that_cannot_be_listed_fails_a_recursive_scan_only() {
    let fs = fake(vec![
        ("root", Some(vec![file("root/a", 1), dir("root/sub"), file("root/b", 2)])),
        ("root/sub", None),
    ]);
    assert_eq!(
        scan(&fs, "root", Some(EntryKind::Directory), true).unwrap_err(),
        ScanError::TraversalFailure
    );
    let (files, empty, asked) = scan(&fs, "root", Some(EntryKind::Directory), false).unwrap();
    assert_eq!(files, names(&["root/a", "root/b"]));
    assert!(empty.is_empty());
    assert_eq!(asked, names(&["root"]));
}

#[test]
fn single_file_root_is_classified_like_a_leaf() {
    let fs = fake(vec![]);
    let (files, empty, asked) = scan(&fs, "one.bin", Some(EntryKind::File { len: 9 }), true).unwrap();
    assert_eq!(files, names(&["one.bin"]));
    assert!(empty.is_empty());
    assert!(asked.is_empty());
    let (files, empty, _) = scan(&fs, "none.bin", Some(EntryKind::File { len: 0 }), false).unwrap();
    assert!(files.is_empty());
    assert_eq!(empty, names(&["none.bin"]));
}

#[test]
fn root_that_is_neither_file_nor_directory_gives_empty_lists() {
    let fs = fake(vec![]);
    let (files, empty, asked) = scan(&fs, "socket", Some(EntryKind::Other), true).unwrap();
    assert!(files.is_empty());
    assert!(empty.is_empty());
    assert!(asked.is_empty());
}

fn nested() -> FakeFs {
    fake(vec![
        (
            "r",
            Some(vec![file("r/a", 3), dir("r/s"), file("r/b", 4), dir("r/t"), file("r/e", 0)]),
        ),
        ("r/s", Some(vec![file("r/s/c", 5), dir("r/s/u"), file("r/s/z", 0)])),
        ("r/s/u", Some(vec![dir("r/s/u/v"), file("r/s/u/d", 6)])),
        ("r/s/u/v", Some(vec![file("r/s/u/v/deep", 7)])),
        ("r/t", Some(vec![])),
    ])
}

#[test]
fn non_recursive_scan_never_reports_files_in_subdirectories() {
    let (files, empty, asked) = scan(&nested(), "r", Some(EntryKind::Directory), false).unwrap();
    assert_eq!(files, names(&["r/a", "r/b"]));
    assert_eq!(empty, names(&["r/e"]));
    assert_eq!(asked, names(&["r"]));
}

#[test]
fn recursive_scan_reports_files_at_every_depth_depth_first() {
    let (files, empty, asked) = scan(&nested(), "r", Some(EntryKind::Directory), true).unwrap();
    assert_eq!(files, names(&["r/a", "r/s/c", "r/s/u/v/deep", "r/s/u/d", "r/b"]));
    assert_eq!(empty, names(&["r/s/z", "r/e"]));
    assert_eq!(asked, names(&["r", "r/s", "r/s/u", "r/s/u/v", "r/t"]));
}

#[test]
fn symbolic_links_and_unreadable_entries_are_skipped_without_failure() {
    let fs = fake(vec![(
        "r",
        Some(vec![
            entry("r/link", EntryKind::Other),
            file("r/a", 1),
            entry("r/locked", EntryKind::Unreadable),
            file("r/z", 0),
            entry("r/dev", EntryKind::Other),
        ]),
    )]);
    for recursive in [false, true] {
        let (files, empty, _) = scan(&fs, "r", Some(EntryKind::Directory), recursive).unwrap();
        assert_eq!(files, names(&["r/a"]));
        assert_eq!(empty, names(&["r/z"]));
    }
}

#[test]
fn scanning_twice_gives_the_same_lists() {
    let first = scan(&nested(), "r", Some(EntryKind::Directory), true).unwrap();
    let second = scan(&nested(), "r", Some(EntryKind::Directory), true).unwrap();
    assert_eq!(first, second);
}

#[test]
fn next_directory_stops_at_each_directory_in_turn() {
    let mut t = Traversal::begin("r".to_string(), Some(EntryKind::Directory), true).unwrap();
    assert_eq!(t.next_directory(), Some("r".to_string()));
    assert_eq!(t.listed(Some(vec![file("r/a", 1), dir("r/s"), file("r/b", 2)])), Ok(()));
    assert_eq!(t.next_directory(), Some("r/s".to_string()));
    assert_eq!(t.listed(Some(vec![file("r/s/c", 3)])), Ok(()));
    assert_eq!(t.next_directory(), None);
    assert_eq!(t.next_directory(), None);
    let (files, empty) = t.finish();
    assert_eq!(files, names(&["r/a", "r/s/c", "r/b"]));
    assert!(empty.is_empty());
}

#[test]
fn finish_before_the_end_gives_what_was_found_so_far() {
    let mut t = Traversal::begin("r".to_string(), Some(EntryKind::Directory), true).unwrap();
    assert_eq!(t.next_directory(), Some("r".to_string()));
    assert_eq!(t.listed(Some(vec![file("r/a", 1), dir("r/s"), file("r/b", 2)])), Ok(()));
    assert_eq!(t.next_directory(), Some("r/s".to_string()));
    let (files, empty) = t.finish();
    assert_eq!(files, names(&["r/a"]));
    assert!(empty.is_empty());
}

#[test]
fn a_failed_listing_leaves_the_traversal_as_it_was() {
    let mut t = Traversal::begin("r".to_string(), Some(EntryKind::Directory), true).unwrap();
    assert_eq!(t.next_directory(), Some("r".to_string()));
    assert_eq!(t.listed(Some(vec![dir("r/s"), file("r/b", 2)])), Ok(()));
    assert_eq!(t.next_directory(), Some("r/s".to_string()));
    assert_eq!(t.listed(None), Err(ScanError::TraversalFailure));
    assert_eq!(t.next_directory(), None);
    let (files, _) = t.finish();
    assert_eq!(files, names(&["r/b"]));
}
