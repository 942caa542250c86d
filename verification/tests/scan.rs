use sorty::buckets::{group_by_size, Measured};
use sorty::content::{group_by_hash, hash_candidates, DuplicateGroup};
use sorty::digest::{digest_of, hash_file_step, ContentHasher, Digest, HashStep};
use sorty::traverse::{Entry, EntryKind, ScanError, Traversal};
use std::cell::Cell;
use std::collections::HashMap;

/// What stands at one path of a file system held in memory.
#[derive(Clone)]
enum Node {
    Dir(Vec<String>),
    LockedDir,
    File(Vec<u8>),
    /// A file whose metadata can be read but whose content cannot.
    SealedFile(u64),
    Link,
    Hidden,
}

struct Disk {
    nodes: HashMap<String, Node>,
    hashed: Cell<usize>,
}

fn disk(nodes: Vec<(&str, Node)>) -> Disk {
    Disk {
        nodes: nodes.into_iter().map(|(p, n)| (p.to_string(), n)).collect(),
        hashed: Cell::new(0),
    }
}

fn dir(children: &[&str]) -> Node {
    Node::Dir(children.iter().map(|s| s.to_string()).collect())
}

fn file(content: &[u8]) -> Node {
    Node::File(content.to_vec())
}

impl Disk {
    fn kind(&self, path: &str) -> Option<EntryKind> {
        Some(match self.nodes.get(path)? {
            Node::Dir(_) | Node::LockedDir => EntryKind::Directory,
            Node::File(content) => EntryKind::File { len: content.len() as u64 },
            Node::SealedFile(len) => EntryKind::File { len: *len },
            Node::Link => EntryKind::Other,
            Node::Hidden => EntryKind::Unreadable,
        })
    }

    fn list(&self, path: &str) -> Option<Vec<Entry<String>>> {
        match self.nodes.get(path)? {
            Node::Dir(children) => Some(
                children
                    .iter()
                    .map(|c| Entry { path: c.clone(), kind: self.kind(c).unwrap() })
                    .collect(),
            ),
            _ => None,
        }
    }

    fn size(&self, path: &str) -> Option<u64> {
        match self.kind(path)? {
            EntryKind::File { len } => Some(len),
            _ => None,
        }
    }

    /// Reads the file in small pieces, as a program reads a file from disk.
    fn hash(&self, path: &str) -> Option<Digest> {
        self.hashed.set(self.hashed.get() + 1);
        let content = match self.nodes.get(path)? {
            Node::File(content) => content,
            _ => return None,
        };
        let mut hasher = ContentHasher::new();
        let mut at = 0;
        loop {
            let end = (at + 3).min(content.len());
            match hash_file_step(&mut hasher, &content[at..end]) {
                HashStep::More => at = end,
                HashStep::Done(digest) => return Some(digest),
                HashStep::TooLong => return None,
            }
        }
    }

    fn scan(
        &self,
        root: &str,
        recursive: bool,
    ) -> Result<(Vec<DuplicateGroup<String>>, Vec<String>), ScanError> {
        let mut traversal = Traversal::begin(root.to_string(), self.kind(root), recursive)?;
        while let Some(directory) = traversal.next_directory() {
            traversal.listed(self.list(&directory))?;
        }
        let (files, empty_files) = traversal.finish();
        let measured = files
            .into_iter()
            .map(|path| {
                let size = self.size(&path);
                Measured { path, size }
            })
            .collect();
        let hashed = hash_candidates(group_by_size(measured))
            .into_iter()
            .map(|c| {
                let digest = self.hash(&c.path);
                c.hashed(digest)
            })
            .collect();
        Ok((group_by_hash(hashed), empty_files))
    }
}

fn members(groups: &[DuplicateGroup<String>]) -> Vec<Vec<String>> {
    groups.iter().map(|g| g.members().clone()).collect()
}

#[test]
fn two_hellos_a_world_and_an_empty_file() {
    let d = disk(vec![
        ("dir", dir(&["a.txt", "b.txt", "c.txt", "d.txt"])),
        ("a.txt", file(b"hello")),
        ("b.txt", file(b"hello")),
        ("c.txt", file(b"world")),
        ("d.txt", file(b"")),
    ]);
    let (groups, empty_files) = d.scan("dir", false).unwrap();
    assert_eq!(groups.len(), 1);
    assert_eq!(groups[0].original(), "a.txt");
    assert_eq!(groups[0].duplicates(), ["b.txt".to_string()]);
    assert_eq!(groups[0].digest(), digest_of(b"hello"));
    assert_eq!(empty_files, vec!["d.txt"]);
    assert!(members(&groups).iter().all(|g| !g.contains(&"c.txt".to_string())));
    assert!(members(&groups).iter().all(|g| !g.contains(&"d.txt".to_string())));
    assert_eq!(d.hashed.get(), 3);
}

#[test]
fn two_files_of_one_size_and_different_content_form_no_group() {
    let d = disk(vec![("dir", dir(&["x", "y"])), ("x", file(b"abc")), ("y", file(b"abd"))]);
    let (groups, empty_files) = d.scan("dir", true).unwrap();
    assert!(groups.is_empty());
    assert!(empty_files.is_empty());
    assert_eq!(d.hashed.get(), 2);
}

#[test]
fn empty_root_directory_gives_an_empty_report() {
    let d = disk(vec![("dir", dir(&[]))]);
    for recursive in [false, true] {
        let (groups, empty_files) = d.scan("dir", recursive).unwrap();
        assert!(groups.is_empty());
        assert!(empty_files.is_empty());
    }
    assert_eq!(d.hashed.get(), 0);
}

#[test]
fn empty_files_are_listed_and_never_hashed_or_grouped() {
    let d = disk(vec![
        ("dir", dir(&["e1", "e2", "e3", "only"])),
        ("e1", file(b"")),
        ("e2", file(b"")),
        ("e3", file(b"")),
        ("only", file(b"content")),
    ]);
    let (groups, empty_files) = d.scan("dir", false).unwrap();
    assert!(groups.is_empty());
    assert_eq!(empty_files, vec!["e1", "e2", "e3"]);
    assert_eq!(d.hashed.get(), 0);
}

#[test]
fn files_of_unique_size_cost_no_hashing() {
    let d = disk(vec![
        ("dir", dir(&["one", "two", "three", "twin1", "twin2"])),
        ("one", file(b"1")),
        ("two", file(b"22")),
        ("three", file(b"333")),
        ("twin1", file(b"4444")),
        ("twin2", file(b"4444")),
    ]);
    let (groups, _) = d.scan("dir", false).unwrap();
    assert_eq!(members(&groups), vec![vec!["twin1", "twin2"]]);
    assert_eq!(d.hashed.get(), 2);
}

fn deep_disk() -> Disk {
    disk(vec![
        ("r", dir(&["r/a", "r/s", "r/b"])),
        ("r/a", file(b"same")),
        ("r/b", file(b"same")),
        ("r/s", dir(&["r/s/c", "r/s/t"])),
        ("r/s/c", file(b"same")),
        ("r/s/t", dir(&["r/s/t/d", "r/s/t/z"])),
        ("r/s/t/d", file(b"same")),
        ("r/s/t/z", file(b"")),
    ])
}

#[test]
fn only_a_recursive_scan_finds_duplicates_in_subdirectories() {
    let (flat, flat_empty) = deep_disk().scan("r", false).unwrap();
    assert_eq!(members(&flat), vec![vec!["r/a", "r/b"]]);
    assert!(flat_empty.is_empty());
    let (deep, deep_empty) = deep_disk().scan("r", true).unwrap();
    assert_eq!(members(&deep), vec![vec!["r/a", "r/s/c", "r/s/t/d", "r/b"]]);
    assert_eq!(deep[0].original(), "r/a");
    assert_eq!(deep_empty, vec!["r/s/t/z"]);
}

#[test]
fn links_and_unreadable_entries_are_in_no_list_and_stop_nothing() {
    let d = disk(vec![
        ("r", dir(&["link", "a", "hidden", "sealed", "b", "z"])),
        ("link", Node::Link),
        ("hidden", Node::Hidden),
        ("a", file(b"twin!")),
        ("b", file(b"twin!")),
        ("sealed", Node::SealedFile(5)),
        ("z", file(b"")),
    ]);
    let (groups, empty_files) = d.scan("r", true).unwrap();
    assert_eq!(members(&groups), vec![vec!["a", "b"]]);
    assert_eq!(empty_files, vec!["z"]);
}

#[test]
fn a_scan_of_a_missing_root_fails_before_it_starts() {
    let d = disk(vec![]);
    assert_eq!(d.scan("nowhere", true).unwrap_err(), ScanError::PathNotFound);
}

#[test]
fn a_scan_of_a_root_that_cannot_be_listed_fails() {
    let d = disk(vec![("r", Node::LockedDir)]);
    assert_eq!(d.scan("r", false).unwrap_err(), ScanError::TraversalFailure);
}

#[test]
fn a_scan_of_a_single_file_finds_nothing_to_compare() {
    let d = disk(vec![("f", file(b"alone")), ("e", file(b""))]);
    let (groups, empty_files) = d.scan("f", true).unwrap();
    assert!(groups.is_empty());
    assert!(empty_files.is_empty());
    let (groups, empty_files) = d.scan("e", false).unwrap();
    assert!(groups.is_empty());
    assert_eq!(empty_files, vec!["e"]);
}

#[test]
fn two_scans_of_one_tree_agree() {
    let first = deep_disk().scan("r", true).unwrap();
    let second = deep_disk().scan("r", true).unwrap();
    assert_eq!(first, second);
}

#[test]
fn hard_links_to_one_content_are_reported_as_duplicates() {
    let d = disk(vec![
        ("r", dir(&["name1", "name2"])),
        ("name1", file(b"one inode")),
        ("name2", file(b"one inode")),
    ]);
    let (groups, _) = d.scan("r", false).unwrap();
    assert_eq!(members(&groups), vec![vec!["name1", "name2"]]);
}
