//! The traverser: which entries of a directory tree are candidate files,
//! which are empty files, and which directories have to be listed.
//!
//! The traversal does no reading of its own. It names the directory that has
//! to be listed next; the caller lists it and hands the entries back. Entries
//! are visited depth first, each directory's entries in the order of its
//! listing.

use vstd::prelude::*;

verus! {

/// What the metadata of a directory entry says it is.
#[derive(Debug, Clone, Copy, PartialEq, Eq)]
pub enum EntryKind {
    /// A directory.
    Directory,
    /// A regular file of `len` bytes.
    File { len: u64 },
    /// Anything else: a symbolic link, a device, a socket.
    Other,
    /// An entry whose metadata could not be read.
    Unreadable,
}

/// One entry of a directory listing, or the root of a scan.
#[derive(Debug, Clone, PartialEq, Eq)]
pub struct Entry<P> {
    pub path: P,
    pub kind: EntryKind,
}

/// Why a scan as a whole fails. A failure on a single entry is none of
/// these: such an entry is skipped.
#[derive(Debug, Clone, Copy, PartialEq, Eq)]
pub enum ScanError {
    /// The root path does not exist.
    PathNotFound,
    /// A directory that had to be listed could not be listed.
    TraversalFailure,
}

/// The state of a traversal as a mathematical value.
pub struct Walk<P> {
    /// Whether directories below the root are entered.
    pub recursive: bool,
    /// Whether no entry has been visited yet, so that the next one is the root.
    pub at_root: bool,
    /// The entries still to visit, the next one first.
    pub todo: Seq<Entry<P>>,
    /// The non-empty regular files found so far.
    pub files: Seq<P>,
    /// The empty regular files found so far.
    pub empty_files: Seq<P>,
}

/// What the visit of an entry that is not entered adds to one of the two
/// lists: the path of a regular file to the list of empty files if it has no
/// bytes, to the list of candidates if it has some; nothing for anything
/// else.
pub open spec fn counted<P>(entry: Entry<P>, empty: bool) -> Seq<P> {
    match entry.kind {
        EntryKind::File { len } => if (len == 0) == empty {
            seq![entry.path]
        } else {
            Seq::empty()
        },
        _ => Seq::empty(),
    }
}

impl<P> Walk<P> {
    /// One of the two lists: the empty files, or the candidates.
    pub open spec fn collected(self, empty: bool) -> Seq<P> {
        if empty {
            self.empty_files
        } else {
            self.files
        }
    }

    /// Whether a directory visited in this state is entered: the root
    /// always, any other only in a recursive scan.
    pub open spec fn enters(self) -> bool {
        self.recursive || self.at_root
    }

    /// The state after the first entry was taken off the list.
    pub open spec fn popped(self) -> Walk<P> {
        Walk { at_root: false, todo: self.todo.drop_first(), ..self }
    }

    /// The state after the first entry was visited without being entered: a
    /// regular file is recorded as empty or as a candidate, anything else is
    /// skipped.
    pub open spec fn passed(self) -> Walk<P> {
        let entry = self.todo[0];
        match entry.kind {
            EntryKind::File { len } => if len == 0 {
                Walk { empty_files: self.empty_files.push(entry.path), ..self.popped() }
            } else {
                Walk { files: self.files.push(entry.path), ..self.popped() }
            },
            _ => self.popped(),
        }
    }

    /// The state after the listing of the directory that was asked for has
    /// arrived: its entries are visited next, before what was left.
    pub open spec fn entered(self, listing: Seq<Entry<P>>) -> Walk<P> {
        Walk { todo: listing + self.todo, ..self }
    }

    /// Visits entries until a directory has to be entered or none is left:
    /// the state then, and the path of that directory.
    pub open spec fn advance(self) -> (Walk<P>, Option<P>)
        decreases self.todo.len(),
    {
        if self.todo.len() == 0 {
            (self, None)
        } else if self.todo[0].kind is Directory && self.enters() {
            (self.popped(), Some(self.todo[0].path))
        } else {
            self.passed().advance()
        }
    }
}

/// A traversal in progress.
pub struct Traversal<P> {
    recursive: bool,
    at_root: bool,
    stack: Vec<Entry<P>>,
    files: Vec<P>,
    empty_files: Vec<P>,
}

impl<P> View for Traversal<P> {
    type V = Walk<P>;

    closed spec fn view(&self) -> Walk<P> {
        Walk {
            recursive: self.recursive,
            at_root: self.at_root,
            todo: self.stack@.reverse(),
            files: self.files@,
            empty_files: self.empty_files@,
        }
    }
}

impl<P> Traversal<P> {
    /// Starts a scan at `root`, given what was found there: `None` where
    /// nothing is. A root that does not exist, or whose metadata cannot be
    /// read, fails the scan before anything is visited. Any other root is
    /// the one entry to visit.
    pub fn begin(root: P, found: Option<EntryKind>, recursive: bool) -> (started: Result<
        Traversal<P>,
        ScanError,
    >)
        ensures
            match started {
                Ok(traversal) => found is Some && !(found->0 is Unreadable) && traversal@ == (Walk {
                    recursive,
                    at_root: true,
                    todo: seq![Entry { path: root, kind: found->0 }],
                    files: Seq::empty(),
                    empty_files: Seq::empty(),
                }),
                Err(error) => error == ScanError::PathNotFound && (found is None || found->0
                    is Unreadable),
            },
    {
        match found {
            None | Some(EntryKind::Unreadable) => Err(ScanError::PathNotFound),
            Some(kind) => {
                let mut stack: Vec<Entry<P>> = Vec::new();
                stack.push(Entry { path: root, kind });
                let traversal = Traversal {
                    recursive,
                    at_root: true,
                    stack,
                    files: Vec::new(),
                    empty_files: Vec::new(),
                };
                assert(traversal@.todo =~= seq![Entry { path: root, kind }]);
                Ok(traversal)
            },
        }
    }

    /// Visits the entries at hand and returns the directory that has to be
    /// listed next, or `None` when every entry has been visited. The caller
    /// lists that directory and calls `listed`.
    pub fn next_directory(&mut self) -> (directory: Option<P>)
        ensures
            (final(self)@, directory) == old(self)@.advance(),
    {
        let ghost start = self@;
        loop
            invariant
                start == old(self)@,
                self@.advance() == start.advance(),
            decreases self.stack@.len(),
        {
            let ghost before = self@;
            match self.stack.pop() {
                None => {
                    assert(self@ == before);
                    assert(before.todo.len() == 0);
                    return None;
                },
                Some(entry) => {
                    assert(self.stack@.reverse() =~= before.todo.drop_first());
                    assert(entry == before.todo[0]);
                    let enters = self.recursive || self.at_root;
                    self.at_root = false;
                    match entry.kind {
                        EntryKind::Directory => {
                            if enters {
                                assert(self@ == before.popped());
                                return Some(entry.path);
                            }
                        },
                        EntryKind::File { len } => {
                            if len == 0 {
                                self.empty_files.push(entry.path);
                            } else {
                                self.files.push(entry.path);
                            }
                        },
                        EntryKind::Other => {},
                        EntryKind::Unreadable => {},
                    }
                    assert(self@ == before.passed());
                },
            }
        }
    }

    /// Takes the listing of the directory that `next_directory` asked for:
    /// `None` where it could not be listed, which fails the scan. The entries
    /// are visited next, in their order, before anything else.
    pub fn listed(&mut self, listing: Option<Vec<Entry<P>>>) -> (taken: Result<(), ScanError>)
        ensures
            match listing {
                Some(entries) => taken is Ok && final(self)@ == old(self)@.entered(entries@),
                None => taken == Err::<(), ScanError>(ScanError::TraversalFailure) && final(self)@
                    == old(self)@,
            },
    {
        match listing {
            None => Err(ScanError::TraversalFailure),
            Some(entries) => {
                let ghost start = self@;
                let ghost all = entries@;
                let mut entries = entries;
                loop
                    invariant
                        start == old(self)@,
                        listing is Some && listing->0@ == all,
                        entries@ == all.take(entries@.len() as int),
                        entries@.len() <= all.len(),
                        self@ == start.entered(all.skip(entries@.len() as int)),
                    decreases entries@.len(),
                {
                    let ghost before = self.stack@;
                    let ghost left = entries@.len();
                    match entries.pop() {
                        None => {
                            assert(all.skip(0) =~= all);
                            return Ok(());
                        },
                        Some(entry) => {
                            self.stack.push(entry);
                            assert(entry == all[left - 1]);
                            assert(entries@ =~= all.take(left - 1));
                            assert(self.stack@.reverse() =~= seq![entry] + before.reverse());
                            assert(seq![entry] + (all.skip(left as int) + start.todo) =~= all.skip(
                                left - 1,
                            ) + start.todo);
                        },
                    }
                }
            },
        }
    }

    /// Ends the traversal: the candidate files and the empty files found so
    /// far, each list in the order of the visit.
    pub fn finish(self) -> (found: (Vec<P>, Vec<P>))
        ensures
            found.0@ == self@.files,
            found.1@ == self@.empty_files,
    {
        (self.files, self.empty_files)
    }
}

} // verus!
