//! Directory trees as mathematical values: what a scan reports of one, and
//! the proof that a traversal, driven by the listings of a tree, reports
//! exactly that.

use vstd::prelude::*;
use crate::traverse::{counted, Entry, EntryKind, Walk};

verus! {

/// An entry with everything below it. `children` is the listing of a
/// directory, in the order in which the listing yields it; for any other
/// entry it has no meaning.
pub struct Tree<P> {
    pub entry: Entry<P>,
    pub children: Seq<Tree<P>>,
}

/// The entries at the top of a forest: what a listing shows of it.
pub open spec fn heads<P>(forest: Seq<Tree<P>>) -> Seq<Entry<P>> {
    Seq::new(forest.len(), |i: int| forest[i].entry)
}

/// What a scan reports of a forest, in one of its two lists (the empty
/// files, or the candidates): the regular files, depth first, each
/// directory's entries in their order. A directory is entered if the scan is
/// recursive, or if it is the root (`at_root`, which can hold of the first
/// tree only).
pub open spec fn reported<P>(forest: Seq<Tree<P>>, recursive: bool, at_root: bool, empty: bool) -> Seq<
    P,
>
    decreases forest,
{
    if forest.len() == 0 {
        Seq::empty()
    } else {
        let first = forest[0];
        let below = if first.entry.kind is Directory && (recursive || at_root) {
            reported(first.children, recursive, false, empty)
        } else {
            Seq::empty()
        };
        counted(first.entry, empty) + below + reported(forest.drop_first(), recursive, false, empty)
    }
}

/// The number of entries in a forest, at all depths.
pub open spec fn weight<P>(forest: Seq<Tree<P>>) -> nat
    decreases forest,
{
    if forest.len() == 0 {
        0
    } else {
        1 + weight(forest[0].children) + weight(forest.drop_first())
    }
}

/// The weight of two forests side by side.
pub proof fn lemma_weight_concat<P>(a: Seq<Tree<P>>, b: Seq<Tree<P>>)
    ensures
        weight(a + b) == weight(a) + weight(b),
    decreases a.len(),
{
    if a.len() == 0 {
        assert(a + b == b);
    } else {
        assert((a + b).drop_first() == a.drop_first() + b);
        lemma_weight_concat(a.drop_first(), b);
    }
}

/// To replace a tree by its children takes one entry off a forest.
pub proof fn lemma_weight_entered<P>(forest: Seq<Tree<P>>, at: int)
    requires
        0 <= at < forest.len(),
    ensures
        weight(forest[at].children + forest.skip(at + 1)) < weight(forest),
{
    let rest = forest.skip(at);
    assert(forest == forest.take(at) + rest);
    lemma_weight_concat(forest.take(at), rest);
    assert(rest.drop_first() == forest.skip(at + 1));
    lemma_weight_concat(forest[at].children, forest.skip(at + 1));
}

/// What is reported of two forests side by side, neither at the root.
pub proof fn lemma_reported_concat<P>(a: Seq<Tree<P>>, b: Seq<Tree<P>>, recursive: bool, empty: bool)
    ensures
        reported(a + b, recursive, false, empty) == reported(a, recursive, false, empty) + reported(
            b,
            recursive,
            false,
            empty,
        ),
    decreases a.len(),
{
    if a.len() == 0 {
        assert(a + b == b);
    } else {
        assert((a + b).drop_first() == a.drop_first() + b);
        lemma_reported_concat(a.drop_first(), b, recursive, empty);
    }
}

/// What `lemma_advance` states of one call of `advance`.
pub open spec fn advance_accounts<P>(walk: Walk<P>, forest: Seq<Tree<P>>, empty: bool) -> bool {
    let (paused, directory) = walk.advance();
    let at = forest.len() - paused.todo.len() - 1;
    let total = walk.collected(empty) + reported(forest, walk.recursive, walk.at_root, empty);
    &&& paused.recursive == walk.recursive
    &&& directory is None ==> paused.todo.len() == 0 && paused.collected(empty) == total
    &&& directory is Some ==> {
        &&& 0 <= at < forest.len()
        &&& !paused.at_root
        &&& paused.todo == heads(forest.skip(at + 1))
        &&& forest[at].entry.kind is Directory
        &&& directory == Some(forest[at].entry.path)
        &&& paused.collected(empty) + reported(forest[at].children, walk.recursive, false, empty)
            + reported(forest.skip(at + 1), walk.recursive, false, empty) == total
    }
}

/// One call of `advance` on a walk whose list of entries shows the forest:
/// either every entry was visited, and all that the forest has to report
/// was added; or the walk stopped before the directory at position `at`,
/// and what is still to come is what that directory and the trees after it
/// have to report.
#[verifier::rlimit(30)]
pub proof fn lemma_advance<P>(walk: Walk<P>, forest: Seq<Tree<P>>, empty: bool)
    requires
        walk.todo == heads(forest),
    ensures
        advance_accounts(walk, forest, empty),
    decreases forest.len(),
{
    let (paused, directory) = walk.advance();
    let recursive = walk.recursive;
    let so_far = walk.collected(empty);
    if forest.len() == 0 {
        assert(so_far + Seq::<P>::empty() =~= so_far);
    } else {
        let first = forest[0];
        let rest = forest.drop_first();
        let own = counted(first.entry, empty);
        let after = reported(rest, recursive, false, empty);
        assert(walk.todo[0] == first.entry);
        if first.entry.kind is Directory && walk.enters() {
            let below = reported(first.children, recursive, false, empty);
            assert(reported(forest, recursive, walk.at_root, empty) == own + below + after);
            assert(own =~= Seq::<P>::empty());
            assert(paused.todo =~= heads(rest));
            assert(forest.skip(1) =~= rest);
            assert(so_far + below + after =~= so_far + (own + below + after));
        } else {
            let next = walk.passed();
            assert(reported(forest, recursive, walk.at_root, empty) =~= own + after);
            assert(next.todo =~= heads(rest));
            assert(next.collected(empty) =~= so_far + own);
            lemma_advance(next, rest, empty);
            assert(advance_accounts(next, rest, empty));
            assert(so_far + own + after =~= so_far + (own + after));
            if directory is Some {
                let at = forest.len() - paused.todo.len() - 1;
                assert(rest[at - 1] == forest[at]);
                assert(rest.skip(at) =~= forest.skip(at + 1));
            }
        }
    }
}

/// A whole traversal of a forest: the walk asks for directories until none
/// is left, and for each one gets the listing that the forest holds.
pub open spec fn run<P>(walk: Walk<P>, forest: Seq<Tree<P>>) -> Walk<P>
    decreases weight(forest),
    when walk.todo == heads(forest)
    via run_decreases::<P>
{
    let (paused, directory) = walk.advance();
    if directory is None {
        paused
    } else {
        let at = forest.len() - paused.todo.len() - 1;
        run(
            paused.entered(heads(forest[at].children)),
            forest[at].children + forest.skip(at + 1),
        )
    }
}

#[via_fn]
proof fn run_decreases<P>(walk: Walk<P>, forest: Seq<Tree<P>>) {
    let (paused, directory) = walk.advance();
    if directory is Some {
        lemma_advance(walk, forest, false);
        lemma_weight_entered(forest, forest.len() - paused.todo.len() - 1);
    }
}

/// A traversal of a forest ends with every entry visited, and adds to each
/// list exactly what the forest has to report.
#[verifier::rlimit(30)]
pub proof fn lemma_run_reports<P>(walk: Walk<P>, forest: Seq<Tree<P>>, empty: bool)
    requires
        walk.todo == heads(forest),
    ensures
        run(walk, forest).todo.len() == 0,
        run(walk, forest).collected(empty) == walk.collected(empty) + reported(
            forest,
            walk.recursive,
            walk.at_root,
            empty,
        ),
    decreases weight(forest),
{
    let (paused, directory) = walk.advance();
    lemma_advance(walk, forest, empty);
    if directory is Some {
        let at = forest.len() - paused.todo.len() - 1;
        let next = paused.entered(heads(forest[at].children));
        let left = forest[at].children + forest.skip(at + 1);
        assert(next.todo =~= heads(left));
        lemma_weight_entered(forest, at);
        lemma_run_reports(next, left, empty);
        lemma_reported_concat(forest[at].children, forest.skip(at + 1), walk.recursive, empty);
        assert(run(walk, forest).collected(empty) =~= walk.collected(empty) + reported(
            forest,
            walk.recursive,
            walk.at_root,
            empty,
        ));
    }
}

/// A scan that starts at the root of a tree reports, in each of its lists,
/// exactly what the tree has to report.
pub proof fn lemma_scan_reports_tree<P>(root: Tree<P>, recursive: bool, empty: bool)
    ensures
        ({
            let start = Walk {
                recursive,
                at_root: true,
                todo: seq![root.entry],
                files: Seq::empty(),
                empty_files: Seq::empty(),
            };
            &&& run(start, seq![root]).todo.len() == 0
            &&& run(start, seq![root]).collected(empty) == reported(
                seq![root],
                recursive,
                true,
                empty,
            )
        }),
{
    let start = Walk {
        recursive,
        at_root: true,
        todo: seq![root.entry],
        files: Seq::empty(),
        empty_files: Seq::empty(),
    };
    assert(start.todo =~= heads(seq![root]));
    lemma_run_reports(start, seq![root], empty);
    assert(start.collected(empty) + reported(seq![root], recursive, true, empty) =~= reported(
        seq![root],
        recursive,
        true,
        empty,
    ));
}

/// Whether a scan of the forest visits the tree `target`: it stands at the
/// top of the forest, or below a directory that the scan visits and enters.
pub open spec fn visits<P>(forest: Seq<Tree<P>>, target: Tree<P>, recursive: bool, at_root: bool) -> bool
    decreases forest,
{
    if forest.len() == 0 {
        false
    } else {
        let first = forest[0];
        ||| first == target
        ||| first.entry.kind is Directory && (recursive || at_root) && visits(
            first.children,
            target,
            recursive,
            false,
        )
        ||| visits(forest.drop_first(), target, recursive, false)
    }
}

/// Whether an entry belongs on one of the two lists: a regular file, empty
/// for the list of empty files, with content for the list of candidates.
pub open spec fn belongs<P>(entry: Entry<P>, empty: bool) -> bool {
    entry.kind is File && (entry.kind->len == 0) == empty
}

/// Every regular file that the scan visits is reported, on the list that
/// its length puts it on, at whatever depth it lies.
pub proof fn lemma_visited_file_is_reported<P>(
    forest: Seq<Tree<P>>,
    target: Tree<P>,
    recursive: bool,
    at_root: bool,
    empty: bool,
)
    requires
        visits(forest, target, recursive, at_root),
        belongs(target.entry, empty),
    ensures
        reported(forest, recursive, at_root, empty).contains(target.entry.path),
    decreases forest,
{
    let first = forest[0];
    let own = counted(first.entry, empty);
    let below = if first.entry.kind is Directory && (recursive || at_root) {
        reported(first.children, recursive, false, empty)
    } else {
        Seq::empty()
    };
    let after = reported(forest.drop_first(), recursive, false, empty);
    let all = reported(forest, recursive, at_root, empty);
    let path = target.entry.path;
    assert(all == own + below + after);
    if first == target {
        assert(all[0] == path);
    } else if first.entry.kind is Directory && (recursive || at_root) && visits(
        first.children,
        target,
        recursive,
        false,
    ) {
        lemma_visited_file_is_reported(first.children, target, recursive, false, empty);
        let i = choose|i: int| 0 <= i < below.len() && below[i] == path;
        assert(all[own.len() + i] == path);
    } else {
        lemma_visited_file_is_reported(forest.drop_first(), target, recursive, false, empty);
        let i = choose|i: int| 0 <= i < after.len() && after[i] == path;
        assert(all[own.len() + below.len() + i] == path);
    }
}

/// Whatever is reported is the path of a regular file that the scan visits,
/// and stands on the list that the file's length puts it on. A symbolic
/// link, a device or an entry without readable metadata is on neither list.
pub proof fn lemma_reported_is_visited_file<P>(
    forest: Seq<Tree<P>>,
    recursive: bool,
    at_root: bool,
    empty: bool,
    path: P,
) -> (target: Tree<P>)
    requires
        reported(forest, recursive, at_root, empty).contains(path),
    ensures
        visits(forest, target, recursive, at_root),
        belongs(target.entry, empty),
        target.entry.path == path,
    decreases forest,
{
    let first = forest[0];
    let own = counted(first.entry, empty);
    let below = if first.entry.kind is Directory && (recursive || at_root) {
        reported(first.children, recursive, false, empty)
    } else {
        Seq::empty()
    };
    let after = reported(forest.drop_first(), recursive, false, empty);
    let all = reported(forest, recursive, at_root, empty);
    assert(forest.len() > 0);
    assert(all == own + below + after);
    let i = choose|i: int| 0 <= i < all.len() && all[i] == path;
    if i < own.len() {
        first
    } else if i < own.len() + below.len() {
        assert(below[i - own.len()] == path);
        lemma_reported_is_visited_file(first.children, recursive, false, empty, path)
    } else {
        assert(after[i - own.len() - below.len()] == path);
        lemma_reported_is_visited_file(forest.drop_first(), recursive, false, empty, path)
    }
}

/// The trees at the top of a forest are visited by every scan.
pub proof fn lemma_top_is_visited<P>(
    forest: Seq<Tree<P>>,
    target: Tree<P>,
    recursive: bool,
    at_root: bool,
)
    requires
        forest.contains(target),
    ensures
        visits(forest, target, recursive, at_root),
    decreases forest.len(),
{
    if forest[0] != target {
        let i = choose|i: int| 0 <= i < forest.len() && forest[i] == target;
        assert(forest.drop_first()[i - 1] == target);
        lemma_top_is_visited(forest.drop_first(), target, recursive, false);
    }
}

/// Below the root, a scan that is not recursive visits the top of a forest
/// and nothing else.
pub proof fn lemma_flat_scan_stays_on_top<P>(forest: Seq<Tree<P>>, target: Tree<P>)
    ensures
        visits(forest, target, false, false) <==> forest.contains(target),
    decreases forest.len(),
{
    if forest.len() > 0 {
        lemma_flat_scan_stays_on_top(forest.drop_first(), target);
        if forest.contains(target) {
            lemma_top_is_visited(forest, target, false, false);
        }
        if visits(forest, target, false, false) && forest[0] != target {
            let rest = forest.drop_first();
            let i = choose|i: int| 0 <= i < rest.len() && rest[i] == target;
            assert(forest[i + 1] == target);
        }
    }
}

/// A scan that is not recursive visits the root and, where the root is a
/// directory, the entries of its listing: never anything inside a
/// subdirectory.
pub proof fn lemma_flat_scan_visits_one_level<P>(root: Tree<P>, target: Tree<P>)
    ensures
        visits(seq![root], target, false, true) <==> (target == root || (root.entry.kind
            is Directory && root.children.contains(target))),
{
    lemma_flat_scan_stays_on_top(root.children, target);
    let top = seq![root];
    assert(top[0] == root);
    assert(top.drop_first().len() == 0);
    assert(!visits(top.drop_first(), target, false, false));
}

/// A recursive scan that visits a directory visits every entry of its
/// listing. So it reaches every depth.
pub proof fn lemma_deep_scan_visits_children<P>(
    forest: Seq<Tree<P>>,
    directory: Tree<P>,
    target: Tree<P>,
    at_root: bool,
)
    requires
        visits(forest, directory, true, at_root),
        directory.entry.kind is Directory,
        directory.children.contains(target),
    ensures
        visits(forest, target, true, at_root),
    decreases forest,
{
    let first = forest[0];
    if first == directory {
        lemma_top_is_visited(first.children, target, true, false);
    } else if first.entry.kind is Directory && visits(first.children, directory, true, false) {
        lemma_deep_scan_visits_children(first.children, directory, target, false);
    } else {
        lemma_deep_scan_visits_children(forest.drop_first(), directory, target, false);
    }
}

/// What a scan that is not recursive reports is the root itself or an entry
/// of the root's own listing: never a file inside a subdirectory.
pub proof fn lemma_flat_scan_reports_one_level<P>(root: Tree<P>, empty: bool, path: P) -> (found:
    Tree<P>)
    requires
        reported(seq![root], false, true, empty).contains(path),
    ensures
        found == root || (root.entry.kind is Directory && root.children.contains(found)),
        belongs(found.entry, empty),
        found.entry.path == path,
{
    let found = lemma_reported_is_visited_file(seq![root], false, true, empty, path);
    lemma_flat_scan_visits_one_level(root, found);
    found
}

/// Whether each tree of the chain after the first is an entry of the listing
/// of the one before it, which is a directory: a way down from the first
/// tree to the last.
pub open spec fn descends<P>(chain: Seq<Tree<P>>) -> bool {
    forall|k: int|
        0 <= k < chain.len() - 1 ==> (#[trigger] chain[k]).entry.kind is Directory
            && chain[k].children.contains(chain[k + 1])
}

/// A recursive scan visits whatever a way down from the root leads to.
pub proof fn lemma_deep_scan_visits_every_level<P>(chain: Seq<Tree<P>>, k: int)
    requires
        descends(chain),
        0 <= k < chain.len(),
    ensures
        visits(seq![chain[0]], chain[k], true, true),
    decreases k,
{
    if k > 0 {
        lemma_deep_scan_visits_every_level(chain, k - 1);
        assert(chain[k - 1].entry.kind is Directory && chain[k - 1].children.contains(
            chain[k - 1 + 1],
        ));
        lemma_deep_scan_visits_children(seq![chain[0]], chain[k - 1], chain[k], true);
    } else {
        assert(seq![chain[0]][0] == chain[0]);
    }
}

/// A recursive scan reports every regular file below the root, however many
/// directories lie between the two.
pub proof fn lemma_deep_scan_reports_every_level<P>(chain: Seq<Tree<P>>, empty: bool)
    requires
        chain.len() > 0,
        descends(chain),
        belongs(chain.last().entry, empty),
    ensures
        reported(seq![chain[0]], true, true, empty).contains(chain.last().entry.path),
{
    lemma_deep_scan_visits_every_level(chain, chain.len() - 1);
    lemma_visited_file_is_reported(seq![chain[0]], chain.last(), true, true, empty);
}

} // verus!
