//! The scan as a whole: what it finds among the files it is given, and what
//! holds of the duplicates that are found among the candidates of a
//! traversal.

use vstd::prelude::*;
use crate::buckets::{measured_items, Measured};
use crate::content::{
    candidate_views, candidates_of, hashed_items, lemma_candidate_shares_size, sized, Candidate,
    Hashed,
};
use crate::grouping::{
    distinct_keys, duplicates, groups, lemma_distinct_keys_unique, lemma_duplicates_are_groups,
    lemma_group_member_has_key, lemma_key_occurs, lemma_member_is_item, lemma_members_bounded,
    lemma_members_concat, lemma_members_push, lemma_repeated_key_has_group,
    lemma_same_key_same_group, members,
};
use crate::tree::{lemma_reported_is_visited_file, reported, visits, Tree};

verus! {

/// The candidates as keyed items, each under its size and the digest that
/// hashing its content gives; without a key where hashing fails.
pub open spec fn hashed_with<P>(
    candidates: Seq<(u64, P)>,
    digest_of: spec_fn(P) -> Option<Seq<u8>>,
) -> Seq<(Option<(u64, Seq<u8>)>, P)> {
    Seq::new(
        candidates.len(),
        |i: int|
            (
                match digest_of(candidates[i].1) {
                    Some(digest) => Some((candidates[i].0, digest)),
                    None => None,
                },
                candidates[i].1,
            ),
    )
}

/// What a whole scan finds among the measured files, where `digest_of` says
/// what hashing each file gives: the files are put in size buckets, those of
/// buckets with two files or more are hashed, and the hashed files are
/// grouped by size and digest.
pub open spec fn scan_duplicates<P>(
    files: Seq<(Option<u64>, P)>,
    digest_of: spec_fn(P) -> Option<Seq<u8>>,
) -> Seq<((u64, Seq<u8>), Seq<P>)> {
    duplicates(hashed_with(candidates_of(groups(files)), digest_of))
}

/// Two files of one size whose contents have one digest end up in one set of
/// duplicates, wherever they stand among the files. Files with identical
/// content are such files: their sizes are equal, and so are their digests.
pub proof fn lemma_identical_files_are_grouped<P>(
    files: Seq<(Option<u64>, P)>,
    digest_of: spec_fn(P) -> Option<Seq<u8>>,
    i: int,
    j: int,
) -> (g: int)
    requires
        0 <= i < files.len(),
        0 <= j < files.len(),
        files[i].1 != files[j].1,
        files[i].0 is Some,
        files[i].0 == files[j].0,
        digest_of(files[i].1) is Some,
        digest_of(files[i].1) == digest_of(files[j].1),
    ensures
        0 <= g < scan_duplicates(files, digest_of).len(),
        scan_duplicates(files, digest_of)[g].0 == (files[i].0->0, digest_of(files[i].1)->0),
        scan_duplicates(files, digest_of)[g].1.contains(files[i].1),
        scan_duplicates(files, digest_of)[g].1.contains(files[j].1),
{
    let size = files[i].0->0;
    let bucket = members(files, size);
    lemma_member_is_item(files, size, files[i].1);
    lemma_member_is_item(files, size, files[j].1);
    let m = choose|m: int| 0 <= m < bucket.len() && bucket[m] == files[i].1;
    let n = choose|n: int| 0 <= n < bucket.len() && bucket[n] == files[j].1;
    assert(m != n);
    lemma_key_occurs(files, size);
    let b = choose|b: int| 0 <= b < distinct_keys(files).len() && distinct_keys(files)[b] == size;
    assert(groups(files)[b] == (size, bucket));
    let candidates = candidates_of(groups(files));
    lemma_candidate_shares_size(groups(files), size, files[i].1);
    lemma_candidate_shares_size(groups(files), size, files[j].1);
    let x = choose|x: int| 0 <= x < candidates.len() && candidates[x] == (size, files[i].1);
    let y = choose|y: int| 0 <= y < candidates.len() && candidates[y] == (size, files[j].1);
    lemma_same_key_same_group(hashed_with(candidates, digest_of), x, y)
}

/// Whatever stands in a set of duplicates is a file that was measured at the
/// size of the set, shares that size with another file, and hashes to the
/// digest of the set. So no set holds files of different sizes or of
/// different digests, no file whose size or content could not be read, and
/// no file of unique size.
pub proof fn lemma_grouped_files_are_identical<P>(
    files: Seq<(Option<u64>, P)>,
    digest_of: spec_fn(P) -> Option<Seq<u8>>,
    g: int,
    path: P,
) -> (i: int)
    requires
        0 <= g < scan_duplicates(files, digest_of).len(),
        scan_duplicates(files, digest_of)[g].1.contains(path),
    ensures
        0 <= i < files.len(),
        files[i].1 == path,
        files[i].0 == Some(scan_duplicates(files, digest_of)[g].0.0),
        digest_of(path) == Some(scan_duplicates(files, digest_of)[g].0.1),
        members(files, scan_duplicates(files, digest_of)[g].0.0).len() >= 2,
{
    let candidates = candidates_of(groups(files));
    let hashed = hashed_with(candidates, digest_of);
    let size = scan_duplicates(files, digest_of)[g].0.0;
    let x = lemma_group_member_has_key(hashed, g, path);
    assert(candidates[x] == (size, path));
    lemma_candidate_shares_size(groups(files), size, path);
    let b = choose|b: int|
        0 <= b < groups(files).len() && (#[trigger] groups(files)[b]).0 == size && groups(
            files,
        )[b].1.len() >= 2 && groups(files)[b].1.contains(path);
    lemma_member_is_item(files, size, path);
    choose|i: int| 0 <= i < files.len() && (#[trigger] files[i]).0 == Some(size) && files[i].1 == path
}

/// A scan made of the three steps of this library (bucket the measured
/// files by size, pick the candidates, group them by what hashing gave)
/// finds what `scan_duplicates` says, and so finds the same whenever it is
/// made of the same files with the same contents.
pub proof fn lemma_scan_in_three_steps<P>(
    files: Seq<Measured<P>>,
    candidates: Seq<Candidate<P>>,
    hashed: Seq<Hashed<P>>,
    digest_of: spec_fn(P) -> Option<Seq<u8>>,
)
    requires
        candidate_views(candidates) == candidates_of(groups(measured_items(files))),
        hashed.len() == candidates.len(),
        forall|i: int|
            0 <= i < hashed.len() ==> (#[trigger] hashed[i]).path == candidates[i].path
                && hashed[i].size == candidates[i].size && digest_of(hashed[i].path)
                == match hashed[i].digest {
                Some(digest) => Some(digest@),
                None => None,
            },
    ensures
        duplicates(hashed_items(hashed)) == scan_duplicates(measured_items(files), digest_of),
{
    assert(hashed_items(hashed) =~= hashed_with(candidate_views(candidates), digest_of));
}

/// Whether the measured files are the candidates that a traversal of the
/// tree reports, in its order, each with whatever size was read for it.
pub open spec fn measured_from<P>(files: Seq<(Option<u64>, P)>, root: Tree<P>, recursive: bool) -> bool {
    &&& files.len() == reported(seq![root], recursive, true, false).len()
    &&& forall|i: int|
        0 <= i < files.len() ==> (#[trigger] files[i]).1 == reported(
            seq![root],
            recursive,
            true,
            false,
        )[i]
}

/// Whatever is hashed is the path of a regular file with content that the
/// traversal visited, and shares its measured size with another candidate.
/// So no empty file is ever hashed, and nothing that is no regular file.
pub proof fn lemma_hashed_files_are_visited_files<P>(
    root: Tree<P>,
    recursive: bool,
    files: Seq<(Option<u64>, P)>,
    size: u64,
    path: P,
) -> (found: Tree<P>)
    requires
        measured_from(files, root, recursive),
        candidates_of(groups(files)).contains((size, path)),
    ensures
        visits(seq![root], found, recursive, true),
        found.entry.path == path,
        found.entry.kind is File,
        found.entry.kind->len > 0,
        members(files, size).len() >= 2,
{
    lemma_candidate_shares_size(groups(files), size, path);
    let b = choose|b: int|
        0 <= b < groups(files).len() && (#[trigger] groups(files)[b]).0 == size && groups(
            files,
        )[b].1.len() >= 2 && groups(files)[b].1.contains(path);
    lemma_member_is_item(files, size, path);
    let i = choose|i: int|
        0 <= i < files.len() && (#[trigger] files[i]).0 == Some(size) && files[i].1 == path;
    let candidates = reported(seq![root], recursive, true, false);
    assert(candidates[i] == path);
    lemma_reported_is_visited_file(seq![root], recursive, true, false, path)
}

/// Whatever stands in a set of duplicates is the path of a regular file with
/// content that the traversal visited. So an empty file, a symbolic link, an
/// entry without readable metadata, and, in a scan that is not recursive, a
/// file inside a subdirectory is in no set, unless it shares its path with
/// such a file.
pub proof fn lemma_duplicates_are_visited_files<P>(
    root: Tree<P>,
    recursive: bool,
    files: Seq<(Option<u64>, P)>,
    digest_of: spec_fn(P) -> Option<Seq<u8>>,
    g: int,
    path: P,
) -> (found: Tree<P>)
    requires
        measured_from(files, root, recursive),
        0 <= g < scan_duplicates(files, digest_of).len(),
        scan_duplicates(files, digest_of)[g].1.contains(path),
    ensures
        visits(seq![root], found, recursive, true),
        found.entry.path == path,
        found.entry.kind is File,
        found.entry.kind->len > 0,
{
    let i = lemma_grouped_files_are_identical(files, digest_of, g, path);
    let candidates = reported(seq![root], recursive, true, false);
    assert(candidates[i] == path);
    lemma_reported_is_visited_file(seq![root], recursive, true, false, path)
}

/// The files as keyed items under size and digest at once: what a scan
/// would group if it hashed every file, without size buckets.
pub open spec fn contents<P>(
    files: Seq<(Option<u64>, P)>,
    digest_of: spec_fn(P) -> Option<Seq<u8>>,
) -> Seq<(Option<(u64, Seq<u8>)>, P)> {
    Seq::new(
        files.len(),
        |i: int|
            (
                match (files[i].0, digest_of(files[i].1)) {
                    (Some(size), Some(digest)) => Some((size, digest)),
                    _ => None,
                },
                files[i].1,
            ),
    )
}

/// Paths as keyed items under the digest alone.
pub open spec fn digested<P>(paths: Seq<P>, digest_of: spec_fn(P) -> Option<Seq<u8>>) -> Seq<
    (Option<Seq<u8>>, P),
> {
    Seq::new(paths.len(), |i: int| (digest_of(paths[i]), paths[i]))
}

/// Among the hashed files of one bucket, the members of a size and a digest
/// are the bucket's files of that digest, if the bucket has that size.
proof fn lemma_members_of_bucket<P>(
    bucket_size: u64,
    paths: Seq<P>,
    digest_of: spec_fn(P) -> Option<Seq<u8>>,
    size: u64,
    digest: Seq<u8>,
)
    ensures
        members(hashed_with(sized(bucket_size, paths), digest_of), (size, digest)) == if bucket_size
            == size {
            members(digested(paths, digest_of), digest)
        } else {
            Seq::empty()
        },
    decreases paths.len(),
{
    if paths.len() > 0 {
        let before = paths.drop_last();
        let last = paths.last();
        lemma_members_of_bucket(bucket_size, before, digest_of, size, digest);
        let key = match digest_of(last) {
            Some(found) => Some((bucket_size, found)),
            None => None,
        };
        assert(hashed_with(sized(bucket_size, paths), digest_of) =~= hashed_with(
            sized(bucket_size, before),
            digest_of,
        ).push((key, last)));
        lemma_members_push(
            hashed_with(sized(bucket_size, before), digest_of),
            (key, last),
            (size, digest),
        );
        assert(digested(paths, digest_of) =~= digested(before, digest_of).push(
            (digest_of(last), last),
        ));
        lemma_members_push(digested(before, digest_of), (digest_of(last), last), digest);
    }
}

/// Among the hashed candidates, the members of a size and a digest come from
/// the one bucket of that size, if it holds two files or more.
proof fn lemma_members_of_candidates<P>(
    buckets: Seq<(u64, Seq<P>)>,
    digest_of: spec_fn(P) -> Option<Seq<u8>>,
    size: u64,
    digest: Seq<u8>,
)
    requires
        forall|a: int, b: int| 0 <= a < b < buckets.len() ==> buckets[a].0 != buckets[b].0,
    ensures
        (forall|b: int| 0 <= b < buckets.len() ==> (#[trigger] buckets[b]).0 != size) ==> members(
            hashed_with(candidates_of(buckets), digest_of),
            (size, digest),
        ) == Seq::<P>::empty(),
        forall|b: int|
            0 <= b < buckets.len() && (#[trigger] buckets[b]).0 == size ==> members(
                hashed_with(candidates_of(buckets), digest_of),
                (size, digest),
            ) == if buckets[b].1.len() >= 2 {
                members(digested(buckets[b].1, digest_of), digest)
            } else {
                Seq::empty()
            },
    decreases buckets.len(),
{
    if buckets.len() > 0 {
        let before = buckets.drop_last();
        let last = buckets.last();
        let earlier = hashed_with(candidates_of(before), digest_of);
        let own = hashed_with(sized(last.0, last.1), digest_of);
        let now = hashed_with(candidates_of(buckets), digest_of);
        let key = (size, digest);
        lemma_members_of_candidates(before, digest_of, size, digest);
        lemma_members_of_bucket(last.0, last.1, digest_of, size, digest);
        if last.1.len() >= 2 {
            assert(now =~= earlier + own);
            lemma_members_concat(earlier, own, key);
        }
        if last.0 == size {
            assert forall|b: int| 0 <= b < before.len() implies (#[trigger] before[b]).0 != size by {
                assert(buckets[b].0 != buckets[buckets.len() - 1].0);
            }
            assert(members(now, key) =~= if last.1.len() >= 2 {
                members(digested(last.1, digest_of), digest)
            } else {
                Seq::empty()
            });
            assert forall|b: int| 0 <= b < buckets.len() && (#[trigger] buckets[b]).0
                == size implies b == buckets.len() - 1 by {
                if b < buckets.len() - 1 {
                    assert(buckets[b].0 != buckets[buckets.len() - 1].0);
                }
            }
        } else {
            assert(members(now, key) =~= members(earlier, key));
            assert forall|b: int| 0 <= b < buckets.len() && (#[trigger] buckets[b]).0
                == size implies members(now, key) == if buckets[b].1.len() >= 2 {
                members(digested(buckets[b].1, digest_of), digest)
            } else {
                Seq::empty()
            } by {
                assert(before[b] == buckets[b]);
            }
            if forall|b: int| 0 <= b < buckets.len() ==> (#[trigger] buckets[b]).0 != size {
                assert forall|b: int| 0 <= b < before.len() implies (#[trigger] before[b]).0
                    != size by {
                    assert(before[b] == buckets[b]);
                }
            }
        }
    }
}

/// The files of one size that have one digest are the files of that size
/// and digest.
proof fn lemma_members_by_size_then_digest<P>(
    files: Seq<(Option<u64>, P)>,
    digest_of: spec_fn(P) -> Option<Seq<u8>>,
    size: u64,
    digest: Seq<u8>,
)
    ensures
        members(digested(members(files, size), digest_of), digest) == members(
            contents(files, digest_of),
            (size, digest),
        ),
    decreases files.len(),
{
    if files.len() > 0 {
        let before = files.drop_last();
        let last = files.last();
        lemma_members_by_size_then_digest(before, digest_of, size, digest);
        let key = match (last.0, digest_of(last.1)) {
            (Some(s), Some(d)) => Some((s, d)),
            _ => None,
        };
        assert(contents(files, digest_of) =~= contents(before, digest_of).push((key, last.1)));
        lemma_members_push(contents(before, digest_of), (key, last.1), (size, digest));
        if last.0 == Some(size) {
            let bucket = members(before, size);
            assert(digested(bucket.push(last.1), digest_of) =~= digested(bucket, digest_of).push(
                (digest_of(last.1), last.1),
            ));
            lemma_members_push(digested(bucket, digest_of), (digest_of(last.1), last.1), digest);
        }
    }
}

/// What a scan groups under a size and a digest: all the files of that size
/// and digest, in the order of the traversal, provided that two files or
/// more have that size; else nothing.
pub proof fn lemma_scan_groups_by_content<P>(
    files: Seq<(Option<u64>, P)>,
    digest_of: spec_fn(P) -> Option<Seq<u8>>,
    size: u64,
    digest: Seq<u8>,
)
    ensures
        members(hashed_with(candidates_of(groups(files)), digest_of), (size, digest)) == if members(
            files,
            size,
        ).len() >= 2 {
            members(contents(files, digest_of), (size, digest))
        } else {
            Seq::empty()
        },
{
    let buckets = groups(files);
    lemma_distinct_keys_unique(files);
    lemma_members_of_candidates(buckets, digest_of, size, digest);
    lemma_members_by_size_then_digest(files, digest_of, size, digest);
    lemma_key_occurs(files, size);
    if distinct_keys(files).contains(size) {
        let b = choose|b: int| 0 <= b < distinct_keys(files).len() && distinct_keys(files)[b] == size;
        assert(buckets[b] == (size, members(files, size)));
    } else {
        assert forall|b: int| 0 <= b < buckets.len() implies (#[trigger] buckets[b]).0 != size by {
            assert(distinct_keys(files)[b] == buckets[b].0);
        }
    }
}

/// Size buckets lose nothing and add nothing: the sets of duplicates that
/// the scan finds are the sets that grouping all files by size and digest
/// would give. Each set holds every file of its size and digest, in the
/// order of the traversal; only the order of the sets among themselves may
/// differ.
pub proof fn lemma_size_buckets_lose_nothing<P>(
    files: Seq<(Option<u64>, P)>,
    digest_of: spec_fn(P) -> Option<Seq<u8>>,
    set: ((u64, Seq<u8>), Seq<P>),
)
    ensures
        scan_duplicates(files, digest_of).contains(set) <==> duplicates(
            contents(files, digest_of),
        ).contains(set),
{
    let hashed = hashed_with(candidates_of(groups(files)), digest_of);
    let all = contents(files, digest_of);
    let (size, digest) = set.0;
    lemma_scan_groups_by_content(files, digest_of, size, digest);
    lemma_members_by_size_then_digest(files, digest_of, size, digest);
    lemma_members_bounded(digested(members(files, size), digest_of), digest);
    if duplicates(hashed).contains(set) {
        let g = choose|g: int| 0 <= g < duplicates(hashed).len() && duplicates(hashed)[g] == set;
        lemma_duplicates_are_groups(hashed, g);
        let h = lemma_repeated_key_has_group(all, set.0);
        assert(duplicates(all)[h] == set);
    }
    if duplicates(all).contains(set) {
        let g = choose|g: int| 0 <= g < duplicates(all).len() && duplicates(all)[g] == set;
        lemma_duplicates_are_groups(all, g);
        let h = lemma_repeated_key_has_group(hashed, set.0);
        assert(duplicates(hashed)[h] == set);
    }
}

} // verus!
