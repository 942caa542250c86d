//! The content grouper: which files have to be hashed, and which hashed
//! files are duplicates of one another.
//!
//! Two files are duplicates when they have the same size and the same
//! digest. Only files that share their size with another file are hashed at
//! all.

use std::collections::HashMap;
use vstd::prelude::*;
use crate::buckets::{bucket_views, SizeBucket};
use crate::digest::{leading_word, Digest};
use crate::grouping::{
    distinct_keys, duplicates, groups, lemma_distinct_keys_push, lemma_distinct_keys_unique,
    lemma_key_occurs, lemma_members_push, lemma_repeated_push, members, repeated,
};

verus! {

/// A file that has to be hashed: it shares its size with at least one other
/// file.
#[derive(Debug, Clone, PartialEq, Eq)]
pub struct Candidate<P> {
    pub path: P,
    pub size: u64,
}

impl<P> Candidate<P> {
    /// The candidate together with what hashing it gave: its digest, or
    /// `None` where its content could not be read.
    pub fn hashed(self, digest: Option<Digest>) -> (file: Hashed<P>)
        ensures
            file.path == self.path,
            file.size == self.size,
            file.digest == digest,
    {
        Hashed { path: self.path, size: self.size, digest }
    }
}

/// The paths of one bucket, each with the bucket's size.
pub open spec fn sized<P>(size: u64, paths: Seq<P>) -> Seq<(u64, P)> {
    Seq::new(paths.len(), |i: int| (size, paths[i]))
}

/// The files of all buckets that hold two files or more, bucket after
/// bucket, each with its size. A bucket of one file contributes nothing.
pub open spec fn candidates_of<P>(buckets: Seq<(u64, Seq<P>)>) -> Seq<(u64, P)>
    decreases buckets.len(),
{
    if buckets.len() == 0 {
        Seq::empty()
    } else {
        let before = candidates_of(buckets.drop_last());
        if buckets.last().1.len() >= 2 {
            before + sized(buckets.last().0, buckets.last().1)
        } else {
            before
        }
    }
}

/// What a list of candidates holds: each one's size and path.
pub open spec fn candidate_views<P>(candidates: Seq<Candidate<P>>) -> Seq<(u64, P)> {
    Seq::new(candidates.len(), |i: int| (candidates[i].size, candidates[i].path))
}

/// Picks the files that have to be hashed: those of every bucket with more
/// than one file, in the order of the buckets. A file of unique size is
/// never among them.
pub fn hash_candidates<P>(buckets: Vec<SizeBucket<P>>) -> (candidates: Vec<Candidate<P>>)
    ensures
        candidate_views(candidates@) == candidates_of(bucket_views(buckets@)),
{
    let ghost all = bucket_views(buckets@);
    let mut candidates: Vec<Candidate<P>> = Vec::new();
    for bucket in it: buckets.into_iter()
        invariant
            all == bucket_views(buckets@),
            it.seq() == buckets@,
            candidate_views(candidates@) == candidates_of(all.take(it.index() as int)),
    {
        let ghost before = candidate_views(candidates@);
        proof {
            assert(all.take(it.index() as int + 1).drop_last() == all.take(it.index() as int));
            assert(all.take(it.index() as int + 1).last() == bucket@);
        }
        let SizeBucket { size, paths } = bucket;
        if paths.len() > 1 {
            for path in jt: paths.into_iter()
                invariant
                    jt.seq() == paths@,
                    candidate_views(candidates@) == before + sized(size, paths@.take(
                        jt.index() as int,
                    )),
            {
                let ghost so_far = candidate_views(candidates@);
                candidates.push(Candidate { path, size });
                proof {
                    let taken = paths@.take(jt.index() as int);
                    assert(paths@.take(jt.index() as int + 1) =~= taken.push(path));
                    assert(sized(size, taken.push(path)) =~= sized(size, taken).push((size, path)));
                    assert(candidate_views(candidates@) =~= so_far.push((size, path)));
                    assert(so_far.push((size, path)) =~= before + sized(size, taken).push(
                        (size, path),
                    ));
                }
            }
            assert(paths@.take(paths@.len() as int) == paths@);
        }
    }
    assert(all.take(buckets@.len() as int) == all);
    candidates
}

/// A candidate after the attempt to hash it: its digest, or `None` where the
/// file could not be opened or read to its end.
#[derive(Debug, Clone, PartialEq, Eq)]
pub struct Hashed<P> {
    pub path: P,
    pub size: u64,
    pub digest: Option<Digest>,
}

/// The hashed files as keyed items: each path under its size and digest. A
/// file without a digest has no key.
pub open spec fn hashed_items<P>(files: Seq<Hashed<P>>) -> Seq<(Option<(u64, Seq<u8>)>, P)> {
    Seq::new(
        files.len(),
        |i: int|
            (
                match files[i].digest {
                    Some(digest) => Some((files[i].size, digest@)),
                    None => None,
                },
                files[i].path,
            ),
    )
}

/// The files of one size whose content has one digest, in the order in which
/// the traversal found them.
#[derive(Debug, Clone, PartialEq, Eq)]
pub struct DigestGroup<P> {
    pub size: u64,
    pub digest: Digest,
    pub paths: Vec<P>,
}

impl<P> View for DigestGroup<P> {
    type V = ((u64, Seq<u8>), Seq<P>);

    open spec fn view(&self) -> ((u64, Seq<u8>), Seq<P>) {
        ((self.size, self.digest@), self.paths@)
    }
}

/// What a list of digest groups holds: each group's key and paths.
pub open spec fn group_views<P>(list: Seq<DigestGroup<P>>) -> Seq<((u64, Seq<u8>), Seq<P>)> {
    Seq::new(list.len(), |i: int| list[i]@)
}

/// Whether a chain of the index names the group at position `j`.
spec fn names(chain: Seq<usize>, j: int) -> bool {
    exists|c: int| 0 <= c < chain.len() && #[trigger] chain[c] == j
}

/// Whether the groups, with the index that finds them by the leading word of
/// their digest, hold the groups of the items seen so far.
spec fn grouped<P>(
    list: Seq<DigestGroup<P>>,
    index: Map<u64, Vec<usize>>,
    seen: Seq<(Option<(u64, Seq<u8>)>, P)>,
) -> bool {
    &&& list.len() == distinct_keys(seen).len()
    &&& forall|j: int|
        0 <= j < list.len() ==> (#[trigger] list[j])@.0 == distinct_keys(seen)[j] && list[j].paths@
            == members(seen, distinct_keys(seen)[j])
    &&& forall|j: int|
        0 <= j < list.len() ==> index.contains_key(leading_word((#[trigger] list[j]).digest@))
            && names(index[leading_word(list[j].digest@)]@, j)
    &&& forall|word: u64, c: int|
        index.contains_key(word) && 0 <= c < index[word]@.len() ==> (#[trigger] index[word]@[c])
            < list.len()
}

/// Looks among the groups that `chain` names for the one with the given size
/// and digest.
fn find_group<P>(list: &Vec<DigestGroup<P>>, chain: &Vec<usize>, size: u64, digest: &Digest) -> (found:
    Option<usize>)
    requires
        forall|c: int| 0 <= c < chain@.len() ==> (#[trigger] chain@[c]) < list@.len(),
    ensures
        match found {
            Some(at) => at < list@.len() && list@[at as int].size == size && list@[at as int].digest@
                == digest@,
            None => forall|c: int|
                0 <= c < chain@.len() ==> !(list@[(#[trigger] chain@[c]) as int].size == size
                    && list@[chain@[c] as int].digest@ == digest@),
        },
{
    let mut c: usize = 0;
    while c < chain.len()
        invariant
            c <= chain@.len(),
            forall|c: int| 0 <= c < chain@.len() ==> (#[trigger] chain@[c]) < list@.len(),
            forall|b: int|
                0 <= b < c ==> !(list@[(#[trigger] chain@[b]) as int].size == size
                    && list@[chain@[b] as int].digest@ == digest@),
        decreases chain@.len() - c,
    {
        let at: usize = chain[c];
        if list[at].size == size && list[at].digest.same_as(digest) {
            return Some(at);
        }
        c += 1;
    }
    None
}

/// Sorts the hashed files into groups of equal size and digest. A file
/// without a digest joins no group. Groups stand in the order in which their
/// first files arrive, and within a group the files keep their order.
pub fn group_by_digest<P>(files: Vec<Hashed<P>>) -> (list: Vec<DigestGroup<P>>)
    ensures
        group_views(list@) == groups(hashed_items(files@)),
{
    let ghost items = hashed_items(files@);
    let mut list: Vec<DigestGroup<P>> = Vec::new();
    let mut index: HashMap<u64, Vec<usize>> = HashMap::new();
    for file in it: files.into_iter()
        invariant
            items == hashed_items(files@),
            it.seq() == files@,
            grouped(list@, index@, items.take(it.index() as int)),
    {
        let ghost seen = items.take(it.index() as int);
        let ghost item = items[it.index() as int];
        let ghost keys = distinct_keys(seen);
        let ghost old_list = list@;
        let ghost old_index = index@;
        proof {
            assert(items.take(it.index() as int + 1) == seen.push(item));
            lemma_distinct_keys_push(seen, item);
            lemma_distinct_keys_unique(seen);
            assert forall|key: (u64, Seq<u8>)| true implies #[trigger] members(
                seen.push(item),
                key,
            ) == if item.0 == Some(key) {
                members(seen, key).push(item.1)
            } else {
                members(seen, key)
            } by {
                lemma_members_push(seen, item, key);
            }
        }
        let Hashed { path, size, digest } = file;
        match digest {
            None => {},
            Some(digest) => {
                let ghost key = (size, digest@);
                let word = digest.leading();
                let found: Option<usize> = match index.get(&word) {
                    Some(chain) => find_group(&list, chain, size, &digest),
                    None => None,
                };
                match found {
                    Some(at) => {
                        list[at].paths.push(path);
                        proof {
                            assert(keys[at as int] == key);
                            assert forall|j: int| 0 <= j < list@.len() implies (#[trigger] list@[j])@.0
                                == keys[j] && list@[j].paths@ == members(
                                seen.push(item),
                                keys[j],
                            ) by {
                                if j != at {
                                    assert(list@[j] == old_list[j]);
                                    assert(keys[j] != keys[at as int]);
                                }
                            }
                            assert forall|j: int| 0 <= j < list@.len() implies index@.contains_key(
                                leading_word((#[trigger] list@[j]).digest@),
                            ) && names(index@[leading_word(list@[j].digest@)]@, j) by {
                                assert(list@[j].digest == old_list[j].digest);
                            }
                        }
                    },
                    None => {
                        proof {
                            if keys.contains(key) {
                                let j = choose|j: int| 0 <= j < keys.len() && keys[j] == key;
                                assert(old_list[j]@.0 == key);
                                let chain = old_index[word]@;
                                assert(names(chain, j));
                                let c = choose|c: int| 0 <= c < chain.len() && chain[c] == j;
                                assert(chain[c] == j);
                            }
                            lemma_key_occurs(seen, key);
                            assert(members(seen, key) =~= Seq::<P>::empty());
                        }
                        let at: usize = list.len();
                        let mut chain: Vec<usize> = match index.remove(&word) {
                            Some(chain) => chain,
                            None => Vec::new(),
                        };
                        let ghost old_chain = chain@;
                        chain.push(at);
                        index.insert(word, chain);
                        let mut paths: Vec<P> = Vec::new();
                        paths.push(path);
                        list.push(DigestGroup { size, digest, paths });
                        proof {
                            let now = keys.push(key);
                            assert(list@[at as int].paths@ =~= members(seen.push(item), key));
                            assert forall|j: int| 0 <= j < list@.len() implies (#[trigger] list@[j])@.0
                                == now[j] && list@[j].paths@ == members(seen.push(item), now[j]) by {
                                if j < at {
                                    assert(list@[j] == old_list[j]);
                                    assert(keys.contains(keys[j]));
                                }
                            }
                            assert(index@[word]@ == old_chain.push(at));
                            assert forall|j: int| 0 <= j < list@.len() implies index@.contains_key(
                                leading_word((#[trigger] list@[j]).digest@),
                            ) && names(index@[leading_word(list@[j].digest@)]@, j) by {
                                if j < at {
                                    assert(list@[j] == old_list[j]);
                                    let w = leading_word(old_list[j].digest@);
                                    assert(old_index.contains_key(w));
                                    if w == word {
                                        assert(names(old_chain, j));
                                        let c = choose|c: int|
                                            0 <= c < old_chain.len() && old_chain[c] == j;
                                        assert(old_chain.push(at)[c] == j);
                                    }
                                } else {
                                    assert(old_chain.push(at)[old_chain.len() as int] == at);
                                }
                            }
                            assert forall|w: u64, c: int|
                                index@.contains_key(w) && 0 <= c < index@[w]@.len() implies (
                            #[trigger] index@[w]@[c]) < list@.len() by {
                                if w == word {
                                    if c < old_chain.len() {
                                        assert(old_chain[c] == old_index[word]@[c]);
                                    }
                                } else {
                                    assert(index@[w]@[c] == old_index[w]@[c]);
                                }
                            }
                        }
                    },
                }
            },
        }
    }
    proof {
        assert(items.take(files@.len() as int) == items);
        assert(group_views(list@) =~= groups(items));
    }
    list
}

/// A set of duplicates: two or more files of one size whose content has one
/// digest. The first is the one that the traversal found first, the
/// "original"; the others are its "duplicates". The names say nothing about
/// which file is the authoritative one.
#[derive(Debug, PartialEq, Eq)]
pub struct DuplicateGroup<P> {
    size: u64,
    digest: Digest,
    members: Vec<P>,
}

impl<P> View for DuplicateGroup<P> {
    type V = ((u64, Seq<u8>), Seq<P>);

    closed spec fn view(&self) -> ((u64, Seq<u8>), Seq<P>) {
        ((self.size, self.digest@), self.members@)
    }
}

impl<P> DuplicateGroup<P> {
    #[verifier::type_invariant]
    spec fn well_formed(self) -> bool {
        self.members@.len() >= 2
    }

    /// Makes a digest group a set of duplicates, if it holds two files or
    /// more.
    pub fn from_group(group: DigestGroup<P>) -> (made: Option<DuplicateGroup<P>>)
        ensures
            match made {
                Some(duplicate) => group@.1.len() >= 2 && duplicate@ == group@,
                None => group@.1.len() < 2,
            },
    {
        let DigestGroup { size, digest, paths } = group;
        if paths.len() >= 2 {
            Some(DuplicateGroup { size, digest, members: paths })
        } else {
            None
        }
    }

    /// The size in bytes that the members share.
    pub fn size(&self) -> (size: u64)
        ensures
            size == self@.0.0,
    {
        self.size
    }

    /// The digest that the members share.
    pub fn digest(&self) -> (digest: Digest)
        ensures
            digest@ == self@.0.1,
    {
        self.digest
    }

    /// All members, the original first.
    pub fn members(&self) -> (members: &Vec<P>)
        ensures
            members@ == self@.1,
            members@.len() >= 2,
    {
        proof {
            use_type_invariant(self);
        }
        &self.members
    }

    /// The member that the traversal found first.
    pub fn original(&self) -> (first: &P)
        ensures
            self@.1.len() >= 2,
            *first == self@.1[0],
    {
        proof {
            use_type_invariant(self);
        }
        &self.members[0]
    }

    /// The members after the first, in the order in which they were found.
    pub fn duplicates(&self) -> (others: &[P])
        ensures
            self@.1.len() >= 2,
            others@ == self@.1.subrange(1, self@.1.len() as int),
    {
        proof {
            use_type_invariant(self);
        }
        vstd::slice::slice_subrange(self.members.as_slice(), 1, self.members.len())
    }

    /// Gives up the group for its members, the original first.
    pub fn into_members(self) -> (members: Vec<P>)
        ensures
            members@ == self@.1,
            members@.len() >= 2,
    {
        proof {
            use_type_invariant(&self);
        }
        self.members
    }
}

/// What a list of duplicate sets holds: each set's key and paths.
pub open spec fn duplicate_views<P>(list: Seq<DuplicateGroup<P>>) -> Seq<((u64, Seq<u8>), Seq<P>)> {
    Seq::new(list.len(), |i: int| list[i]@)
}

/// Keeps the groups that hold two files or more, in their order, and drops
/// the others.
pub fn keep_duplicates<P>(list: Vec<DigestGroup<P>>) -> (found: Vec<DuplicateGroup<P>>)
    ensures
        duplicate_views(found@) == repeated(group_views(list@)),
{
    let ghost all = group_views(list@);
    let mut found: Vec<DuplicateGroup<P>> = Vec::new();
    for group in it: list.into_iter()
        invariant
            all == group_views(list@),
            it.seq() == list@,
            duplicate_views(found@) == repeated(all.take(it.index() as int)),
    {
        let ghost kept = duplicate_views(found@);
        proof {
            assert(all.take(it.index() as int + 1) == all.take(it.index() as int).push(group@));
            lemma_repeated_push(all.take(it.index() as int), group@);
        }
        match DuplicateGroup::from_group(group) {
            Some(duplicate) => {
                found.push(duplicate);
                assert(duplicate_views(found@) =~= kept.push(duplicate@));
            },
            None => {},
        }
    }
    assert(all.take(list@.len() as int) == all);
    found
}

/// Finds the sets of duplicates among the hashed files: the files of equal
/// size and equal digest, wherever two or more share both. A file without a
/// digest is in no set. The sets stand in the order in which their first
/// files arrive; within a set the files keep their order, so that the first
/// is the original.
pub fn group_by_hash<P>(files: Vec<Hashed<P>>) -> (found: Vec<DuplicateGroup<P>>)
    ensures
        duplicate_views(found@) == duplicates(hashed_items(files@)),
{
    keep_duplicates(group_by_digest(files))
}

/// A file is picked for hashing exactly when the bucket of its size holds
/// two files or more. A file of unique size is never hashed.
pub proof fn lemma_candidate_shares_size<P>(buckets: Seq<(u64, Seq<P>)>, size: u64, path: P)
    ensures
        candidates_of(buckets).contains((size, path)) <==> exists|b: int|
            0 <= b < buckets.len() && (#[trigger] buckets[b]).0 == size && buckets[b].1.len() >= 2
                && buckets[b].1.contains(path),
    decreases buckets.len(),
{
    if buckets.len() > 0 {
        let before = buckets.drop_last();
        let last = buckets.last();
        let earlier = candidates_of(before);
        let now = candidates_of(buckets);
        let own = sized(last.0, last.1);
        lemma_candidate_shares_size(before, size, path);
        if now.contains((size, path)) {
            let n = choose|n: int| 0 <= n < now.len() && now[n] == (size, path);
            if n < earlier.len() {
                assert(earlier[n] == (size, path));
                let b = choose|b: int|
                    0 <= b < before.len() && (#[trigger] before[b]).0 == size && before[b].1.len()
                        >= 2 && before[b].1.contains(path);
                assert(buckets[b] == before[b]);
            } else {
                assert(own[n - earlier.len()] == (size, path));
                assert(last.1[n - earlier.len()] == path);
                assert(buckets[buckets.len() - 1] == last);
            }
        }
        if exists|b: int|
            0 <= b < buckets.len() && (#[trigger] buckets[b]).0 == size && buckets[b].1.len() >= 2
                && buckets[b].1.contains(path) {
            let b = choose|b: int|
                0 <= b < buckets.len() && (#[trigger] buckets[b]).0 == size && buckets[b].1.len()
                    >= 2 && buckets[b].1.contains(path);
            if b < before.len() {
                assert(before[b] == buckets[b]);
                let n = choose|n: int| 0 <= n < earlier.len() && earlier[n] == (size, path);
                assert(now[n] == (size, path));
            } else {
                let m = choose|m: int| 0 <= m < last.1.len() && last.1[m] == path;
                assert(own[m] == (size, path));
                assert(now[earlier.len() + m] == (size, path));
            }
        }
    }
}

} // verus!
