//! Size buckets: candidate files partitioned by their exact length in bytes.

use std::collections::HashMap;
use vstd::prelude::*;
use crate::grouping::{
    distinct_keys, groups, lemma_distinct_keys_push, lemma_distinct_keys_unique, lemma_key_occurs,
    lemma_members_push, members,
};

verus! {

/// A candidate file with the length that was read for it just now, or `None`
/// where the length could not be read.
#[derive(Debug, Clone, PartialEq, Eq)]
pub struct Measured<P> {
    pub path: P,
    pub size: Option<u64>,
}

/// The files as keyed items: each path under its size.
pub open spec fn measured_items<P>(files: Seq<Measured<P>>) -> Seq<(Option<u64>, P)> {
    Seq::new(files.len(), |i: int| (files[i].size, files[i].path))
}

/// The paths of all files that were measured at one size, in the order in
/// which the traversal found them.
#[derive(Debug, Clone, PartialEq, Eq)]
pub struct SizeBucket<P> {
    pub size: u64,
    pub paths: Vec<P>,
}

impl<P> View for SizeBucket<P> {
    type V = (u64, Seq<P>);

    open spec fn view(&self) -> (u64, Seq<P>) {
        (self.size, self.paths@)
    }
}

/// What a list of buckets holds: each bucket's size and paths.
pub open spec fn bucket_views<P>(buckets: Seq<SizeBucket<P>>) -> Seq<(u64, Seq<P>)> {
    Seq::new(buckets.len(), |i: int| buckets[i]@)
}

/// Whether the buckets, with the index that finds them, hold the groups of
/// the items seen so far.
spec fn bucketed<P>(
    buckets: Seq<SizeBucket<P>>,
    index: Map<u64, usize>,
    seen: Seq<(Option<u64>, P)>,
) -> bool {
    &&& buckets.len() == distinct_keys(seen).len()
    &&& forall|j: int|
        0 <= j < buckets.len() ==> (#[trigger] buckets[j]).size == distinct_keys(seen)[j]
            && buckets[j].paths@ == members(seen, distinct_keys(seen)[j])
    &&& forall|size: u64| #[trigger]
        index.contains_key(size) <==> distinct_keys(seen).contains(size)
    &&& forall|size: u64| #[trigger]
        index.contains_key(size) ==> index[size] < buckets.len() && buckets[index[size] as int].size
            == size
}

/// Partitions the files by size. A file whose size could not be read is
/// dropped. Every size that occurs gets one bucket, also where it holds a
/// single file; buckets stand in the order in which their sizes occur first,
/// and within a bucket the files keep their order.
pub fn group_by_size<P>(files: Vec<Measured<P>>) -> (buckets: Vec<SizeBucket<P>>)
    ensures
        bucket_views(buckets@) == groups(measured_items(files@)),
{
    let ghost items = measured_items(files@);
    let mut buckets: Vec<SizeBucket<P>> = Vec::new();
    let mut index: HashMap<u64, usize> = HashMap::new();
    for file in it: files.into_iter()
        invariant
            items == measured_items(files@),
            it.seq() == files@,
            bucketed(buckets@, index@, items.take(it.index() as int)),
    {
        let ghost seen = items.take(it.index() as int);
        let ghost item = (file.size, file.path);
        let ghost keys = distinct_keys(seen);
        let ghost old_buckets = buckets@;
        proof {
            assert(items.take(it.index() as int + 1) == seen.push(item));
            lemma_distinct_keys_push(seen, item);
            lemma_distinct_keys_unique(seen);
            assert forall|key: u64| true implies #[trigger] members(seen.push(item), key) == if item.0
                == Some(key) {
                members(seen, key).push(item.1)
            } else {
                members(seen, key)
            } by {
                lemma_members_push(seen, item, key);
            }
        }
        match file.size {
            None => {},
            Some(size) => {
                match index.get(&size) {
                    Some(at) => {
                        let at: usize = *at;
                        buckets[at].paths.push(file.path);
                        proof {
                            assert forall|j: int| 0 <= j < buckets@.len() implies (
                            #[trigger] buckets@[j]).size == keys[j] && buckets@[j].paths@
                                == members(seen.push(item), keys[j]) by {
                                if j != at {
                                    assert(buckets@[j] == old_buckets[j]);
                                    assert(keys[j] != keys[at as int]);
                                }
                            }
                        }
                    },
                    None => {
                        let at: usize = buckets.len();
                        index.insert(size, at);
                        let mut paths: Vec<P> = Vec::new();
                        paths.push(file.path);
                        buckets.push(SizeBucket { size, paths });
                        proof {
                            lemma_key_occurs(seen, size);
                            let now = keys.push(size);
                            assert(members(seen, size) =~= Seq::<P>::empty());
                            assert(paths@ =~= members(seen.push(item), size));
                            assert forall|j: int| 0 <= j < buckets@.len() implies (
                            #[trigger] buckets@[j]).size == now[j] && buckets@[j].paths@
                                == members(seen.push(item), now[j]) by {
                                if j < at {
                                    assert(buckets@[j] == old_buckets[j]);
                                    assert(keys.contains(keys[j]));
                                }
                            }
                            assert forall|other: u64| #[trigger]
                                index@.contains_key(other) <==> now.contains(other) by {
                                if now.contains(other) {
                                    let k = choose|k: int| 0 <= k < now.len() && now[k] == other;
                                    if k < at {
                                        assert(keys[k] == other);
                                    }
                                }
                                if keys.contains(other) {
                                    let k = choose|k: int| 0 <= k < keys.len() && keys[k] == other;
                                    assert(now[k] == other);
                                }
                                assert(now[at as int] == size);
                            }
                        }
                    },
                }
            },
        }
    }
    proof {
        assert(items.take(files@.len() as int) == items);
        assert(bucket_views(buckets@) =~= groups(items));
    }
    buckets
}

} // verus!
