//! Grouping by key, in the order of arrival: the mathematics that size
//! buckets and digest groups share.
//!
//! An item is a pair of a key and a path. The key is `None` where it could not
//! be determined (the size could not be read, the content could not be
//! hashed); such an item belongs to no group.

use vstd::prelude::*;

verus! {

/// The paths of the items that have the key `key`, in the order of the items.
pub open spec fn members<K, P>(items: Seq<(Option<K>, P)>, key: K) -> Seq<P>
    decreases items.len(),
{
    if items.len() == 0 {
        Seq::empty()
    } else {
        let before = members(items.drop_last(), key);
        if items.last().0 == Some(key) {
            before.push(items.last().1)
        } else {
            before
        }
    }
}

/// The keys that occur among the items, each once, in the order in which
/// each occurs first.
pub open spec fn distinct_keys<K, P>(items: Seq<(Option<K>, P)>) -> Seq<K>
    decreases items.len(),
{
    if items.len() == 0 {
        Seq::empty()
    } else {
        let before = distinct_keys(items.drop_last());
        match items.last().0 {
            Some(key) => if before.contains(key) {
                before
            } else {
                before.push(key)
            },
            None => before,
        }
    }
}

/// One group for each key that occurs: the key and the paths of its items.
/// Groups stand in the order in which their keys occur first, and the paths
/// of a group in the order of the items.
pub open spec fn groups<K, P>(items: Seq<(Option<K>, P)>) -> Seq<(K, Seq<P>)> {
    Seq::new(
        distinct_keys(items).len(),
        |i: int| (distinct_keys(items)[i], members(items, distinct_keys(items)[i])),
    )
}

/// Of the given groups, those that hold two paths or more, in their order.
pub open spec fn repeated<K, P>(list: Seq<(K, Seq<P>)>) -> Seq<(K, Seq<P>)> {
    list.filter(|group: (K, Seq<P>)| group.1.len() >= 2)
}

/// The groups of the items that hold two items or more: the sets of
/// duplicates. A key that occurs once gives none.
pub open spec fn duplicates<K, P>(items: Seq<(Option<K>, P)>) -> Seq<(K, Seq<P>)> {
    repeated(groups(items))
}

/// What one more group does to the groups that are kept.
pub proof fn lemma_repeated_push<K, P>(list: Seq<(K, Seq<P>)>, group: (K, Seq<P>))
    ensures
        repeated(list.push(group)) == if group.1.len() >= 2 {
            repeated(list).push(group)
        } else {
            repeated(list)
        },
{
    list.lemma_filter_push(group, |group: (K, Seq<P>)| group.1.len() >= 2);
}

/// What one more item does to the members of a key.
pub proof fn lemma_members_push<K, P>(items: Seq<(Option<K>, P)>, item: (Option<K>, P), key: K)
    ensures
        members(items.push(item), key) == if item.0 == Some(key) {
            members(items, key).push(item.1)
        } else {
            members(items, key)
        },
{
    assert(items.push(item).drop_last() == items);
}

/// What one more item does to the keys that occur.
pub proof fn lemma_distinct_keys_push<K, P>(items: Seq<(Option<K>, P)>, item: (Option<K>, P))
    ensures
        distinct_keys(items.push(item)) == match item.0 {
            Some(key) => if distinct_keys(items).contains(key) {
                distinct_keys(items)
            } else {
                distinct_keys(items).push(key)
            },
            None => distinct_keys(items),
        },
{
    assert(items.push(item).drop_last() == items);
}

/// No key is listed twice.
pub proof fn lemma_distinct_keys_unique<K, P>(items: Seq<(Option<K>, P)>)
    ensures
        distinct_keys(items).no_duplicates(),
    decreases items.len(),
{
    if items.len() > 0 {
        lemma_distinct_keys_unique(items.drop_last());
    }
}

/// A key is listed exactly when some item has it, and then it has members.
pub proof fn lemma_key_occurs<K, P>(items: Seq<(Option<K>, P)>, key: K)
    ensures
        distinct_keys(items).contains(key) <==> members(items, key).len() > 0,
        distinct_keys(items).contains(key) <==> exists|i: int|
            0 <= i < items.len() && (#[trigger] items[i]).0 == Some(key),
    decreases items.len(),
{
    if items.len() > 0 {
        let before = items.drop_last();
        lemma_key_occurs(before, key);
        let keys = distinct_keys(before);
        if items.last().0 == Some(key) {
            if !keys.contains(key) {
                assert(keys.push(key)[keys.len() as int] == key);
            }
            assert(items[items.len() - 1].0 == Some(key));
        } else {
            if distinct_keys(items).contains(key) {
                let at = choose|at: int|
                    0 <= at < distinct_keys(items).len() && distinct_keys(items)[at] == key;
                assert(keys.contains(key));
                let i = choose|i: int| 0 <= i < before.len() && (#[trigger] before[i]).0 == Some(key);
                assert(items[i].0 == Some(key));
            }
            if exists|i: int| 0 <= i < items.len() && (#[trigger] items[i]).0 == Some(key) {
                let i = choose|i: int| 0 <= i < items.len() && (#[trigger] items[i]).0 == Some(key);
                assert(before[i].0 == Some(key));
                assert(keys.contains(key));
                match items.last().0 {
                    Some(other) => {
                        if !keys.contains(other) {
                            let at = choose|at: int| 0 <= at < keys.len() && keys[at] == key;
                            assert(keys.push(other)[at] == key);
                        }
                    },
                    None => {},
                }
            }
        }
    }
}

/// A path is among the members of a key exactly when some item has that key
/// and that path.
pub proof fn lemma_member_is_item<K, P>(items: Seq<(Option<K>, P)>, key: K, path: P)
    ensures
        members(items, key).contains(path) <==> exists|i: int|
            0 <= i < items.len() && (#[trigger] items[i]).0 == Some(key) && items[i].1 == path,
    decreases items.len(),
{
    if items.len() > 0 {
        let before = items.drop_last();
        let last = items.last();
        let earlier = members(before, key);
        let now = members(items, key);
        lemma_member_is_item(before, key, path);
        if now.contains(path) {
            let n = choose|n: int| 0 <= n < now.len() && now[n] == path;
            if last.0 == Some(key) && n == earlier.len() {
                assert(items[items.len() - 1].0 == Some(key) && items[items.len() - 1].1 == path);
            } else {
                assert(earlier[n] == path);
                let i = choose|i: int|
                    0 <= i < before.len() && (#[trigger] before[i]).0 == Some(key) && before[i].1
                        == path;
                assert(items[i].0 == Some(key) && items[i].1 == path);
            }
        }
        if exists|i: int|
            0 <= i < items.len() && (#[trigger] items[i]).0 == Some(key) && items[i].1 == path {
            let i = choose|i: int|
                0 <= i < items.len() && (#[trigger] items[i]).0 == Some(key) && items[i].1 == path;
            if i == items.len() - 1 {
                assert(now[earlier.len() as int] == path);
            } else {
                assert(before[i].0 == Some(key) && before[i].1 == path);
                let n = choose|n: int| 0 <= n < earlier.len() && earlier[n] == path;
                assert(now[n] == path);
            }
        }
    }
}

/// The groups that are kept were among the groups, and where no two groups
/// have one key, no two of those kept have.
pub proof fn lemma_repeated_keeps_keys_apart<K, P>(list: Seq<(K, Seq<P>)>)
    requires
        forall|a: int, b: int| 0 <= a < b < list.len() ==> list[a].0 != list[b].0,
    ensures
        forall|g: int| 0 <= g < repeated(list).len() ==> list.contains(#[trigger] repeated(list)[g]),
        forall|a: int, b: int|
            0 <= a < b < repeated(list).len() ==> repeated(list)[a].0 != repeated(list)[b].0,
    decreases list.len(),
{
    if list.len() == 0 {
        list.lemma_filter_len(|group: (K, Seq<P>)| group.1.len() >= 2);
    } else {
        let before = list.drop_last();
        let last = list.last();
        assert(list == before.push(last));
        lemma_repeated_push(before, last);
        lemma_repeated_keeps_keys_apart(before);
        let kept = repeated(before);
        let now = repeated(list);
        assert forall|g: int| 0 <= g < now.len() implies list.contains(#[trigger] now[g]) by {
            if g < kept.len() {
                assert(before.contains(kept[g]));
                let n = choose|n: int| 0 <= n < before.len() && before[n] == kept[g];
                assert(list[n] == now[g]);
            } else {
                assert(list[list.len() - 1] == now[g]);
            }
        }
        assert forall|a: int, b: int| 0 <= a < b < now.len() implies now[a].0 != now[b].0 by {
            if b >= kept.len() {
                assert(before.contains(kept[a]));
                let n = choose|n: int| 0 <= n < before.len() && before[n] == kept[a];
                assert(list[n].0 != list[list.len() - 1].0);
            }
        }
    }
}

/// Each set of duplicates is the group of one key, with all the members of
/// that key, which are two or more.
pub proof fn lemma_duplicates_are_groups<K, P>(items: Seq<(Option<K>, P)>, g: int)
    requires
        0 <= g < duplicates(items).len(),
    ensures
        duplicates(items)[g].1 == members(items, duplicates(items)[g].0),
        duplicates(items)[g].1.len() >= 2,
        distinct_keys(items).contains(duplicates(items)[g].0),
{
    let all = groups(items);
    lemma_distinct_keys_unique(items);
    lemma_repeated_keeps_keys_apart(all);
    all.lemma_filter_pred(|group: (K, Seq<P>)| group.1.len() >= 2, g);
    assert(all.contains(duplicates(items)[g]));
    let n = choose|n: int| 0 <= n < all.len() && all[n] == duplicates(items)[g];
    assert(distinct_keys(items)[n] == duplicates(items)[g].0);
}

/// No two sets of duplicates have one key.
pub proof fn lemma_duplicates_keys_differ<K, P>(items: Seq<(Option<K>, P)>, a: int, b: int)
    requires
        0 <= a < b < duplicates(items).len(),
    ensures
        duplicates(items)[a].0 != duplicates(items)[b].0,
{
    lemma_distinct_keys_unique(items);
    lemma_repeated_keeps_keys_apart(groups(items));
}

/// A key that two or more items have gives a set of duplicates, which holds
/// all of them.
pub proof fn lemma_repeated_key_has_group<K, P>(items: Seq<(Option<K>, P)>, key: K) -> (g: int)
    requires
        members(items, key).len() >= 2,
    ensures
        0 <= g < duplicates(items).len(),
        duplicates(items)[g] == (key, members(items, key)),
{
    let all = groups(items);
    lemma_key_occurs(items, key);
    let n = choose|n: int| 0 <= n < distinct_keys(items).len() && distinct_keys(items)[n] == key;
    assert(all[n] == (key, members(items, key)));
    all.lemma_filter_contains(|group: (K, Seq<P>)| group.1.len() >= 2, n);
    assert(duplicates(items).contains(all[n]));
    choose|g: int| 0 <= g < duplicates(items).len() && duplicates(items)[g] == all[n]
}

/// Two items of one key are in one set of duplicates, whatever stands
/// between them, if their paths differ.
pub proof fn lemma_same_key_same_group<K, P>(items: Seq<(Option<K>, P)>, i: int, j: int) -> (g: int)
    requires
        0 <= i < items.len(),
        0 <= j < items.len(),
        items[i].0 is Some,
        items[i].0 == items[j].0,
        items[i].1 != items[j].1,
    ensures
        0 <= g < duplicates(items).len(),
        duplicates(items)[g].0 == items[i].0->0,
        duplicates(items)[g].1.contains(items[i].1),
        duplicates(items)[g].1.contains(items[j].1),
{
    let key = items[i].0->0;
    let group = members(items, key);
    lemma_member_is_item(items, key, items[i].1);
    lemma_member_is_item(items, key, items[j].1);
    let a = choose|a: int| 0 <= a < group.len() && group[a] == items[i].1;
    let b = choose|b: int| 0 <= b < group.len() && group[b] == items[j].1;
    assert(a != b);
    lemma_repeated_key_has_group(items, key)
}

/// Whatever stands in a set of duplicates is the path of an item that has
/// the key of the set. So an item without a key, and an item with another
/// key, is in it only if its path occurs twice among the items.
pub proof fn lemma_group_member_has_key<K, P>(items: Seq<(Option<K>, P)>, g: int, path: P) -> (i: int)
    requires
        0 <= g < duplicates(items).len(),
        duplicates(items)[g].1.contains(path),
    ensures
        0 <= i < items.len(),
        items[i].0 == Some(duplicates(items)[g].0),
        items[i].1 == path,
{
    lemma_duplicates_are_groups(items, g);
    lemma_member_is_item(items, duplicates(items)[g].0, path);
    choose|i: int|
        0 <= i < items.len() && (#[trigger] items[i]).0 == Some(duplicates(items)[g].0)
            && items[i].1 == path
}

/// The members of a key among two runs of items, one after the other.
pub proof fn lemma_members_concat<K, P>(a: Seq<(Option<K>, P)>, b: Seq<(Option<K>, P)>, key: K)
    ensures
        members(a + b, key) == members(a, key) + members(b, key),
    decreases b.len(),
{
    if b.len() == 0 {
        assert(a + b == a);
        assert(members(a, key) + members(b, key) =~= members(a, key));
    } else {
        assert((a + b).drop_last() == a + b.drop_last());
        lemma_members_concat(a, b.drop_last(), key);
        assert(members(a + b, key) =~= members(a, key) + members(b, key));
    }
}

/// A key has no more members than there are items.
pub proof fn lemma_members_bounded<K, P>(items: Seq<(Option<K>, P)>, key: K)
    ensures
        members(items, key).len() <= items.len(),
    decreases items.len(),
{
    if items.len() > 0 {
        lemma_members_bounded(items.drop_last(), key);
    }
}

} // verus!
