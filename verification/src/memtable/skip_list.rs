//! The skip list that holds the entries of a memtable, and what is taken on
//! trust about it.

use crate::value::bytes_lt;
use crossbeam_skiplist::SkipMap;
use std::ops::Bound;
use vstd::prelude::*;

verus! {

#[verifier::external_type_specification]
#[verifier::external_body]
#[verifier::reject_recursive_types(K)]
#[verifier::reject_recursive_types(V)]
pub struct ExSkipMap<K, V>(SkipMap<K, V>);

/// A key of the skip list: bytes and two numbers, ordered as tuples are.
pub type ItemKey = (Vec<u8>, u64, u8);

/// A key of the skip list as a mathematical value.
pub type Item = (Seq<u8>, u64, u8);

/// The skip list of a memtable.
pub type SkipList = SkipMap<ItemKey, Vec<u8>>;

/// What a skip list holds: the value of each key.
pub uninterp spec fn skipmap_entries(list: SkipList) -> Map<Item, Seq<u8>>;

/// The order in which the skip list keeps its keys, which is that of `Ord`
/// on tuples: by the bytes first, then by the two numbers.
pub open spec fn item_lt(a: Item, b: Item) -> bool {
    bytes_lt(a.0, b.0) || (a.0 == b.0 && (a.1 < b.1 || (a.1 == b.1 && a.2 < b.2)))
}

/// Whether a key lies in the part of the list that a lower bound opens.
pub open spec fn item_above(
    k: Item,
    bound: Item,
    inclusive: bool,
) -> bool {
    item_lt(bound, k) || (inclusive && k == bound)
}

/// Calls `SkipMap::new`: the new list has no key.
#[verifier::external_body]
pub(crate) fn skipmap_new() -> (list: SkipList)
    ensures
        skipmap_entries(list).dom() == Set::<Item>::empty(),
{
    SkipMap::new()
}

/// Calls `SkipMap::insert`: afterwards the key has the new value, an entry
/// that was there under this key is gone, and the other keys are as they were.
/// The call does not unwind: comparing keys, which are bytes and numbers,
/// cannot panic.
#[verifier::external_body]
pub(crate) fn skipmap_insert(
    list: &mut SkipList,
    key: ItemKey,
    value: Vec<u8>,
)
    ensures
        skipmap_entries(*final(list)) == skipmap_entries(*old(list)).insert(
            (key.0@, key.1, key.2),
            value@,
        ),
    no_unwind
{
    list.insert(key, value);
}

/// Calls `SkipMap::len`: the number of entries, which is exact while nobody
/// else changes the list.
#[verifier::external_body]
pub(crate) fn skipmap_len(list: &SkipList) -> (n: usize)
    ensures
        n == skipmap_entries(*list).dom().len(),
{
    list.len()
}

/// Calls `SkipMap::lower_bound`, with `Bound::Included` if `inclusive` and
/// `Bound::Excluded` if not, and copies the entry found: it is the entry
/// with the least key above the bound (at or above it if `inclusive`), and
/// there is none where no key of the list lies there.
#[verifier::external_body]
pub(crate) fn skipmap_lower_bound(
    list: &SkipList,
    bound: &ItemKey,
    inclusive: bool,
) -> (r: Option<(ItemKey, Vec<u8>)>)
    ensures
        match r {
            None => forall|k: Item|
                skipmap_entries(*list).dom().contains(k) ==> !item_above(
                    k,
                    (bound.0@, bound.1, bound.2),
                    inclusive,
                ),
            Some((key, value)) => {
                let found = (key.0@, key.1, key.2);
                &&& skipmap_entries(*list).dom().contains(found)
                &&& skipmap_entries(*list)[found] == value@
                &&& item_above(found, (bound.0@, bound.1, bound.2), inclusive)
                &&& forall|k: Item|
                    skipmap_entries(*list).dom().contains(k) && item_above(
                        k,
                        (bound.0@, bound.1, bound.2),
                        inclusive,
                    ) ==> k == found || item_lt(found, k)
            },
        },
{
    let from = if inclusive { Bound::Included(bound) } else { Bound::Excluded(bound) };
    list.lower_bound(from).map(|entry| (entry.key().clone(), entry.value().clone()))
}

} // verus!
