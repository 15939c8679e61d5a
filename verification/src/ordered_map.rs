//! The ordered map under the in-memory table: a skip list keyed by a user key
//! and a number, ordered by the user key's bytes and then by the number.
//!
//! The skip list is not verified. This file states what the library takes for
//! granted of it; everything else in the library is proved from these
//! statements.

use vstd::prelude::*;
use crate::bytes_order::bytes_lt;

verus! {

/// `skiplist::SkipMap`, taken as a type of which nothing is seen inside:
/// what a map holds is told by `skipmap_contents`.
#[verifier::external_type_specification]
#[verifier::external_body]
#[verifier::reject_recursive_types(K)]
#[verifier::reject_recursive_types(V)]
pub struct ExSkipMap<K, V>(skiplist::SkipMap<K, V>);

/// A key of the skip map: a user key and the number that orders its versions.
pub type MapKey = (Vec<u8>, u64);

/// A value of the skip map: an operation type and the bytes stored.
pub type MapValue = (u8, Vec<u8>);

/// A key of the skip map as plain values.
pub type KeyModel = (Seq<u8>, u64);

/// A value of the skip map as plain values.
pub type ValueModel = (u8, Seq<u8>);

/// What a skip map holds: for each key the value stored under it.
pub uninterp spec fn skipmap_contents(
    m: skiplist::SkipMap<MapKey, MapValue>,
) -> Map<KeyModel, ValueModel>;

/// The order of the skip map's keys: by the bytes, then by the number.
pub open spec fn pair_lt(a: KeyModel, b: KeyModel) -> bool {
    bytes_lt(a.0, b.0) || (a.0 == b.0 && a.1 < b.1)
}

/// `a` comes before `b` in the order of the skip map's keys, or is `b`.
pub open spec fn pair_le(a: KeyModel, b: KeyModel) -> bool {
    pair_lt(a, b) || a == b
}

/// The key and the value of an item as plain values.
pub open spec fn item_key(item: (MapKey, MapValue)) -> KeyModel {
    (item.0.0@, item.0.1)
}

/// The value of an item as plain values.
pub open spec fn item_value(item: (MapKey, MapValue)) -> ValueModel {
    (item.1.0, item.1.1@)
}

/// `items` are the contents of `m` in ascending order of their keys: each
/// item is in `m`, each key of `m` is among them, and the keys ascend
/// strictly.
pub open spec fn items_of(
    items: Seq<(MapKey, MapValue)>,
    m: Map<KeyModel, ValueModel>,
) -> bool {
    &&& forall|i: int|
        0 <= i < items.len() ==> m.contains_key(#[trigger] item_key(items[i])) && m[item_key(
            items[i],
        )] == item_value(items[i])
    &&& forall|k: KeyModel|
        m.contains_key(k) ==> exists|i: int| 0 <= i < items.len() && #[trigger] item_key(items[i]) == k
    &&& forall|i: int, j: int|
        0 <= i < j < items.len() ==> pair_lt(
            #[trigger] item_key(items[i]),
            #[trigger] item_key(items[j]),
        )
}

/// `SkipMap::new`: the new map holds nothing.
#[verifier::external_body]
pub(crate) fn skipmap_new() -> (m: skiplist::SkipMap<MapKey, MapValue>)
    ensures
        skipmap_contents(m) =~= Map::empty(),
{
    skiplist::SkipMap::new()
}

/// `SkipMap::insert`: the value is stored under the key, in place of the
/// value that was stored under it before, if there was one; nothing else
/// changes.
#[verifier::external_body]
pub(crate) fn skipmap_insert(
    m: &mut skiplist::SkipMap<MapKey, MapValue>,
    key: MapKey,
    value: MapValue,
)
    ensures
        skipmap_contents(*final(m)) == skipmap_contents(*old(m)).insert(
            (key.0@, key.1),
            (value.0, value.1@),
        ),
{
    m.insert(key, value);
}

/// `SkipMap::range` from `bound` on, both ends included, and the first item
/// that it yields: a copy of the item with the least key that is not below
/// `bound`, or `None` where every key is below `bound`.
#[verifier::external_body]
pub(crate) fn skipmap_first_from(
    m: &skiplist::SkipMap<MapKey, MapValue>,
    bound: &MapKey,
) -> (found: Option<(MapKey, MapValue)>)
    ensures
        match found {
            Some(item) => {
                &&& skipmap_contents(*m).contains_key(item_key(item))
                &&& skipmap_contents(*m)[item_key(item)] == item_value(item)
                &&& pair_le((bound.0@, bound.1), item_key(item))
                &&& forall|k: KeyModel|
                    skipmap_contents(*m).contains_key(k) && pair_le((bound.0@, bound.1), k)
                        ==> pair_le(item_key(item), k)
            },
            None => forall|k: KeyModel|
                skipmap_contents(*m).contains_key(k) ==> !pair_le((bound.0@, bound.1), k),
        },
{
    m.range(std::ops::Bound::Included(bound), std::ops::Bound::Unbounded).next().map(
        |(k, v)| (k.clone(), v.clone()),
    )
}

/// `SkipMap::into_iter` on the map taken out of `m`: the items come out in
/// ascending order of their keys, and `m` is left holding nothing.
#[verifier::external_body]
pub(crate) fn skipmap_drain(m: &mut skiplist::SkipMap<MapKey, MapValue>) -> (items: Vec<(MapKey, MapValue)>)
    ensures
        items_of(items@, skipmap_contents(*old(m))),
        skipmap_contents(*final(m)) =~= Map::empty(),
{
    std::mem::take(m).into_iter().collect()
}

} // verus!
