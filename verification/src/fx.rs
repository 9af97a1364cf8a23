//! Hash maps keyed by packed glyph keys.
//!
//! The maps are `rustc_hash::FxHashMap`s. Their keys are integers, so that what
//! a lookup finds rests on integer equality alone.
use vstd::prelude::*;
use rustc_hash::FxHashMap;

verus! {

/// The hasher state of an `FxHashMap`; it is only carried.
#[verifier::external_type_specification]
#[verifier::external_body]
pub struct ExFxBuildHasher(rustc_hash::FxBuildHasher);

/// The empty map.
pub open spec fn no_entries<V>() -> Map<u128, V> {
    Map::empty()
}

/// `items` are the entries of a map, each once, in some order.
pub open spec fn lists_map<V>(m: Map<u128, V>, items: Seq<(u128, V)>) -> bool {
    &&& forall|i: int|
        0 <= i < items.len() ==> m.contains_key((#[trigger] items[i]).0) && m[items[i].0] == items[i].1
    &&& forall|i: int, j: int|
        0 <= i < j < items.len() ==> (#[trigger] items[i]).0 != (#[trigger] items[j]).0
    &&& forall|k: u128| #[trigger]
        m.contains_key(k) ==> exists|i: int| 0 <= i < items.len() && (#[trigger] items[i]).0 == k
}

/// `keys` are the keys of a map, each once, in some order.
pub open spec fn lists_keys<V>(m: Map<u128, V>, keys: Seq<u128>) -> bool {
    &&& forall|i: int| 0 <= i < keys.len() ==> m.contains_key(#[trigger] keys[i])
    &&& forall|i: int, j: int| 0 <= i < j < keys.len() ==> #[trigger] keys[i] != #[trigger] keys[j]
    &&& forall|k: u128| #[trigger] m.contains_key(k) ==> keys.contains(k)
}

/// `FxHashMap::default`: an empty map.
#[verifier::external_body]
pub(crate) fn map_new<V>() -> (r: FxHashMap<u128, V>)
    ensures
        r@ == no_entries::<V>(),
{
    FxHashMap::default()
}

/// `FxHashMap::get`: the value stored under a key, if any.
#[verifier::external_body]
pub(crate) fn map_get<V>(m: &FxHashMap<u128, V>, key: u128) -> (r: Option<&V>)
    ensures
        r == (if m@.contains_key(key) { Some(&m@[key]) } else { None }),
{
    m.get(&key)
}

/// `FxHashMap::insert`: stores a value under a key, in place of an earlier one.
#[verifier::external_body]
pub(crate) fn map_insert<V>(m: &mut FxHashMap<u128, V>, key: u128, value: V)
    ensures
        final(m)@ == old(m)@.insert(key, value),
{
    m.insert(key, value);
}

/// `FxHashMap::remove`: takes a key out of the map and returns its value.
#[verifier::external_body]
pub(crate) fn map_remove<V>(m: &mut FxHashMap<u128, V>, key: u128) -> (r: Option<V>)
    ensures
        final(m)@ == old(m)@.remove(key),
        r == (if old(m)@.contains_key(key) { Some(old(m)@[key]) } else { None }),
{
    m.remove(&key)
}

/// `FxHashMap::len`: the number of keys.
#[verifier::external_body]
pub(crate) fn map_len<V>(m: &FxHashMap<u128, V>) -> (r: usize)
    ensures
        r == m@.len(),
{
    m.len()
}

/// `FxHashMap::drain`: empties the map and hands its entries out. Nothing is
/// said of the order in which they come.
#[verifier::external_body]
pub(crate) fn map_drain<V>(m: &mut FxHashMap<u128, V>) -> (r: Vec<(u128, V)>)
    ensures
        final(m)@ == no_entries::<V>(),
        lists_map(old(m)@, r@),
{
    m.drain().collect()
}

/// `FxHashMap::keys`: the keys of the map. Nothing is said of their order.
#[verifier::external_body]
pub(crate) fn map_keys<V>(m: &FxHashMap<u128, V>) -> (r: Vec<u128>)
    ensures
        lists_keys(m@, r@),
{
    m.keys().copied().collect()
}

}
