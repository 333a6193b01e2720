//! The latest value of every input topic.
//!
//! Values are kept as 64-bit patterns, so that one cache serves every number
//! type.

use crate::scalar::Scalar;
use dashmap::DashMap;
use vstd::prelude::*;

verus! {

/// The concurrent map of the `dashmap` crate.
#[verifier::external_type_specification]
#[verifier::external_body]
#[verifier::reject_recursive_types(K)]
#[verifier::reject_recursive_types(V)]
#[verifier::reject_recursive_types(S)]
pub struct ExDashMap<K, V, S>(DashMap<K, V, S>);

/// What a concurrent map holds.
pub uninterp spec fn contents(map: DashMap<String, u64>) -> Map<Seq<char>, u64>;

/// The contents of a map without entries.
pub open spec fn nothing_cached() -> Map<Seq<char>, u64> {
    Map::empty()
}

/// `DashMap::new`: a map that holds nothing.
#[verifier::external_body]
fn dash_new() -> (r: DashMap<String, u64>)
    ensures
        contents(r) == nothing_cached(),
{
    DashMap::new()
}

/// `DashMap::insert`: the key has the value from then on, whatever it had
/// before, and no other key changes. The map is borrowed exclusively, so
/// that no reader sees it change.
#[verifier::external_body]
fn dash_insert(map: &mut DashMap<String, u64>, key: String, value: u64)
    ensures
        contents(*final(map)) == contents(*old(map)).insert(key@, value),
{
    map.insert(key, value);
}

/// `DashMap::get`: a copy of the key's value, if the key is there.
#[verifier::external_body]
fn dash_get(map: &DashMap<String, u64>, key: &str) -> (r: Option<u64>)
    ensures
        r == (if contents(*map).dom().contains(key@) {
            Some(contents(*map)[key@])
        } else {
            None
        }),
{
    map.get(key).map(|entry| *entry.value())
}

/// `DashMap::len`: how many keys there are.
#[verifier::external_body]
fn dash_len(map: &DashMap<String, u64>) -> (r: usize)
    ensures
        r == contents(*map).dom().len(),
{
    map.len()
}

/// The value that a cache holds for a topic.
pub open spec fn reading<N: Scalar>(cache: Map<Seq<char>, u64>, topic: Seq<char>) -> Option<N> {
    if cache.dom().contains(topic) {
        Some(N::bits_spec(cache[topic]))
    } else {
        None
    }
}

/// Latest value by topic.
pub struct InputCache {
    map: DashMap<String, u64>,
}

impl View for InputCache {
    type V = Map<Seq<char>, u64>;

    closed spec fn view(&self) -> Map<Seq<char>, u64> {
        contents(self.map)
    }
}

impl InputCache {
    /// Remember the latest value of a topic. The topic reads as that value from
    /// then on, and no other topic changes.
    pub fn insert<N: Scalar>(&mut self, topic: String, value: N)
        ensures
            final(self)@ == old(self)@.insert(topic@, value.to_bits_spec()),
            reading::<N>(final(self)@, topic@) == Some(value),
            forall|other: Seq<char>|
                other != topic@ ==> #[trigger] reading::<N>(final(self)@, other) == reading::<N>(
                    old(self)@,
                    other,
                ),
    {
        dash_insert(&mut self.map, topic, value.to_bits());
    }

    /// The latest value of a topic, if one has been heard.
    pub fn get<N: Scalar>(&self, topic: &str) -> (r: Option<N>)
        ensures
            r == reading::<N>(self@, topic@),
    {
        match dash_get(&self.map, topic) {
            Some(bits) => Some(N::from_bits(bits)),
            None => None,
        }
    }

    /// How many topics have been heard.
    pub fn len(&self) -> (r: usize)
        ensures
            r == self@.dom().len(),
    {
        dash_len(&self.map)
    }
}

/// An empty cache.
pub fn new_input_cache() -> (r: InputCache)
    ensures
        r@ == nothing_cached(),
{
    InputCache { map: dash_new() }
}

} // verus!
