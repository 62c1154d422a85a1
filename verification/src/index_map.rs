//! An ordered map from integers to integers, kept by `kempt`.

use vstd::prelude::*;

verus! {

/// An ordered map from keys to positions.
///
/// The pairs are kept in a [`kempt::Map`], which stores them in a vector that
/// is sorted by key.
#[verifier::external_body]
pub struct IndexMap {
    fields: kempt::Map<u64, usize>,
}

/// The pairs that an [`IndexMap`] holds.
pub uninterp spec fn index_map_contents(map: IndexMap) -> Map<u64, usize>;

impl View for IndexMap {
    type V = Map<u64, usize>;

    open spec fn view(&self) -> Map<u64, usize> {
        index_map_contents(*self)
    }
}

impl IndexMap {
    /// `kempt::Map::new`: the map holds nothing.
    #[verifier::external_body]
    pub(crate) fn new() -> (created: Self)
        ensures
            (index_map_contents(created) == Map::<u64, usize>::empty()),
    {
        IndexMap { fields: kempt::Map::new() }
    }

    /// `kempt::Map::get`: the value that `key` has in the map, if it has one.
    #[verifier::external_body]
    pub(crate) fn get(&self, key: u64) -> (value: Option<usize>)
        ensures
            value == (if index_map_contents(*self).dom().contains(key) {
                Some(index_map_contents(*self)[key])
            } else {
                None
            }),
    {
        self.fields.get(&key).copied()
    }

    /// `kempt::Map::insert`: `key` gets `value`, other keys keep theirs, and
    /// the value that `key` had before is returned.
    #[verifier::external_body]
    pub(crate) fn insert(&mut self, key: u64, value: usize) -> (previous: Option<usize>)
        ensures
            index_map_contents(*final(self)) == index_map_contents(*old(self)).insert(key, value),
            previous == (if index_map_contents(*old(self)).dom().contains(key) {
                Some(index_map_contents(*old(self))[key])
            } else {
                None
            }),
    {
        self.fields.insert(key, value).map(|field| field.value)
    }

    /// `kempt::Map::remove`: `key` leaves the map, other keys stay, and the
    /// value that `key` had is returned.
    #[verifier::external_body]
    pub(crate) fn remove(&mut self, key: u64) -> (previous: Option<usize>)
        ensures
            index_map_contents(*final(self)) == index_map_contents(*old(self)).remove(key),
            previous == (if index_map_contents(*old(self)).dom().contains(key) {
                Some(index_map_contents(*old(self))[key])
            } else {
                None
            }),
    {
        self.fields.remove(&key).map(|field| field.value)
    }

    /// `kempt::Map::len`: the number of keys.
    #[verifier::external_body]
    pub(crate) fn len(&self) -> (count: usize)
        ensures
            count == index_map_contents(*self).dom().len(),
    {
        self.fields.len()
    }

    /// `kempt::Map::is_empty`: whether there is no key.
    #[verifier::external_body]
    pub(crate) fn is_empty(&self) -> (empty: bool)
        ensures
            (empty == (index_map_contents(*self) == Map::<u64, usize>::empty())),
    {
        self.fields.is_empty()
    }

    /// `kempt::Map::clear`: nothing is left in the map.
    #[verifier::external_body]
    pub(crate) fn clear(&mut self)
        ensures
            (index_map_contents(*final(self)) == Map::<u64, usize>::empty()),
    {
        self.fields.clear()
    }

    /// `kempt::Map::keys`: every key of the map, once, in ascending order.
    #[verifier::external_body]
    pub(crate) fn keys(&self) -> (keys: Vec<u64>)
        ensures
            forall|i: int, j: int| 0 <= i < j < keys@.len() ==> keys@[i] < keys@[j],
            forall|key: u64|
                #![trigger keys@.contains(key)]
                keys@.contains(key) <==> index_map_contents(*self).dom().contains(key),
    {
        self.fields.keys().copied().collect()
    }
}

} // verus!
