//! Values of any type under integer keys.

use vstd::prelude::*;

use crate::index_map::IndexMap;

verus! {

/// A map from integer keys to values.
///
/// An [`IndexMap`] says at which position of `items` the value of a key lies.
pub struct KeyedStore<T> {
    pub index: IndexMap,
    pub items: Vec<Option<T>>,
}

impl<T> View for KeyedStore<T> {
    type V = Map<u64, T>;

    open spec fn view(&self) -> Map<u64, T> {
        Map::new(
            |key: u64| self.index@.dom().contains(key),
            |key: u64| self.items@[self.index@[key] as int].unwrap(),
        )
    }
}

impl<T> KeyedStore<T> {
    /// Every key has a position of its own, and a value lies there.
    pub open spec fn wf(self) -> bool {
        &&& forall|key: u64| #[trigger]
            self.index@.dom().contains(key) ==> self.index@[key] < self.items@.len()
                && self.items@[self.index@[key] as int] is Some
        &&& forall|a: u64, b: u64|
            #![trigger self.index@[a], self.index@[b]]
            self.index@.dom().contains(a) && self.index@.dom().contains(b) && self.index@[a]
                == self.index@[b] ==> a == b
    }

    /// Returns a store that holds nothing.
    pub fn new() -> (store: Self)
        ensures
            store.wf(),
            store@ == Map::<u64, T>::empty(),
    {
        let store = KeyedStore { index: IndexMap::new(), items: Vec::new() };
        assert(store@ =~= Map::<u64, T>::empty());
        store
    }

    /// Returns the value of `key`.
    pub fn get(&self, key: u64) -> (value: Option<&T>)
        requires
            self.wf(),
        ensures
            value == (if self@.dom().contains(key) { Some(&self@[key]) } else { None }),
    {
        match self.index.get(key) {
            Some(position) => self.items[position].as_ref(),
            None => None,
        }
    }

    /// Returns the value of `key` for modification.
    pub fn get_mut(&mut self, key: u64) -> (value: Option<&mut T>)
        requires
            old(self).wf(),
        ensures
            value is Some <==> old(self)@.dom().contains(key),
            value is Some ==> *value.unwrap() == old(self)@[key],
            value is Some ==> final(self).wf() && final(self)@ == old(self)@.insert(
                key,
                *final(value.unwrap()),
            ),
            value is None ==> final(self).wf() && final(self)@ == old(self)@,
    {
        match self.index.get(key) {
            Some(position) => {
                let ghost before = *self;
                let value = self.items[position].as_mut();
                proof {
                    assert forall|after: KeyedStore<T>|
                        after.index == before.index && after.items@ == before.items@.update(
                            position as int,
                            Some(*final(value.unwrap())),
                        ) implies after.wf() && #[trigger] after@ == before@.insert(
                        key,
                        *final(value.unwrap()),
                    ) by {
                        assert forall|k: u64| #[trigger] before.index@.dom().contains(k) && k != key implies
                            before.index@[k] != position by {
                            assert(before.index@[key] == position);
                        }
                        assert(after@ =~= before@.insert(key, *final(value.unwrap())));
                    }
                }
                value
            },
            None => None,
        }
    }

    /// Finds a position that no key uses.
    fn vacant(&self) -> (position: usize)
        ensures
            position <= self.items@.len(),
            position < self.items@.len() ==> self.items@[position as int] is None,
    {
        let mut position: usize = 0;
        while position < self.items.len()
            invariant
                position <= self.items@.len(),
            decreases self.items@.len() - position,
        {
            if self.items[position].is_none() {
                return position;
            }
            position = position + 1;
        }
        position
    }

    /// Gives `key` the value, returning the one it had before.
    pub fn insert(&mut self, key: u64, value: T) -> (previous: Option<T>)
        requires
            old(self).wf(),
        ensures
            final(self).wf(),
            final(self)@ == old(self)@.insert(key, value),
            previous == (if old(self)@.dom().contains(key) { Some(old(self)@[key]) } else { None }),
    {
        let ghost before = *self;
        match self.index.get(key) {
            Some(position) => {
                let mut item = Some(value);
                std::mem::swap(&mut item, &mut self.items[position]);
                assert(self@ =~= before@.insert(key, value)) by {
                    assert forall|k: u64| #[trigger] before.index@.dom().contains(k) && k != key implies
                        before.index@[k] != position by {
                        assert(before.index@[key] == position);
                    }
                }
                item
            },
            None => {
                let position: usize = self.vacant();
                if position < self.items.len() {
                    self.items.set(position, Some(value));
                } else {
                    self.items.push(Some(value));
                }
                self.index.insert(key, position);
                proof {
                    assert forall|k: u64| #[trigger] before.index@.dom().contains(k) implies
                        before.index@[k] != position && self.items@[before.index@[k] as int]
                        == before.items@[before.index@[k] as int] by {}
                    assert(self@ =~= before@.insert(key, value));
                }
                None
            },
        }
    }

    /// Removes `key`, returning its value.
    pub fn remove(&mut self, key: u64) -> (previous: Option<T>)
        requires
            old(self).wf(),
        ensures
            final(self).wf(),
            final(self)@ == old(self)@.remove(key),
            previous == (if old(self)@.dom().contains(key) { Some(old(self)@[key]) } else { None }),
    {
        let ghost before = *self;
        match self.index.remove(key) {
            Some(position) => {
                assert(before.index@.dom().contains(key));
                let mut item: Option<T> = None;
                std::mem::swap(&mut item, &mut self.items[position]);
                proof {
                    assert forall|k: u64| #[trigger] before.index@.dom().contains(k) && k != key implies
                        before.index@[k] != position by {
                        assert(before.index@[key] == position);
                    }
                    assert(self@ =~= before@.remove(key));
                }
                item
            },
            None => {
                assert(self@ =~= before@.remove(key));
                None
            },
        }
    }

    /// Returns true if there are no keys.
    pub fn is_empty(&self) -> (result: bool)
        ensures
            result == (self@ == Map::<u64, T>::empty()),
    {
        let result: bool = self.index.is_empty();
        proof {
            assert(self@.dom() =~= self.index@.dom());
            if result {
                assert(self@ =~= Map::<u64, T>::empty());
            }
            if self@ == Map::<u64, T>::empty() {
                assert(self.index@ =~= Map::<u64, usize>::empty());
            }
        }
        result
    }

    /// Returns the number of keys.
    pub fn len(&self) -> (count: usize)
        ensures
            count == self@.dom().len(),
    {
        assert(self@.dom() =~= self.index@.dom());
        self.index.len()
    }

    /// Removes all keys.
    pub fn clear(&mut self)
        ensures
            final(self).wf(),
            final(self)@ == Map::<u64, T>::empty(),
    {
        self.index.clear();
        self.items.clear();
        assert(self@ =~= Map::<u64, T>::empty());
    }

    /// Returns every key once, in ascending order.
    pub fn keys(&self) -> (keys: Vec<u64>)
        ensures
            forall|i: int, j: int| 0 <= i < j < keys@.len() ==> keys@[i] < keys@[j],
            forall|key: u64| #[trigger] keys@.contains(key) <==> self@.dom().contains(key),
    {
        self.index.keys()
    }
}

} // verus!
