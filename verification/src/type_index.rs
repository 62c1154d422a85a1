//! The numbers that types get when they are first allocated.

use vstd::prelude::*;

use crate::any_ref::TypeIndex;
use crate::index_map::IndexMap;
use crate::trace::{AnyValue, Collectable};

verus! {

/// The types that have a number.
pub struct TypeIndexes {
    pub indexes: IndexMap,
}

impl View for TypeIndexes {
    type V = Map<u64, usize>;

    open spec fn view(&self) -> Map<u64, usize> {
        self.indexes@
    }
}

/// The table after a lookup of `key`: a key without a number gets the next
/// one.
pub open spec fn with_type(types: Map<u64, usize>, key: u64) -> Map<u64, usize> {
    if types.dom().contains(key) {
        types
    } else {
        types.insert(key, types.dom().len() as usize)
    }
}

/// There is a number left for one more type.
pub open spec fn type_room(types: Map<u64, usize>) -> bool {
    types.dom().len() <= u32::MAX
}

/// The number of the type with the key.
pub open spec fn type_index_of(types: Map<u64, usize>, key: u64) -> TypeIndex {
    TypeIndex { index: types[key] as u32 }
}

impl TypeIndexes {
    /// The types are numbered from zero on, each with a number of its own.
    pub open spec fn wf(self) -> bool {
        &&& self@.dom().finite()
        &&& self@.dom().len() <= u32::MAX + 1
        &&& forall|key: u64| #[trigger]
            self@.dom().contains(key) ==> self@[key] < self@.dom().len()
        &&& forall|a: u64, b: u64|
            #![trigger self@[a], self@[b]]
            self@.dom().contains(a) && self@.dom().contains(b) && self@[a] == self@[b] ==> a == b
    }

    /// Returns a table without types.
    pub fn new() -> (types: Self)
        ensures
            types.wf(),
            types@ == Map::<u64, usize>::empty(),
    {
        TypeIndexes { indexes: IndexMap::new() }
    }

    /// Returns true if the type with the key has a number or can get one.
    pub fn can_number(&self, key: u64) -> (result: bool)
        ensures
            result == (self@.dom().contains(key) || type_room(self@)),
    {
        self.indexes.get(key).is_some() || (self.indexes.len() as u64) <= u32::MAX as u64
    }

    /// Returns the number of the type with the key.
    pub fn of_key(&mut self, key: u64) -> (index: TypeIndex)
        requires
            old(self).wf(),
            old(self)@.dom().contains(key) || type_room(old(self)@),
        ensures
            final(self).wf(),
            final(self)@ == with_type(old(self)@, key),
            final(self)@.dom().contains(key),
            index == type_index_of(final(self)@, key),
            index.index == final(self)@[key],
    {
        match self.indexes.get(key) {
            Some(index) => TypeIndex { index: index as u32 },
            None => {
                let next_id: usize = self.indexes.len();
                self.indexes.insert(key, next_id);
                TypeIndex { index: next_id as u32 }
            },
        }
    }
}

impl TypeIndex {
    /// Returns the number of the type `T`.
    pub fn of<T: Collectable<V>, V: AnyValue>(types: &mut TypeIndexes) -> (index: TypeIndex)
        requires
            old(types).wf(),
            old(types)@.dom().contains(T::key()) || type_room(old(types)@),
        ensures
            final(types).wf(),
            final(types)@ == with_type(old(types)@, T::key()),
            final(types)@.dom().contains(T::key()),
            index == type_index_of(final(types)@, T::key()),
            index.index == final(types)@[T::key()],
    {
        types.of_key(T::collectable_key())
    }
}

} // verus!
