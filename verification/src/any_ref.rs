//! The untyped address of a collectable value.

use vstd::prelude::*;

use crate::bin_id::BinId;

verus! {

/// The identity of a pool of values.
#[derive(Clone, Copy, PartialEq, Eq, Structural, PartialOrd, Ord, Hash, Debug)]
pub struct CollectorThreadId {
    pub id: u32,
}

/// The number that a collector has given to a type.
#[derive(Clone, Copy, PartialEq, Eq, Structural, PartialOrd, Ord, Hash, Debug)]
pub struct TypeIndex {
    pub index: u32,
}

/// A type-erased garbage collected reference.
#[derive(Clone, Copy, PartialEq, Eq, Structural, PartialOrd, Ord, Hash, Debug)]
pub struct AnyRef {
    pub bin_id: BinId,
    pub creating_thread: CollectorThreadId,
    pub type_index: TypeIndex,
    pub slot_generation: u32,
}

/// The place that a reference names, whatever generation lives there.
pub ghost struct Addr {
    pub thread: u32,
    pub type_index: u32,
    pub raw: u32,
}

impl AnyRef {
    /// The place that this reference names.
    pub open spec fn addr(self) -> Addr {
        Addr {
            thread: self.creating_thread.id,
            type_index: self.type_index.index,
            raw: self.bin_id.raw,
        }
    }
}

} // verus!
