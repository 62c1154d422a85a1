//! The address of a slot inside a bin.

use vstd::prelude::*;

verus! {

/// The number of slots in a slab.
pub const SLOTS_PER_SLAB: usize = 256;

/// The largest number of slabs that a bin can address.
pub const MAX_SLABS: u32 = 0xFF_FFFF;

/// A slot's address: the slab index, shifted by one so that zero addresses
/// nothing, above the slot index in the low byte.
#[derive(Clone, Copy, PartialEq, Eq, Structural, PartialOrd, Ord, Hash, Debug)]
pub struct BinId {
    pub raw: u32,
}

/// The address of the given slot.
pub open spec fn bin_id(slab: int, slot: int) -> BinId {
    BinId { raw: ((slab + 1) * 256 + slot) as u32 }
}

impl BinId {
    /// The slab that this address names, `-1` for an invalid address.
    pub open spec fn slab_index(self) -> int {
        self.raw as int / 256 - 1
    }

    /// The slot within the slab.
    pub open spec fn slot_index(self) -> int {
        self.raw as int % 256
    }

    /// Returns the address of `slot` in `slab`.
    pub fn new(slab: u32, slot: u8) -> (id: Self)
        requires
            slab < MAX_SLABS,
        ensures
            id == bin_id(slab as int, slot as int),
            id.slab_index() == slab,
            id.slot_index() == slot,
            id.raw >= 256,
    {
        let above: u32 = slab + 1;
        let below: u32 = slot as u32;
        assert(above <= 0xFF_FFFF && below <= 0xFF ==> ((above << 8) | below) == above * 256 + below)
            by (bit_vector);
        BinId { raw: (above << 8) | below }
    }

    /// Returns the address of the first slot of the first slab.
    pub fn first() -> (id: Self)
        ensures
            id == bin_id(0, 0),
            id.raw == 256,
    {
        Self::new(0, 0)
    }

    /// Returns true if this addresses nothing.
    pub fn invalid(self) -> (result: bool)
        ensures
            result == (self.raw == 0),
    {
        self.raw == 0
    }

    /// Returns the slab index.
    pub fn slab(self) -> (slab: u32)
        requires
            self.raw >= 256,
        ensures
            slab == self.slab_index(),
    {
        let raw = self.raw;
        assert(raw >> 8 == raw / 256) by (bit_vector);
        (self.raw >> 8) - 1
    }

    /// Returns the slot index.
    pub fn slot(self) -> (slot: u8)
        ensures
            slot == self.slot_index(),
    {
        let raw = self.raw;
        assert(raw as u8 == raw % 256) by (bit_vector);
        self.raw as u8
    }
}

} // verus!
