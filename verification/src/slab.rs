//! Slots, slabs of slots, and the growing list of slabs behind a bin.

use std::sync::Arc;
use vstd::prelude::*;

use crate::bin_id::{BinId, MAX_SLABS};
use crate::slot_state::{generation_after, SlotState, SlotSweepStatus};

verus! {

/// A value together with the number of root references to it.
pub struct Rooted<V> {
    pub roots: u64,
    pub value: Arc<V>,
}

impl<V> Rooted<V> {
    /// This value as the contents of a slot that was just allocated.
    pub open spec fn stored(self, generation: u32) -> Cell<V> {
        Cell { generation, mark: 0, roots: self.roots, value: *self.value }
    }

    /// Prepares `value` for storage without a root.
    pub fn reference(value: V) -> (rooted: Self)
        ensures
            rooted.roots == 0,
            *rooted.value == value,
    {
        Rooted { roots: 0, value: Arc::new(value) }
    }

    /// Prepares `value` for storage with one root.
    pub fn root(value: V) -> (rooted: Self)
        ensures
            rooted.roots == 1,
            *rooted.value == value,
    {
        Rooted { roots: 1, value: Arc::new(value) }
    }
}

/// What an allocated slot holds.
pub ghost struct Cell<V> {
    pub generation: u32,
    pub mark: u8,
    pub roots: u64,
    pub value: V,
}

/// The contents of a slot: a value, or the address of the next free slot.
pub enum SlotData<V> {
    Allocated(Rooted<V>),
    Free(u32),
}

/// A place for one value.
pub struct Slot<V> {
    pub state: SlotState,
    pub value: SlotData<V>,
}

impl<V> Slot<V> {
    /// The state word and the contents agree.
    pub open spec fn wf(self) -> bool {
        &&& self.state.wf()
        &&& self.state@.allocated <==> self.value is Allocated
    }

    /// The value that this slot holds.
    pub open spec fn cell(self) -> Option<Cell<V>> {
        match self.value {
            SlotData::Allocated(rooted) => Some(
                Cell {
                    generation: self.state@.generation,
                    mark: self.state@.mark,
                    roots: rooted.roots,
                    value: *rooted.value,
                },
            ),
            SlotData::Free(_) => None,
        }
    }

    /// A slot that was never allocated.
    pub fn new() -> (slot: Self)
        ensures
            slot.wf(),
            slot.cell() is None,
            slot.state@.generation == 0,
    {
        Slot { state: SlotState::new(), value: SlotData::Free(0) }
    }

    /// Stores `value` in this free slot and returns the generation.
    pub fn allocate(&mut self, value: Rooted<V>) -> (generation: u32)
        requires
            old(self).wf(),
            old(self).cell() is None,
        ensures
            final(self).wf(),
            generation == old(self).state.next_generation(),
            final(self).state@.generation == generation,
            final(self).cell() == Some(
                value.stored(generation),
            ),
    {
        let generation: u32 = self.state.allocate();
        self.value = SlotData::Allocated(value);
        generation
    }

    /// Stores `value` in this slot if it is free, returning the generation and
    /// the address of the free slot that followed it.
    pub fn try_allocate(&mut self, value: Rooted<V>) -> (result: Result<(u32, u32), Rooted<V>>)
        requires
            old(self).wf(),
        ensures
            final(self).wf(),
            match old(self).value {
                SlotData::Allocated(_) => result == Err::<(u32, u32), Rooted<V>>(value) && *final(self)
                    == *old(self),
                SlotData::Free(next) => {
                    let generation = old(self).state.next_generation();
                    &&& result == Ok::<(u32, u32), Rooted<V>>((generation, next))
                    &&& final(self).state@.generation == generation
                    &&& final(self).cell() == Some(
                        value.stored(generation),
                    )
                },
            },
    {
        let next: u32 = match &self.value {
            SlotData::Allocated(_) => return Err(value),
            SlotData::Free(next) => *next,
        };
        match self.state.try_allocate() {
            Some(generation) => {
                self.value = SlotData::Allocated(value);
                Ok((generation, next))
            },
            None => Err(value),
        }
    }

    /// Drops the value unless it carries `mark_bits`, linking the freed slot
    /// in front of `free_head`.
    pub fn sweep(&mut self, mark_bits: u8, free_head: BinId) -> (status: SlotSweepStatus)
        requires
            old(self).wf(),
        ensures
            final(self).wf(),
            status == (match old(self).cell() {
                None => SlotSweepStatus::NotAllocated,
                Some(cell) => if cell.mark == mark_bits {
                    SlotSweepStatus::Allocated
                } else {
                    SlotSweepStatus::Swept
                },
            }),
            status is Swept ==> {
                &&& final(self).cell() is None
                &&& final(self).value == SlotData::<V>::Free(free_head.raw)
                &&& final(self).state@.generation == old(self).state@.generation
            },
            !(status is Swept) ==> *final(self) == *old(self),
    {
        match self.state.sweep(mark_bits) {
            SlotSweepStatus::Swept => {
                self.value = SlotData::Free(free_head.raw);
                SlotSweepStatus::Swept
            },
            other => other,
        }
    }
}

/// Where a value was stored.
pub struct Adopted {
    pub generation: u32,
    pub bin_id: BinId,
    /// The allocation used up a slab: a collection should be scheduled.
    pub slab_filled: bool,
}

/// A fixed number of slots, filled from the front.
pub struct Slab<V> {
    pub slots: Vec<Slot<V>>,
    pub last_allocated: u8,
}

impl<V> Slab<V> {
    /// There is a slot for every slot index, and none beyond
    /// `last_allocated` holds a value.
    pub open spec fn wf(self) -> bool {
        &&& self.slots@.len() == 256
        &&& forall|i: int| 0 <= i < 256 ==> (#[trigger] self.slots@[i]).wf()
        &&& forall|i: int| self.last_allocated < i < 256 ==> (#[trigger] self.slots@[i]).cell() is None
    }

    /// Returns a slab whose first slot holds `first_value`.
    pub fn new(first_value: Rooted<V>) -> (slab: Self)
        ensures
            slab.wf(),
            slab.last_allocated == 0,
            slab.slots@[0].cell() == Some(
                first_value.stored(0),
            ),
            forall|i: int| 0 < i < 256 ==> (#[trigger] slab.slots@[i]).cell() is None,
            forall|i: int| 0 <= i < 256 ==> (#[trigger] slab.slots@[i]).state@.generation == 0,
    {
        let mut slots: Vec<Slot<V>> = Vec::new();
        slots.push(Slot { state: SlotState::new_allocated(), value: SlotData::Allocated(first_value) });
        let mut count: usize = 1;
        while count < 256
            invariant
                1 <= count <= 256,
                slots@.len() == count,
                slots@[0].wf(),
                slots@[0].cell() == Some(
                    first_value.stored(0),
                ),
                forall|i: int| 0 < i < count ==> (#[trigger] slots@[i]).wf() && slots@[i].cell() is None,
                forall|i: int| 0 <= i < count ==> (#[trigger] slots@[i]).state@.generation == 0,
            decreases 256 - count,
        {
            slots.push(Slot::new());
            count = count + 1;
        }
        Slab { slots, last_allocated: 0 }
    }

    /// Stores `value` in the slot after the last allocated one, or hands it
    /// back if there is no such slot.
    pub fn try_adopt(&mut self, value: Rooted<V>, slab_index: u32) -> (result: Result<
        Adopted,
        Rooted<V>,
    >)
        requires
            old(self).wf(),
            slab_index < MAX_SLABS,
        ensures
            final(self).wf(),
            match result {
                Ok(adopted) => {
                    let index = old(self).last_allocated + 1;
                    &&& index < 256
                    &&& adopted.bin_id == crate::bin_id::bin_id(slab_index as int, index)
                    &&& adopted.bin_id.slab_index() == slab_index
                    &&& adopted.bin_id.slot_index() == index
                    &&& adopted.bin_id.raw >= 256
                    &&& adopted.generation == old(self).slots@[index].state.next_generation()
                    &&& adopted.slab_filled == (index == 255)
                    &&& final(self).last_allocated == index
                    &&& final(self).slots@[index].cell() == Some(
                        value.stored(adopted.generation),
                    )
                    &&& final(self).slots@ == old(self).slots@.update(
                        index,
                        final(self).slots@[index],
                    )
                },
                Err(returned) => {
                    &&& old(self).last_allocated == 255
                    &&& returned == value
                    &&& *final(self) == *old(self)
                },
            },
    {
        if self.last_allocated == 255 {
            return Err(value);
        }
        let slot_index: u8 = self.last_allocated + 1;
        self.last_allocated = slot_index;
        assert(self.slots@[slot_index as int].wf());
        let generation: u32 = self.slots[slot_index as usize].allocate(value);
        Ok(
            Adopted {
                generation,
                bin_id: BinId::new(slab_index, slot_index),
                slab_filled: slot_index == 255,
            },
        )
    }
}

/// The addresses belong to the same slab.
pub open spec fn same_slab(a: u32, b: u32) -> bool {
    a as int / 256 == b as int / 256
}

/// The generations after a value was stored at `raw`. If its slab is new, so are
/// the other slots of the slab.
pub open spec fn with_generation(
    generations: Map<u32, u32>,
    raw: u32,
    generation: u32,
) -> Map<u32, u32> {
    Map::new(
        |other: u32| generations.dom().contains(other) || same_slab(other, raw),
        |other: u32|
            if other == raw {
                generation
            } else if generations.dom().contains(other) {
                generations[other]
            } else {
                0
            },
    )
}

/// A growing list of slabs.
pub struct Slabs<V> {
    pub slabs: Vec<Slab<V>>,
    pub first_free_slab: usize,
}

impl<V> Slabs<V> {
    pub open spec fn wf(self) -> bool {
        &&& 1 <= self.slabs@.len() <= MAX_SLABS
        &&& self.first_free_slab < self.slabs@.len()
        &&& forall|i: int| 0 <= i < self.slabs@.len() ==> (#[trigger] self.slabs@[i]).wf()
    }

    /// There is a slot at the address.
    pub open spec fn has_slot(self, raw: u32) -> bool {
        &&& raw >= 256
        &&& BinId { raw }.slab_index() < self.slabs@.len()
    }

    /// The slot at the address.
    pub open spec fn slot(self, raw: u32) -> Slot<V> {
        self.slabs@[BinId { raw }.slab_index()].slots@[BinId { raw }.slot_index()]
    }

    /// The value at the address.
    pub open spec fn cell(self, raw: u32) -> Option<Cell<V>> {
        if self.has_slot(raw) {
            self.slot(raw).cell()
        } else {
            None
        }
    }

    /// All values with their addresses.
    pub open spec fn cells(self) -> Map<u32, Cell<V>> {
        Map::new(|raw: u32| self.cell(raw) is Some, |raw: u32| self.cell(raw).unwrap())
    }

    /// The generation of every slot: that of the value it holds or held last, or
    /// zero.
    pub open spec fn generations(self) -> Map<u32, u32> {
        Map::new(|raw: u32| self.has_slot(raw), |raw: u32| self.slot(raw).state@.generation)
    }

    /// The last allocated slot of each slab.
    pub open spec fn used(self) -> Seq<u8> {
        Seq::new(self.slabs@.len(), |i: int| self.slabs@[i].last_allocated)
    }

    /// No slab has a slot left beyond its last allocated one, and no slab can
    /// be added.
    pub open spec fn full(self) -> bool {
        &&& self.used().len() == MAX_SLABS
        &&& forall|i: int|
            self.first_free_slab <= i < self.used().len() ==> #[trigger] self.used()[i] == 255
    }

    /// The slot that is allocated next, if no freed slot is reused.
    pub open spec fn is_next_slot(self, raw: u32) -> bool {
        let slab = BinId { raw }.slab_index();
        let slot = BinId { raw }.slot_index();
        &&& raw >= 256
        &&& self.first_free_slab <= slab <= self.used().len()
        &&& forall|i: int| self.first_free_slab <= i < slab ==> #[trigger] self.used()[i] == 255
        &&& slab < self.used().len() ==> slot == self.used()[slab] + 1
        &&& slab == self.used().len() ==> slot == 0
    }

    /// The generation that the value stored at the address gets.
    pub open spec fn next_generation(self, raw: u32) -> u32 {
        if self.generations().dom().contains(raw) {
            generation_after(self.generations()[raw])
        } else {
            0
        }
    }

    /// Returns a list of one slab that holds `initial_value`.
    pub fn new(initial_value: Rooted<V>) -> (slabs: Self)
        ensures
            slabs.wf(),
            slabs.slabs@.len() == 1,
            slabs.first_free_slab == 0,
            slabs.used() == seq![0u8],
            slabs.generations() == with_generation(Map::empty(), 256, 0),
            slabs.cells() == map![256u32 => initial_value.stored(0)],
    {
        let mut slabs: Vec<Slab<V>> = Vec::new();
        slabs.push(Slab::new(initial_value));
        let result = Slabs { slabs, first_free_slab: 0 };
        proof {
            let cell = initial_value.stored(0);
            assert forall|raw: u32|
                result.cells().dom().contains(raw) <==> raw == 256 by {
                if result.has_slot(raw) {
                    assert(result.slabs@[0].slots@[BinId { raw }.slot_index()].wf());
                }
            }
            assert(result.cells() =~= map![256u32 => cell]);
            assert(result.used() =~= seq![0u8]);
            assert(result.generations() =~= with_generation(Map::empty(), 256, 0));
        }
        result
    }

    /// Returns the slab at `index`.
    pub fn get(&self, index: usize) -> (slab: Option<&Slab<V>>)
        ensures
            slab == (if index < self.slabs@.len() { Some(&self.slabs@[index as int]) } else { None }),
    {
        if index < self.slabs.len() {
            Some(&self.slabs[index])
        } else {
            None
        }
    }

    /// If only the slot at `raw` differs, only the value at `raw` does.
    pub proof fn lemma_slot_changed(self, before: Self, raw: u32)
        requires
            before.has_slot(raw),
            self.slabs@.len() == before.slabs@.len(),
            before.wf(),
            ({
                let slab = BinId { raw }.slab_index();
                let slot = BinId { raw }.slot_index();
                &&& forall|i: int|
                    0 <= i < self.slabs@.len() && i != slab ==> self.slabs@[i].slots@
                        == #[trigger] before.slabs@[i].slots@
                &&& self.slabs@[slab].slots@ == before.slabs@[slab].slots@.update(slot, self.slot(raw))
            }),
        ensures
            self.slot(raw).cell() is Some ==> self.cells() == before.cells().insert(
                raw,
                self.slot(raw).cell().unwrap(),
            ),
            self.slot(raw).cell() is None ==> self.cells() == before.cells().remove(raw),
            forall|other: u32| other != raw ==> #[trigger] self.cell(other) == before.cell(other),
            forall|other: u32|
                other != raw && self.has_slot(other) ==> #[trigger] self.slot(other) == before.slot(other),
            self.generations() == before.generations().insert(raw, self.slot(raw).state@.generation),
    {
        let slab = BinId { raw }.slab_index();
        let slot = BinId { raw }.slot_index();
        assert(before.slabs@[slab].wf());
        assert forall|other: u32| other != raw && self.has_slot(other) implies #[trigger] self.slot(other)
            == before.slot(other) by {
            let i = BinId { raw: other }.slab_index();
            let k = BinId { raw: other }.slot_index();
            assert(before.slabs@[i].wf());
            if i == slab {
                assert(k != slot);
            } else {
                assert(self.slabs@[i].slots@ == before.slabs@[i].slots@);
            }
        }
        assert forall|other: u32| other != raw implies #[trigger] self.cell(other) == before.cell(other) by {
            if self.has_slot(other) {
                assert(self.slot(other) == before.slot(other));
            }
        }
        assert(self.generations() =~= before.generations().insert(
            raw,
            self.slot(raw).state@.generation,
        ));
        if self.slot(raw).cell() is Some {
            assert(self.cells() =~= before.cells().insert(raw, self.slot(raw).cell().unwrap()));
        } else {
            assert(self.cells() =~= before.cells().remove(raw));
        }
    }

    /// Setting the generation of a slot adds no slots.
    pub proof fn lemma_generation_set(self, raw: u32, generation: u32)
        requires
            self.has_slot(raw),
        ensures
            with_generation(self.generations(), raw, generation) == self.generations().insert(
                raw,
                generation,
            ),
    {
        assert(with_generation(self.generations(), raw, generation) =~= self.generations().insert(
            raw,
            generation,
        ));
    }

    /// Lists with the same numbers of used slots are full together.
    pub proof fn lemma_full_kept(self, after: Self)
        requires
            after.slabs@.len() == self.slabs@.len(),
            after.first_free_slab == self.first_free_slab,
            forall|i: int|
                0 <= i < self.slabs@.len() ==> (#[trigger] after.slabs@[i]).last_allocated
                    == self.slabs@[i].last_allocated,
        ensures
            self.full() ==> after.full(),
    {
        assert(after.used() =~= self.used());
    }

    /// Returns true if there is no slot for another value.
    pub fn is_full(&self) -> (result: bool)
        requires
            self.wf(),
        ensures
            result == self.full(),
    {
        if self.slabs.len() != MAX_SLABS as usize {
            return false;
        }
        let mut index: usize = self.first_free_slab;
        while index < self.slabs.len()
            invariant
                self.wf(),
                self.slabs@.len() == MAX_SLABS,
                self.first_free_slab <= index <= self.slabs@.len(),
                forall|i: int|
                    self.first_free_slab <= i < index ==> (#[trigger] self.slabs@[i]).last_allocated
                        == 255,
            decreases self.slabs@.len() - index,
        {
            if self.slabs[index].last_allocated != 255 {
                assert(self.used()[index as int] != 255);
                return false;
            }
            index = index + 1;
        }
        true
    }

    /// Stores `value` in the first slab that has a slot left, adding a slab if
    /// there is none.
    pub fn adopt(&mut self, value: Rooted<V>) -> (adopted: Adopted)
        requires
            old(self).wf(),
            !old(self).full(),
        ensures
            final(self).wf(),
            old(self).is_next_slot(adopted.bin_id.raw),
            old(self).cell(adopted.bin_id.raw) is None,
            adopted.generation == old(self).next_generation(adopted.bin_id.raw),
            adopted.slab_filled == (adopted.bin_id.slot_index() == 255),
            final(self).cells() == old(self).cells().insert(
                adopted.bin_id.raw,
                value.stored(adopted.generation),
            ),
            final(self).generations() == with_generation(
                old(self).generations(),
                adopted.bin_id.raw,
                adopted.generation,
            ),
            final(self).used() == (if adopted.bin_id.slab_index() < old(self).slabs@.len() {
                old(self).used().update(
                    adopted.bin_id.slab_index(),
                    adopted.bin_id.slot_index() as u8,
                )
            } else {
                old(self).used().push(0)
            }),
            final(self).first_free_slab == (if adopted.bin_id.slab_index() < old(self).slabs@.len() {
                adopted.bin_id.slab_index()
            } else {
                old(self).first_free_slab as int
            }),
            old(self).slabs@.len() <= final(self).slabs@.len() <= old(self).slabs@.len() + 1,
            final(self).has_slot(adopted.bin_id.raw),
            forall|other: u32|
                other != adopted.bin_id.raw && old(self).has_slot(other) ==> final(self).has_slot(other)
                    && #[trigger] final(self).slot(other) == old(self).slot(other),
    {
        let first_free: usize = self.first_free_slab;
        let mut index: usize = first_free;
        let mut pending = value;
        let ghost before = *self;
        while index < self.slabs.len()
            invariant
                before == *old(self),
                before.wf(),
                self.slabs@ == before.slabs@,
                self.first_free_slab == first_free,
                first_free == before.first_free_slab,
                first_free <= index <= before.slabs@.len(),
                pending == value,
                forall|i: int|
                    first_free <= i < index ==> (#[trigger] before.slabs@[i]).last_allocated == 255,
            decreases before.slabs@.len() - index,
        {
            assert(self.slabs@[index as int].wf());
            match self.slabs[index].try_adopt(pending, index as u32) {
                Ok(adopted) => {
                    if first_free < index {
                        self.first_free_slab = index;
                    }
                    proof {
                        let raw = adopted.bin_id.raw;
                        assert(adopted.bin_id == (BinId { raw }));
                        assert(before.slabs@[index as int].wf());
                        self.lemma_slot_changed(before, raw);
                        before.lemma_generation_set(raw, adopted.generation);
                        assert(self.used() =~= before.used().update(
                            index as int,
                            adopted.bin_id.slot_index() as u8,
                        ));
                    }
                    return adopted;
                },
                Err(returned) => {
                    pending = returned;
                    assert(self.slabs@ =~= before.slabs@);
                    index = index + 1;
                },
            }
        }
        assert(self.slabs@.len() < MAX_SLABS);
        let slab_index: u32 = self.slabs.len() as u32;
        self.slabs.push(Slab::new(pending));
        let bin_id: BinId = BinId::new(slab_index, 0);
        proof {
            let raw = bin_id.raw;
            assert(bin_id == (BinId { raw }));
            assert forall|other: u32| other != raw implies #[trigger] self.cell(other) == before.cell(other) by {
                let i = BinId { raw: other }.slab_index();
                let k = BinId { raw: other }.slot_index();
                if self.has_slot(other) {
                    if i < before.slabs@.len() {
                        assert(self.slabs@[i] == before.slabs@[i]);
                    } else {
                        assert(i == slab_index);
                        assert(k > 0);
                    }
                }
            }
            assert(self.cells() =~= before.cells().insert(
                raw,
                value.stored(0),
            ));
            assert(self.used() =~= before.used().push(0));
            assert(self.generations() =~= with_generation(before.generations(), raw, 0)) by {
                assert forall|other: u32| self.has_slot(other) <==> before.has_slot(other)
                    || same_slab(other, raw) by {}
                assert forall|other: u32| self.has_slot(other) implies self.slot(
                    other,
                ).state@.generation == with_generation(before.generations(), raw, 0)[other] by {
                    let i = BinId { raw: other }.slab_index();
                    if i < before.slabs@.len() {
                        assert(self.slabs@[i] == before.slabs@[i]);
                    }
                }
            }
        }
        Adopted { generation: 0, bin_id, slab_filled: false }
    }
}

} // verus!
