//! The packed state word of one slot.

use vstd::prelude::*;

verus! {

/// What sweeping a slot did to it.
#[derive(Clone, Copy, PartialEq, Eq, Structural, Debug)]
pub enum SlotSweepStatus {
    Allocated,
    NotAllocated,
    Swept,
}

/// The three things that a slot's state word keeps track of.
pub ghost struct SlotStateView {
    /// Whether the slot holds a value.
    pub allocated: bool,
    /// The generation of the current value, or of the last one.
    pub generation: u32,
    /// The marking bits of the last collection that reached the value.
    pub mark: u8,
}

/// The state of a slot: a generation in the low 32 bits, the allocated flag,
/// and the marking bits above it.
pub struct SlotState {
    pub bits: u64,
}

/// The flag of an allocated slot.
pub const ALLOCATED: u64 = 0x2_0000_0000;

/// The position of the marking bits.
pub const MARK_OFFSET: u32 = 34;

impl View for SlotState {
    type V = SlotStateView;

    open spec fn view(&self) -> SlotStateView {
        SlotStateView {
            allocated: self.bits & ALLOCATED != 0,
            generation: (self.bits & 0xFFFF_FFFF) as u32,
            mark: (self.bits >> 34) as u8,
        }
    }
}

proof fn lemma_allocated_word(generation: u32)
    ensures
        ({
            let word = ALLOCATED | (generation as u64);
            &&& word & ALLOCATED != 0
            &&& (word & 0xFFFF_FFFF) as u32 == generation
            &&& (word >> 34) as u8 == 0
            &&& word >> 42 == 0
            &&& word & 0x1_0000_0000 == 0
        }),
{
    let g = generation as u64;
    assert(g <= 0xFFFF_FFFF ==> {
        &&& (0x2_0000_0000u64 | g) & 0x2_0000_0000 != 0
        &&& (0x2_0000_0000u64 | g) & 0xFFFF_FFFF == g
        &&& ((0x2_0000_0000u64 | g) >> 34) == 0
        &&& ((0x2_0000_0000u64 | g) >> 42) == 0
        &&& (0x2_0000_0000u64 | g) & 0x1_0000_0000 == 0
    }) by (bit_vector);
}

/// The generation after the given one.
pub open spec fn generation_after(generation: u32) -> u32 {
    if generation == u32::MAX {
        0
    } else {
        (generation + 1) as u32
    }
}

impl SlotState {
    /// No bit is set outside the three fields.
    pub open spec fn wf(self) -> bool {
        &&& self.bits >> 42 == 0
        &&& self.bits & 0x1_0000_0000 == 0
    }

    /// The generation that the next allocation of this slot gets.
    pub open spec fn next_generation(self) -> u32 {
        generation_after(self@.generation)
    }

    /// The state of a slot that was never allocated.
    pub fn new() -> (state: Self)
        ensures
            state.wf(),
            state@ == (SlotStateView { allocated: false, generation: 0, mark: 0 }),
    {
        assert(0u64 >> 42 == 0 && 0u64 & 0x1_0000_0000 == 0 && 0u64 & 0x2_0000_0000 == 0
            && 0u64 & 0xFFFF_FFFF == 0 && 0u64 >> 34 == 0) by (bit_vector);
        SlotState { bits: 0 }
    }

    /// The state of the first slot of a new slab.
    pub fn new_allocated() -> (state: Self)
        ensures
            state.wf(),
            state@ == (SlotStateView { allocated: true, generation: 0, mark: 0 }),
    {
        proof {
            lemma_allocated_word(0);
            assert(0x2_0000_0000u64 | 0 == 0x2_0000_0000) by (bit_vector);
        }
        SlotState { bits: ALLOCATED }
    }

    /// Returns the generation of the value, if there is one.
    pub fn generation(&self) -> (generation: Option<u32>)
        ensures
            generation == (if self@.allocated { Some(self@.generation) } else { None }),
    {
        let state = self.bits;
        assert(state as u32 == (state & 0xFFFF_FFFF) as u32) by (bit_vector);
        if state & ALLOCATED != 0 {
            Some(state as u32)
        } else {
            None
        }
    }

    /// Returns true if the slot holds a value of the given generation.
    pub fn allocated_with_generation(&self, generation: u32) -> (result: bool)
        ensures
            result == (self@.allocated && self@.generation == generation),
    {
        let state = self.bits;
        assert(state as u32 == (state & 0xFFFF_FFFF) as u32) by (bit_vector);
        state & ALLOCATED != 0 && state as u32 == generation
    }

    /// Allocates the slot under its next generation, unless it is allocated.
    pub fn try_allocate(&mut self) -> (generation: Option<u32>)
        requires
            old(self).wf(),
        ensures
            final(self).wf(),
            old(self)@.allocated ==> generation is None && *final(self) == *old(self),
            !old(self)@.allocated ==> {
                &&& generation == Some(old(self).next_generation())
                &&& final(self)@ == (SlotStateView {
                    allocated: true,
                    generation: old(self).next_generation(),
                    mark: 0,
                })
            },
    {
        if self.bits & ALLOCATED != 0 {
            return None;
        }
        Some(self.allocate())
    }

    /// Allocates a free slot under its next generation.
    pub fn allocate(&mut self) -> (generation: u32)
        requires
            old(self).wf(),
            !old(self)@.allocated,
        ensures
            final(self).wf(),
            generation == old(self).next_generation(),
            final(self)@ == (SlotStateView {
                allocated: true,
                generation: old(self).next_generation(),
                mark: 0,
            }),
    {
        let state = self.bits;
        assert(state as u32 == (state & 0xFFFF_FFFF) as u32) by (bit_vector);
        let generation: u32 = (state as u32).wrapping_add(1);
        proof {
            lemma_allocated_word(generation);
        }
        self.bits = ALLOCATED | (generation as u64);
        generation
    }

    /// Marks the value of the given generation with `mark_bits`. Returns true
    /// if the value is there and did not carry these bits before.
    pub fn mark(&mut self, mark_bits: u8, slot_generation: u32) -> (marked: bool)
        requires
            old(self).wf(),
        ensures
            final(self).wf(),
            marked == (old(self)@.allocated && old(self)@.generation == slot_generation
                && old(self)@.mark != mark_bits),
            marked ==> final(self)@ == (SlotStateView { mark: mark_bits, ..old(self)@ }),
            !marked ==> *final(self) == *old(self),
    {
        let mut state: u64 = self.bits;
        assert(state as u32 == (state & 0xFFFF_FFFF) as u32) by (bit_vector);
        if state & ALLOCATED == 0 || state as u32 != slot_generation {
            return false;
        }
        let bits: u64 = mark_bits as u64;
        let current_mark: u64 = state >> MARK_OFFSET;
        assert(state >> 42 == 0 ==> state >> 34 <= 0xFF) by (bit_vector);
        if current_mark == bits {
            return false;
        }
        let cleared: u64 = state & !(0xFFu64 << MARK_OFFSET);
        let placed: u64 = bits << MARK_OFFSET;
        assert(bits <= 0xFF && state >> 42 == 0 && state & 0x1_0000_0000 == 0 ==> {
            let next = (state & !(0xFFu64 << 34)) | (bits << 34);
            &&& next & 0x2_0000_0000 == state & 0x2_0000_0000
            &&& next & 0xFFFF_FFFF == state & 0xFFFF_FFFF
            &&& next >> 34 == bits
            &&& next >> 42 == 0
            &&& next & 0x1_0000_0000 == 0
        }) by (bit_vector);
        state = cleared | placed;
        self.bits = state;
        true
    }

    /// Frees the slot unless its value carries `mark_bits`. The generation
    /// stays, so that references to the freed value remain detectable.
    pub fn sweep(&mut self, mark_bits: u8) -> (status: SlotSweepStatus)
        requires
            old(self).wf(),
        ensures
            final(self).wf(),
            status == (if !old(self)@.allocated {
                SlotSweepStatus::NotAllocated
            } else if old(self)@.mark == mark_bits {
                SlotSweepStatus::Allocated
            } else {
                SlotSweepStatus::Swept
            }),
            status is Swept ==> final(self)@ == (SlotStateView {
                allocated: false,
                generation: old(self)@.generation,
                mark: 0,
            }),
            !(status is Swept) ==> *final(self) == *old(self),
    {
        let bits: u64 = mark_bits as u64;
        let state: u64 = self.bits;
        let current_mark: u64 = state >> MARK_OFFSET;
        assert(state >> 42 == 0 ==> state >> 34 <= 0xFF) by (bit_vector);
        if state & ALLOCATED == 0 {
            return SlotSweepStatus::NotAllocated;
        } else if current_mark == bits {
            return SlotSweepStatus::Allocated;
        }
        let generation: u32 = state as u32;
        let word: u64 = generation as u64;
        assert(state as u32 == (state & 0xFFFF_FFFF) as u32) by (bit_vector);
        assert(word <= 0xFFFF_FFFF ==> {
            &&& word & 0x2_0000_0000 == 0
            &&& word & 0xFFFF_FFFF == word
            &&& word >> 34 == 0
            &&& word >> 42 == 0
            &&& word & 0x1_0000_0000 == 0
        }) by (bit_vector);
        self.bits = word;
        SlotSweepStatus::Swept
    }
}

} // verus!
