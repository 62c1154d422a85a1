//! All values of one type in one pool.

use vstd::prelude::*;

use crate::any_ref::{AnyRef, CollectorThreadId, TypeIndex};
use crate::bin_id::{bin_id, BinId};
use crate::layout::{first_layout, is_last_slot, law_swept_layout, Layout};
use crate::slab::{with_generation, Adopted, Cell, Rooted, Slabs, SlotData};
use crate::slot_state::SlotSweepStatus;
use crate::trace::{lemma_extends_nothing, lemma_extends_one, lemma_extends_union, AnyValue, Tracer};

verus! {

/// The free slots of `slabs` form the chain `free` that starts at `head`.
pub open spec fn free_chain<V>(slabs: Slabs<V>, head: u32, free: Seq<u32>) -> bool {
    &&& head == chain_link(free, 0)
    &&& free.no_duplicates()
    &&& forall|i: int|
        0 <= i < free.len() ==> slabs.has_slot(#[trigger] free[i]) && slabs.slot(free[i]).value
            == SlotData::<V>::Free(chain_link(free, i + 1))
}

/// The address at position `i` of a chain, zero at its end.
pub open spec fn chain_link(free: Seq<u32>, i: int) -> u32 {
    if i < free.len() {
        free[i]
    } else {
        0
    }
}

/// The number of values marked with `mark_bits` at the first `count`
/// addresses.
pub open spec fn survivors<V>(cells: Map<u32, Cell<V>>, mark_bits: u8, count: nat) -> nat
    decreases count,
{
    if count == 0 {
        0
    } else {
        let raw = (count + 255) as u32;
        survivors(cells, mark_bits, (count - 1) as nat) + (if cells.dom().contains(raw)
            && cells[raw].mark == mark_bits {
            1nat
        } else {
            0nat
        })
    }
}

/// The values that carry `mark_bits`.
pub open spec fn marked_cells<V>(cells: Map<u32, Cell<V>>, mark_bits: u8) -> Map<u32, Cell<V>> {
    Map::new(
        |raw: u32| cells.dom().contains(raw) && cells[raw].mark == mark_bits,
        |raw: u32| cells[raw],
    )
}

proof fn lemma_survivors_gap<V>(cells: Map<u32, Cell<V>>, mark_bits: u8, from: nat, to: nat)
    requires
        from <= to,
        to + 255 <= u32::MAX,
        forall|raw: u32| from + 256 <= raw < to + 256 ==> !cells.dom().contains(raw),
    ensures
        survivors(cells, mark_bits, from) == survivors(cells, mark_bits, to),
    decreases to - from,
{
    if from < to {
        assert(!cells.dom().contains((to + 255) as u32));
        lemma_survivors_gap(cells, mark_bits, from, (to - 1) as nat);
    }
}

/// No value survives exactly if none is counted.
pub proof fn lemma_survivors_none<V>(cells: Map<u32, Cell<V>>, mark_bits: u8, count: nat)
    requires
        count + 255 <= u32::MAX,
        forall|raw: u32| cells.dom().contains(raw) ==> 256 <= raw < count + 256,
    ensures
        survivors(cells, mark_bits, count) == 0 <==> marked_cells(cells, mark_bits) == Map::<
            u32,
            Cell<V>,
        >::empty(),
{
    lemma_survivors_prefix_none(cells, mark_bits, count);
    let marked = marked_cells(cells, mark_bits);
    if survivors(cells, mark_bits, count) == 0 {
        assert(marked =~= Map::<u32, Cell<V>>::empty());
    }
    if marked == Map::<u32, Cell<V>>::empty() {
        assert forall|raw: u32| 256 <= raw < count + 256 implies !(cells.dom().contains(raw)
            && cells[raw].mark == mark_bits) by {
            assert(!marked.dom().contains(raw));
        }
    }
}

proof fn lemma_survivors_prefix_none<V>(cells: Map<u32, Cell<V>>, mark_bits: u8, count: nat)
    requires
        count + 255 <= u32::MAX,
    ensures
        survivors(cells, mark_bits, count) == 0 <==> (forall|raw: u32|
            256 <= raw < count + 256 ==> !(cells.dom().contains(raw) && #[trigger] cells[raw].mark
                == mark_bits)),
    decreases count,
{
    if count > 0 {
        lemma_survivors_prefix_none(cells, mark_bits, (count - 1) as nat);
        let last = (count + 255) as u32;
        if survivors(cells, mark_bits, count) == 0 {
            assert forall|raw: u32| 256 <= raw < count + 256 implies !(cells.dom().contains(raw)
                && #[trigger] cells[raw].mark == mark_bits) by {
                if raw != last {
                    assert(raw < (count - 1) + 256);
                }
            }
        } else {
            if survivors(cells, mark_bits, (count - 1) as nat) == 0 {
                assert(cells.dom().contains(last) && cells[last].mark == mark_bits);
            } else {
                let raw = choose|raw: u32|
                    256 <= raw < (count - 1) + 256 && cells.dom().contains(raw)
                        && #[trigger] cells[raw].mark == mark_bits;
                assert(256 <= raw < count + 256);
            }
        }
    }
}

/// The survivors are at most as many as the addresses.
pub proof fn lemma_survivors_bound<V>(cells: Map<u32, Cell<V>>, mark_bits: u8, count: nat)
    ensures
        survivors(cells, mark_bits, count) <= count,
    decreases count,
{
    if count > 0 {
        lemma_survivors_bound(cells, mark_bits, (count - 1) as nat);
    }
}

/// All values of one type in one pool.
pub struct Bin<V> {
    pub thread_id: CollectorThreadId,
    pub type_index: TypeIndex,
    pub free_head: u32,
    pub slabs: Slabs<V>,
    /// The addresses of the freed slots, the next one to be reused first.
    pub free: Ghost<Seq<u32>>,
}

impl<V> Bin<V> {
    pub open spec fn wf(self) -> bool {
        &&& self.slabs.wf()
        &&& free_chain(self.slabs, self.free_head, self.free@)
    }

    /// The value at the address.
    pub open spec fn cell(self, raw: u32) -> Option<Cell<V>> {
        self.slabs.cell(raw)
    }

    /// All values with their addresses.
    pub open spec fn cells(self) -> Map<u32, Cell<V>> {
        self.slabs.cells()
    }

    /// The number of slabs.
    pub open spec fn slab_count(self) -> nat {
        self.slabs.slabs@.len()
    }

    /// The generation of the value that the slot holds or held last.
    pub open spec fn generation(self, raw: u32) -> u32 {
        self.slabs.slot(raw).state@.generation
    }

    /// The generation of every slot.
    pub open spec fn generations(self) -> Map<u32, u32> {
        self.slabs.generations()
    }

    /// The last allocated slot of each slab.
    pub open spec fn used(self) -> Seq<u8> {
        self.slabs.used()
    }

    /// How the slots are used.
    pub open spec fn layout(self) -> Layout {
        Layout {
            free: self.free@,
            used: self.used(),
            first_free_slab: self.slabs.first_free_slab as int,
        }
    }

    /// The slots of `before` are of the same generation as there.
    spec fn same_generations(self, before: Self) -> bool {
        forall|raw: u32|
            before.slabs.has_slot(raw) ==> self.slabs.has_slot(raw) && #[trigger] self.generation(raw)
                == before.generation(raw)
    }

    /// The value in the slot carries `mark_bits`.
    spec fn survives(self, mark_bits: u8, slab: int, slot: int) -> bool {
        swept_cell(self.cell(bin_id(slab, slot).raw), mark_bits) is Some
    }

    /// `last` is the last of the used slots of the slab whose value carries
    /// `mark_bits`, or the first slot if there is none.
    spec fn is_last_survivor(self, mark_bits: u8, slab: int, last: u8) -> bool {
        &&& last <= self.used()[slab]
        &&& last > 0 ==> self.survives(mark_bits, slab, last as int)
        &&& forall|slot: int|
            last < slot <= self.used()[slab] ==> !(#[trigger] self.survives(mark_bits, slab, slot))
    }

    /// There is no slot for another value.
    pub open spec fn full(self) -> bool {
        &&& self.free@.len() == 0
        &&& self.slabs.full()
    }

    /// The slot that is allocated next: the slot freed last, or else the next
    /// slot that was never used.
    pub open spec fn is_next_slot(self, raw: u32) -> bool {
        if self.free@.len() > 0 {
            raw == self.free@[0]
        } else {
            self.slabs.is_next_slot(raw)
        }
    }

    /// The reference to the value at the address as seen by `thread`.
    pub open spec fn reference(self, thread: CollectorThreadId, raw: u32) -> AnyRef {
        AnyRef {
            bin_id: BinId { raw },
            creating_thread: thread,
            type_index: self.type_index,
            slot_generation: self.cells()[raw].generation,
        }
    }

    /// The references to the rooted values at the addresses from `start` up to
    /// `end`.
    pub open spec fn roots_between(self, thread: CollectorThreadId, start: int, end: int) -> Set<
        AnyRef,
    > {
        Set::new(
            |r: AnyRef|
                {
                    let raw = r.bin_id.raw;
                    &&& start <= raw < end
                    &&& self.cells().dom().contains(raw)
                    &&& self.cells()[raw].roots > 0
                    &&& r == self.reference(thread, raw)
                },
        )
    }

    /// The references to all rooted values.
    pub open spec fn roots(self, thread: CollectorThreadId) -> Set<AnyRef> {
        self.roots_between(thread, 0, u32::MAX + 1)
    }

    /// Returns a bin that holds `first_value` at the first address.
    pub fn new(first_value: Rooted<V>, type_index: TypeIndex, thread_id: CollectorThreadId) -> (bin:
        Self)
        ensures
            bin.wf(),
            bin.thread_id == thread_id,
            bin.type_index == type_index,
            bin.free@ == Seq::<u32>::empty(),
            bin.cells() == map![256u32 => first_value.stored(0)],
            bin.generations() == with_generation(Map::empty(), 256, 0),
            bin.slab_count() == 1,
            bin.layout() == first_layout(),
    {
        Bin {
            thread_id,
            type_index,
            free_head: 0,
            slabs: Slabs::new(first_value),
            free: Ghost(Seq::empty()),
        }
    }

    /// Returns true if there is no slot for another value.
    pub fn is_full(&self) -> (result: bool)
        requires
            self.wf(),
        ensures
            result == self.full(),
    {
        proof {
            if self.free@.len() > 0 {
                assert(self.slabs.has_slot(self.free@[0]));
            }
        }
        self.free_head == 0 && self.slabs.is_full()
    }

    /// Stores `value`, reusing the slot that was freed last if there is one.
    pub fn adopt(&mut self, value: Rooted<V>) -> (adopted: Adopted)
        requires
            old(self).wf(),
            !old(self).full(),
        ensures
            final(self).wf(),
            final(self).thread_id == old(self).thread_id,
            final(self).type_index == old(self).type_index,
            old(self).is_next_slot(adopted.bin_id.raw),
            old(self).cell(adopted.bin_id.raw) is None,
            adopted.bin_id.raw >= 256,
            adopted.generation == old(self).slabs.next_generation(adopted.bin_id.raw),
            adopted.slab_filled == (old(self).free@.len() == 0 && adopted.bin_id.slot_index() == 255),
            final(self).cells() == old(self).cells().insert(
                adopted.bin_id.raw,
                value.stored(adopted.generation),
            ),
            final(self).slab_count() <= old(self).slab_count() + 1,
            final(self).generations() == with_generation(
                old(self).generations(),
                adopted.bin_id.raw,
                adopted.generation,
            ),
            final(self).layout() == old(self).layout().adopted(adopted.bin_id.raw),
    {
        let ghost before = *self;
        let bin_id = BinId { raw: self.free_head };
        if bin_id.invalid() {
            assert(self.free@.len() == 0) by {
                if self.free@.len() > 0 {
                    assert(self.slabs.has_slot(self.free@[0]));
                }
            }
            let adopted = self.slabs.adopt(value);
            proof {
                assert(adopted.bin_id == (BinId { raw: adopted.bin_id.raw }));
                let slab = adopted.bin_id.slab_index();
                if slab < before.slab_count() {
                    assert(before.used()[slab] < adopted.bin_id.slot_index());
                }
                assert(self.layout() =~= before.layout().adopted(adopted.bin_id.raw));
            }
            return adopted;
        }
        assert(self.free@.len() > 0 && self.free@[0] == bin_id.raw);
        let slab_index: usize = bin_id.slab() as usize;
        let slot_index: u8 = bin_id.slot();
        assert(before.slabs.slabs@[slab_index as int].wf());
        assert(before.slabs.slot(bin_id.raw).wf());
        match self.slabs.slabs[slab_index].slots[slot_index as usize].try_allocate(value) {
            Ok((generation, next)) => {
                self.free_head = next;
                if self.slabs.slabs[slab_index].last_allocated < slot_index {
                    self.slabs.slabs[slab_index].last_allocated = slot_index;
                }
                proof {
                    let raw = bin_id.raw;
                    self.slabs.lemma_slot_changed(before.slabs, raw);
                    before.slabs.lemma_generation_set(raw, generation);
                    assert(self.used() =~= before.used().update(
                        slab_index as int,
                        self.slabs.slabs@[slab_index as int].last_allocated,
                    ));
                    let rest = before.free@.skip(1);
                    self.free@ = rest;
                    assert forall|i: int| 0 <= i < rest.len() implies self.slabs.has_slot(
                        #[trigger] rest[i],
                    ) && self.slabs.slot(rest[i]).value == SlotData::<V>::Free(
                        chain_link(rest, i + 1),
                    ) by {
                        assert(rest[i] == before.free@[i + 1]);
                        assert(rest[i] != raw);
                        assert(chain_link(rest, i + 1) == chain_link(before.free@, i + 2));
                    }
                    assert(bin_id == (BinId { raw }));
                    assert(self.layout() =~= before.layout().adopted(raw));
                }
                Adopted { generation, bin_id, slab_filled: false }
            },
            Err(returned) => {
                assert(false);
                self.slabs.adopt(returned)
            },
        }
    }

    /// Returns the value at the address, if it is of the given generation.
    pub fn load(&self, bin_id: BinId, slot_generation: u32) -> (value: Option<&Rooted<V>>)
        requires
            self.wf(),
        ensures
            match value {
                Some(rooted) => {
                    &&& self.cells().dom().contains(bin_id.raw)
                    &&& self.cells()[bin_id.raw].generation == slot_generation
                    &&& self.cells()[bin_id.raw].roots == rooted.roots
                    &&& self.cells()[bin_id.raw].value == *rooted.value
                },
                None => !(self.cells().dom().contains(bin_id.raw)
                    && self.cells()[bin_id.raw].generation == slot_generation),
            },
    {
        if bin_id.raw < 256 {
            return None;
        }
        let slab = match self.slabs.get(bin_id.slab() as usize) {
            Some(slab) => slab,
            None => return None,
        };
        assert(slab.wf());
        assert(slab.slots@[bin_id.slot_index()].wf());
        assert(bin_id == (BinId { raw: bin_id.raw }));
        let slot = &slab.slots[bin_id.slot() as usize];
        if slot.state.allocated_with_generation(slot_generation) {
            match &slot.value {
                SlotData::Allocated(rooted) => Some(rooted),
                SlotData::Free(_) => None,
            }
        } else {
            None
        }
    }

    /// Sets the number of roots of the value at the address.
    pub fn set_roots(&mut self, bin_id: BinId, roots: u64)
        requires
            old(self).wf(),
            old(self).cells().dom().contains(bin_id.raw),
        ensures
            final(self).wf(),
            final(self).thread_id == old(self).thread_id,
            final(self).type_index == old(self).type_index,
            final(self).layout() == old(self).layout(),
            final(self).full() == old(self).full(),
            final(self).slab_count() == old(self).slab_count(),
            final(self).generations() == old(self).generations(),
            final(self).cells() == old(self).cells().insert(
                bin_id.raw,
                Cell { roots, ..old(self).cells()[bin_id.raw] },
            ),
    {
        let ghost before = *self;
        let slab_index: usize = bin_id.slab() as usize;
        let slot_index: usize = bin_id.slot() as usize;
        assert(bin_id == (BinId { raw: bin_id.raw }));
        assert(before.slabs.slabs@[slab_index as int].wf());
        assert(before.slabs.slot(bin_id.raw).wf());
        match &mut self.slabs.slabs[slab_index].slots[slot_index].value {
            SlotData::Allocated(rooted) => {
                rooted.roots = roots;
            },
            SlotData::Free(_) => {},
        }
        proof {
            self.slabs.lemma_slot_changed(before.slabs, bin_id.raw);
            before.lemma_chain_kept(*self, bin_id.raw);
            assert(self.generations() =~= before.generations());
            assert(self.used() =~= before.used());
            before.slabs.lemma_full_kept(self.slabs);
            self.slabs.lemma_full_kept(before.slabs);
        }
    }

    /// Changing the value at an address leaves the chain of free slots alone.
    proof fn lemma_chain_kept(self, after: Self, raw: u32)
        requires
            self.wf(),
            self.cells().dom().contains(raw),
            after.free == self.free,
            after.free_head == self.free_head,
            after.slabs.slabs@.len() == self.slabs.slabs@.len(),
            forall|other: u32|
                other != raw && after.slabs.has_slot(other) ==> #[trigger] after.slabs.slot(other)
                    == self.slabs.slot(other),
        ensures
            free_chain(after.slabs, after.free_head, after.free@),
    {
        assert forall|i: int| 0 <= i < after.free@.len() implies after.slabs.has_slot(
            #[trigger] after.free@[i],
        ) && after.slabs.slot(after.free@[i]).value == SlotData::<V>::Free(
            chain_link(after.free@, i + 1),
        ) by {
            assert(self.slabs.has_slot(self.free@[i]));
            assert(self.cell(self.free@[i]) is None);
            assert(self.free@[i] != raw);
        }
    }
}

impl<V: AnyValue> Bin<V> {
    /// The reference to the value at the address, if it is rooted.
    spec fn root_at(self, thread: CollectorThreadId, raw: u32) -> Set<AnyRef> {
        if self.cells().dom().contains(raw) && self.cells()[raw].roots > 0 {
            set![self.reference(thread, raw)]
        } else {
            Set::empty()
        }
    }

    /// One more address adds its root.
    proof fn lemma_roots_next(self, thread: CollectorThreadId, start: int, raw: u32)
        requires
            start <= raw,
        ensures
            self.roots_between(thread, start, raw + 1) == self.roots_between(
                thread,
                start,
                raw as int,
            ).union(self.root_at(thread, raw)),
    {
        assert(self.roots_between(thread, start, raw + 1) =~= self.roots_between(
            thread,
            start,
            raw as int,
        ).union(self.root_at(thread, raw)));
    }

    /// Requests marking of every rooted value of one slab.
    #[verifier::spinoff_prover]
    fn trace_slab(&self, slab_index: usize, tracer: &mut Tracer)
        requires
            self.wf(),
            slab_index < self.slab_count(),
        ensures
            final(tracer).tracing_thread == old(tracer).tracing_thread,
            final(tracer).extends(
                old(tracer).requests@,
                self.roots_between(
                    old(tracer).tracing_thread,
                    (slab_index + 1) * 256,
                    (slab_index + 2) * 256,
                ),
            ),
    {
        let ghost before = tracer.requests@;
        let ghost thread = tracer.tracing_thread;
        let ghost start = (slab_index + 1) * 256;
        let slab = &self.slabs.slabs[slab_index];
        let mut slot_index: usize = 0;
        assert(slab.wf());
        proof {
            lemma_extends_nothing(*tracer);
            assert(self.roots_between(thread, start, start) =~= Set::<AnyRef>::empty());
        }
        while slot_index < 256
            invariant
                self.wf(),
                slab_index < self.slab_count(),
                start == (slab_index + 1) * 256,
                *slab == self.slabs.slabs@[slab_index as int],
                slab.wf(),
                slot_index <= 256,
                thread == old(tracer).tracing_thread,
                tracer.tracing_thread == thread,
                tracer.extends(before, self.roots_between(thread, start, start + slot_index)),
            decreases 256 - slot_index,
        {
            let ghost position = start + slot_index;
            let ghost middle = *tracer;
            let slot = &slab.slots[slot_index];
            assert(slot.wf());
            let bin_id: BinId = BinId::new(slab_index as u32, slot_index as u8);
            assert(bin_id.raw == position && bin_id == (BinId { raw: bin_id.raw }));
            assert(self.slabs.has_slot(bin_id.raw) && self.slabs.slot(bin_id.raw) == *slot);
            let ghost mut added = Set::<AnyRef>::empty();
            if let Some(slot_generation) = slot.state.generation() {
                let root_count: u64 = match &slot.value {
                    SlotData::Allocated(rooted) => rooted.roots,
                    SlotData::Free(_) => 0,
                };
                if root_count > 0 {
                    let root = AnyRef {
                        bin_id,
                        creating_thread: tracer.tracing_thread,
                        type_index: self.type_index,
                        slot_generation,
                    };
                    tracer.requests.push(root);
                    proof {
                        added = set![root];
                        lemma_extends_one(*tracer, middle.requests@, root);
                    }
                }
            }
            proof {
                if added == Set::<AnyRef>::empty() {
                    lemma_extends_nothing(*tracer);
                }
                lemma_extends_union(
                    *tracer,
                    before,
                    middle,
                    self.roots_between(thread, start, position),
                    added,
                );
                assert(added == self.root_at(thread, bin_id.raw));
                self.lemma_roots_next(thread, start, bin_id.raw);
            }
            slot_index = slot_index + 1;
        }
    }

    /// Requests marking of every rooted value.
    #[verifier::spinoff_prover]
    pub fn trace(&self, tracer: &mut Tracer)
        requires
            self.wf(),
        ensures
            final(tracer).tracing_thread == old(tracer).tracing_thread,
            final(tracer).extends(old(tracer).requests@, self.roots(old(tracer).tracing_thread)),
    {
        let ghost before = tracer.requests@;
        let ghost thread = tracer.tracing_thread;
        let mut slab_index: usize = 0;
        proof {
            lemma_extends_nothing(*tracer);
            self.lemma_roots_all(thread);
        }
        while slab_index < self.slabs.slabs.len()
            invariant
                self.wf(),
                slab_index <= self.slab_count(),
                thread == old(tracer).tracing_thread,
                tracer.tracing_thread == thread,
                tracer.extends(before, self.roots_between(thread, 0, (slab_index + 1) * 256)),
            decreases self.slab_count() - slab_index,
        {
            let ghost middle = *tracer;
            let ghost from = (slab_index + 1) * 256;
            self.trace_slab(slab_index, tracer);
            proof {
                let first = self.roots_between(thread, 0, from);
                let second = self.roots_between(thread, from, from + 256);
                lemma_extends_union(*tracer, before, middle, first, second);
                self.lemma_roots_joined(thread, from, from + 256);
            }
            slab_index = slab_index + 1;
        }
        proof {
            self.lemma_roots_all(thread);
        }
    }

    /// The roots of two adjacent ranges are the roots of both.
    proof fn lemma_roots_joined(self, thread: CollectorThreadId, middle: int, end: int)
        requires
            0 <= middle <= end,
        ensures
            self.roots_between(thread, 0, end) == self.roots_between(thread, 0, middle).union(
                self.roots_between(thread, middle, end),
            ),
    {
        assert(self.roots_between(thread, 0, end) =~= self.roots_between(thread, 0, middle).union(
            self.roots_between(thread, middle, end),
        ));
    }

    /// There are no roots below the first slab and beyond the last one.
    proof fn lemma_roots_all(self, thread: CollectorThreadId)
        ensures
            self.roots_between(thread, 0, 256) == Set::<AnyRef>::empty(),
            self.roots_between(thread, 0, (self.slab_count() + 1) * 256int) == self.roots(thread),
    {
        let end = (self.slab_count() + 1) * 256int;
        assert forall|raw: u32| self.cells().dom().contains(raw) implies 256 <= raw < end by {
            assert(self.slabs.has_slot(raw));
        }
        assert(self.roots_between(thread, 0, 256) =~= Set::<AnyRef>::empty());
        assert(self.roots(thread) =~= self.roots_between(thread, 0, end));
    }

    /// Traces the value at the address, if it is of the given generation.
    pub fn trace_one(&self, slot_generation: u32, bin: BinId, tracer: &mut Tracer)
        requires
            self.wf(),
        ensures
            final(tracer).tracing_thread == old(tracer).tracing_thread,
            final(tracer).extends(
                old(tracer).requests@,
                if self.cells().dom().contains(bin.raw) && self.cells()[bin.raw].generation
                    == slot_generation {
                    self.cells()[bin.raw].value.any_references()
                } else {
                    Set::empty()
                },
            ),
    {
        match self.load(bin, slot_generation) {
            Some(rooted) => {
                rooted.value.any_trace(tracer);
            },
            None => {
                proof {
                    lemma_extends_nothing(*tracer);
                }
            },
        }
    }

    /// Marks the value at the address, if it is of the given generation.
    /// Returns true if it has to be traced now.
    pub fn mark_one(&mut self, mark_bits: u8, slot_generation: u32, bin: BinId) -> (trace: bool)
        requires
            old(self).wf(),
        ensures
            final(self).wf(),
            final(self).thread_id == old(self).thread_id,
            final(self).type_index == old(self).type_index,
            final(self).layout() == old(self).layout(),
            final(self).full() == old(self).full(),
            final(self).slab_count() == old(self).slab_count(),
            final(self).generations() == old(self).generations(),
            ({
                let cells = old(self).cells();
                let marked = cells.dom().contains(bin.raw) && cells[bin.raw].generation
                    == slot_generation && cells[bin.raw].mark != mark_bits;
                &&& trace == (marked && cells[bin.raw].value.any_may_reference())
                &&& final(self).cells() == (if marked {
                    cells.insert(bin.raw, Cell { mark: mark_bits, ..cells[bin.raw] })
                } else {
                    cells
                })
            }),
    {
        if bin.raw < 256 {
            return false;
        }
        let slab_index: usize = bin.slab() as usize;
        if slab_index >= self.slabs.slabs.len() {
            return false;
        }
        let slot_index: usize = bin.slot() as usize;
        let ghost before = *self;
        assert(bin == (BinId { raw: bin.raw }));
        assert(before.slabs.slabs@[slab_index as int].wf());
        assert(before.slabs.slot(bin.raw).wf());
        let may_reference: bool = match &self.slabs.slabs[slab_index].slots[slot_index].value {
            SlotData::Allocated(rooted) => rooted.value.any_may_contain_references(),
            SlotData::Free(_) => false,
        };
        let marked: bool = self.slabs.slabs[slab_index].slots[slot_index].state.mark(
            mark_bits,
            slot_generation,
        );
        proof {
            self.slabs.lemma_slot_changed(before.slabs, bin.raw);
            assert(self.generations() =~= before.generations());
            assert(self.used() =~= before.used());
            before.slabs.lemma_full_kept(self.slabs);
            self.slabs.lemma_full_kept(before.slabs);
            if marked {
                before.lemma_chain_kept(*self, bin.raw);
            } else {
                assert(self.slabs.slot(bin.raw) == before.slabs.slot(bin.raw));
                assert(self.cells() =~= before.cells());
                assert forall|i: int| 0 <= i < self.free@.len() implies self.slabs.has_slot(
                    #[trigger] self.free@[i],
                ) && self.slabs.slot(self.free@[i]).value == SlotData::<V>::Free(
                    chain_link(self.free@, i + 1),
                ) by {
                    assert(before.slabs.has_slot(before.free@[i]));
                    assert(self.slabs.slot(self.free@[i]) == before.slabs.slot(before.free@[i]));
                }
            }
        }
        marked && may_reference
    }

    /// Drops every value that does not carry `mark_bits` and returns the number
    /// of values left.
    ///
    /// The freed slots are put in front of the free slots, so that the one
    /// with the highest address is reused first.
    pub fn sweep(&mut self, mark_bits: u8) -> (allocated: usize)
        requires
            old(self).wf(),
        ensures
            final(self).wf(),
            final(self).thread_id == old(self).thread_id,
            final(self).type_index == old(self).type_index,
            final(self).slab_count() == old(self).slab_count(),
            final(self).generations() == old(self).generations(),
            final(self).cells() == marked_cells(old(self).cells(), mark_bits),
            allocated == survivors(
                old(self).cells(),
                mark_bits,
                old(self).slab_count() * 256,
            ),
            final(self).layout() == old(self).layout().swept(
                old(self).cells().dom(),
                final(self).cells().dom(),
            ),
    {
        let ghost before = *self;
        let ghost cells = before.cells();
        let ghost mut freed: Seq<u32> = Seq::empty();
        let mut free_head: BinId = BinId { raw: self.free_head };
        let mut allocated: usize = 0;
        let mut slab_index: usize = 0;
        let count: usize = self.slabs.slabs.len();
        proof {
            reveal(settled);
            assert(before.free@ =~= freed + before.free@);
        }
        while slab_index < count
            invariant
                before == *old(self),
                before.wf(),
                self.slabs.wf(),
                cells == before.cells(),
                count == before.slabs.slabs@.len(),
                count == self.slabs.slabs@.len(),
                slab_index <= count,
                self.free == before.free,
                self.thread_id == before.thread_id,
                self.type_index == before.type_index,
                free_chain(self.slabs, free_head.raw, freed + before.free@),
                swept_below(before, *self, freed, mark_bits, (slab_index + 1) * 256),
                self.same_generations(before),
                self.slabs.first_free_slab == before.slabs.first_free_slab,
                settled(before, self.used(), mark_bits, slab_index as int),
                allocated == survivors(cells, mark_bits, (slab_index * 256) as nat),
            decreases count - slab_index,
        {
            let current_last: u8 = self.slabs.slabs[slab_index].last_allocated;
            let mut last_allocated: u8 = 0;
            let mut slot_index: usize = 0;
            let ghost used = self.used();
            while slot_index <= current_last as usize
                invariant
                    before.wf(),
                    self.slabs.wf(),
                    cells == before.cells(),
                    count == before.slabs.slabs@.len(),
                    count == self.slabs.slabs@.len(),
                    slab_index < count,
                    self.slabs.slabs@[slab_index as int].last_allocated == current_last,
                    self.free == before.free,
                    self.thread_id == before.thread_id,
                    self.type_index == before.type_index,
                    slot_index <= current_last + 1,
                    last_allocated <= current_last,
                    last_allocated > 0 ==> last_allocated < slot_index
                        && self.slabs.slabs@[slab_index as int].slots@[last_allocated as int].cell()
                        is Some,
                    self.slabs.first_free_slab == before.slabs.first_free_slab,
                    self.used() == used,
                    forall|k: int|
                        last_allocated < k < slot_index ==> (
                        #[trigger] self.slabs.slabs@[slab_index as int].slots@[k]).cell() is None,
                    free_chain(self.slabs, free_head.raw, freed + before.free@),
                    swept_below(
                        before,
                        *self,
                        freed,
                        mark_bits,
                        (slab_index + 1) * 256 + slot_index,
                    ),
                    self.same_generations(before),
                    allocated == survivors(
                        cells,
                        mark_bits,
                        (slab_index * 256 + slot_index) as nat,
                    ),
                decreases current_last + 1 - slot_index,
            {
                let ghost middle = *self;
                let ghost position = (slab_index + 1) * 256 + slot_index;
                let bin_id: BinId = BinId::new(slab_index as u32, slot_index as u8);
                let ghost raw = bin_id.raw;
                proof {
                    assert(raw == position && bin_id == (BinId { raw }));
                    assert(middle.slabs.slabs@[slab_index as int].wf());
                    assert(middle.slabs.slot(raw).wf());
                    assert(middle.cell(raw) == before.cell(raw));
                    lemma_survivors_bound(
                        cells,
                        mark_bits,
                        (slab_index * 256 + slot_index) as nat,
                    );
                    assert((slab_index * 256 + slot_index + 1 + 255) as u32 == raw);
                }
                let status = self.slabs.slabs[slab_index].slots[slot_index].sweep(
                    mark_bits,
                    free_head,
                );
                proof {
                    self.slabs.lemma_slot_changed(middle.slabs, raw);
                    assert(self.used() =~= used);
                    assert forall|other: u32| before.slabs.has_slot(other) implies self.slabs.has_slot(other)
                        && #[trigger] self.generation(other) == before.generation(other) by {
                        assert(middle.generation(other) == before.generation(other));
                        if other != raw {
                            assert(self.slabs.slot(other) == middle.slabs.slot(other));
                        }
                    }
                }
                match status {
                    SlotSweepStatus::Swept => {
                        proof {
                            lemma_freed(middle.slabs, self.slabs, free_head.raw, freed + before.free@, raw);
                            assert(seq![raw] + (freed + before.free@) =~= (seq![raw] + freed)
                                + before.free@);
                            lemma_swept_next(before, middle, *self, freed, mark_bits, raw);
                            freed = seq![raw] + freed;
                        }
                        free_head = bin_id;
                    },
                    SlotSweepStatus::Allocated => {
                        allocated = allocated + 1;
                        last_allocated = slot_index as u8;
                        proof {
                            lemma_unchanged(middle.slabs, self.slabs, free_head.raw, freed + before.free@, raw);
                            lemma_swept_next(before, middle, *self, freed, mark_bits, raw);
                        }
                    },
                    SlotSweepStatus::NotAllocated => {
                        proof {
                            lemma_unchanged(middle.slabs, self.slabs, free_head.raw, freed + before.free@, raw);
                            lemma_swept_next(before, middle, *self, freed, mark_bits, raw);
                        }
                    },
                }
                slot_index = slot_index + 1;
            }
            let ghost middle = *self;
            if last_allocated < current_last {
                self.slabs.slabs[slab_index].last_allocated = last_allocated;
            }
            proof {
                assert(middle.slabs.slabs@[slab_index as int].wf());
                assert forall|raw: u32| self.slabs.has_slot(raw) implies #[trigger] self.slabs.slot(raw)
                    == middle.slabs.slot(raw) by {}
                assert forall|raw: u32| #[trigger] self.cell(raw) == middle.cell(raw) by {
                    if self.slabs.has_slot(raw) {
                        assert(self.slabs.slot(raw) == middle.slabs.slot(raw));
                    }
                }
                assert forall|raw: u32| before.slabs.has_slot(raw) implies self.slabs.has_slot(raw)
                    && #[trigger] self.generation(raw) == before.generation(raw) by {
                    assert(middle.generation(raw) == before.generation(raw));
                    assert(self.slabs.slot(raw) == middle.slabs.slot(raw));
                }
                lemma_settled_used(before, used, mark_bits, slab_index as int);
                lemma_last_survivor(
                    before,
                    middle,
                    freed,
                    mark_bits,
                    slab_index as int,
                    last_allocated,
                );
                assert(self.used() =~= used.update(slab_index as int, last_allocated));
                lemma_settled_next(before, used, mark_bits, slab_index as int, last_allocated);
                let from = (slab_index * 256 + slot_index) as nat;
                let to = ((slab_index + 1) * 256) as nat;
                assert forall|raw: u32| from + 256 <= raw < to + 256 implies !cells.dom().contains(
                    raw,
                ) by {
                    assert(middle.cell(raw) == before.cell(raw));
                    assert(BinId { raw }.slab_index() == slab_index);
                    assert(middle.slabs.slabs@[slab_index as int].slots@[BinId { raw }.slot_index()].cell()
                        is None);
                }
                lemma_survivors_gap(cells, mark_bits, from, to);
                assert forall|raw: u32|
                    #![trigger self.cell(raw)]
                    raw < (slab_index + 2) * 256 implies self.cell(raw) == swept_cell(
                    before.cell(raw),
                    mark_bits,
                ) by {
                    assert(self.cell(raw) == middle.cell(raw));
                    if raw >= from + 256 {
                        assert(middle.cell(raw) == before.cell(raw));
                        assert(!cells.dom().contains(raw));
                    }
                }
                assert forall|raw: u32|
                    #![trigger freed.contains(raw)]
                    freed.contains(raw) <==> raw < (slab_index + 2) * 256 && cells.dom().contains(
                        raw,
                    ) && cells[raw].mark != mark_bits by {
                    if raw >= from + 256 && raw < to + 256 {
                        assert(!cells.dom().contains(raw));
                    }
                }
                let free = freed + before.free@;
                assert forall|i: int| 0 <= i < free.len() implies self.slabs.has_slot(
                    #[trigger] free[i],
                ) && self.slabs.slot(free[i]).value == SlotData::<V>::Free(
                    chain_link(free, i + 1),
                ) by {
                    assert(middle.slabs.has_slot(free[i]));
                    assert(self.slabs.slot(free[i]) == middle.slabs.slot(free[i]));
                }
            }
            slab_index = slab_index + 1;
        }
        let ghost swept = *self;
        self.free_head = free_head.raw;
        proof {
            let free = freed + before.free@;
            self.free@ = free;
            assert(free.skip(freed.len() as int) =~= before.free@);
            assert(free.take(freed.len() as int) =~= freed);
            assert forall|raw: u32| cells.dom().contains(raw) implies raw < (count + 1) * 256 by {
                assert(before.slabs.has_slot(raw));
            }
            assert forall|raw: u32| before.slabs.has_slot(raw) implies self.slabs.has_slot(raw)
                && #[trigger] self.generation(raw) == before.generation(raw) by {
                assert(swept.generation(raw) == before.generation(raw));
            }
            assert forall|raw: u32| #[trigger]
                self.slabs.cell(raw) == swept_cell(before.slabs.cell(raw), mark_bits) by {
                assert(self.cell(raw) == swept.cell(raw));
            }
            assert(self.cells() =~= marked_cells(cells, mark_bits));
            assert(self.generations() =~= before.generations()) by {
                assert forall|raw: u32| self.slabs.has_slot(raw) implies self.generations()[raw]
                    == before.generations()[raw] by {
                    assert(self.generation(raw) == before.generation(raw));
                }
            }
            assert(self.used() =~= swept.used());
            lemma_swept(before, *self, freed, mark_bits);
        }
        allocated
    }
}

/// What sweeping leaves of a value.
pub open spec fn swept_cell<V>(cell: Option<Cell<V>>, mark_bits: u8) -> Option<Cell<V>> {
    match cell {
        Some(c) => if c.mark == mark_bits {
            cell
        } else {
            None
        },
        None => None,
    }
}

/// The addresses below `end` are swept, the others untouched, and `freed`
/// lists the swept addresses in descending order.
spec fn swept_below<V>(before: Bin<V>, now: Bin<V>, freed: Seq<u32>, mark_bits: u8, end: int) -> bool {
    &&& forall|raw: u32| #[trigger]
        now.cell(raw) == (if raw < end {
            swept_cell(before.cell(raw), mark_bits)
        } else {
            before.cell(raw)
        })
    &&& forall|i: int, j: int| 0 <= i < j < freed.len() ==> freed[i] > freed[j]
    &&& forall|raw: u32| #[trigger]
        freed.contains(raw) <==> raw < end && before.cells().dom().contains(raw)
            && before.cells()[raw].mark != mark_bits
}

/// The last allocated slots of the first `count` slabs are those of the survivors,
/// and those of the other slabs are as before.
#[verifier::opaque]
spec fn settled<V>(before: Bin<V>, used: Seq<u8>, mark_bits: u8, count: int) -> bool {
    &&& used.len() == before.used().len()
    &&& forall|j: int|
        0 <= j < count ==> before.is_last_survivor(mark_bits, j, #[trigger] used[j])
    &&& forall|j: int| count <= j < used.len() ==> #[trigger] used[j] == before.used()[j]
}

/// A swept bin has the layout after the sweep.
proof fn lemma_swept<V>(before: Bin<V>, after: Bin<V>, freed: Seq<u32>, mark_bits: u8)
    requires
        settled(before, after.used(), mark_bits, before.slabs.slabs@.len() as int),
        after.free@ == freed + before.free@,
        after.slabs.first_free_slab == before.slabs.first_free_slab,
        after.cells() == marked_cells(before.cells(), mark_bits),
        forall|i: int, j: int| 0 <= i < j < freed.len() ==> freed[i] > freed[j],
        forall|raw: u32| #[trigger]
            freed.contains(raw) <==> before.cells().dom().contains(raw)
                && before.cells()[raw].mark != mark_bits,
    ensures
        after.layout() == before.layout().swept(before.cells().dom(), after.cells().dom()),
{
    reveal(settled);
    let held = before.cells().dom();
    let kept = after.cells().dom();
    let added = freed.len() as int;
    assert(after.free@.skip(added) =~= before.free@);
    assert(after.free@.take(added) =~= freed);
    assert forall|slab: int| 0 <= slab < after.used().len() implies is_last_slot(
        kept,
        slab,
        before.used()[slab],
        #[trigger] after.used()[slab],
    ) by {
        let last = after.used()[slab];
        assert(before.is_last_survivor(mark_bits, slab, last));
        assert forall|slot: int| last < slot <= before.used()[slab] implies !kept.contains(
            #[trigger] bin_id(slab, slot).raw,
        ) by {
            assert(!before.survives(mark_bits, slab, slot));
        }
    }
    assert(after.layout().is_swept(before.layout(), held, kept));
    law_swept_layout(before.layout(), after.layout(), held, kept);
}

/// The last allocated slot of the next slab is as before.
proof fn lemma_settled_used<V>(before: Bin<V>, used: Seq<u8>, mark_bits: u8, slab: int)
    requires
        settled(before, used, mark_bits, slab),
        0 <= slab < before.slabs.slabs@.len(),
    ensures
        used.len() == before.slabs.slabs@.len(),
        used[slab] == before.slabs.slabs@[slab].last_allocated,
{
    reveal(settled);
}

/// One more slab is settled.
proof fn lemma_settled_next<V>(
    before: Bin<V>,
    used: Seq<u8>,
    mark_bits: u8,
    slab: int,
    last: u8,
)
    requires
        settled(before, used, mark_bits, slab),
        0 <= slab < before.slabs.slabs@.len(),
        before.is_last_survivor(mark_bits, slab, last),
    ensures
        settled(before, used.update(slab, last), mark_bits, slab + 1),
{
    reveal(settled);
}

/// The last slot that was seen to hold a value is the last survivor of its slab.
proof fn lemma_last_survivor<V>(
    before: Bin<V>,
    now: Bin<V>,
    freed: Seq<u32>,
    mark_bits: u8,
    slab: int,
    last: u8,
)
    requires
        now.slabs.wf(),
        now.slabs.slabs@.len() == before.slabs.slabs@.len(),
        0 <= slab < before.slabs.slabs@.len(),
        last <= before.slabs.slabs@[slab].last_allocated,
        swept_below(
            before,
            now,
            freed,
            mark_bits,
            (slab + 1) * 256 + before.slabs.slabs@[slab].last_allocated + 1,
        ),
        last > 0 ==> now.slabs.slabs@[slab].slots@[last as int].cell() is Some,
        forall|k: int|
            last < k <= before.slabs.slabs@[slab].last_allocated ==> (
            #[trigger] now.slabs.slabs@[slab].slots@[k]).cell() is None,
    ensures
        before.is_last_survivor(mark_bits, slab, last),
{
    let used = before.slabs.slabs@[slab].last_allocated;
    assert(before.used()[slab] == used);
    assert forall|slot: int| 0 <= slot <= used implies (#[trigger] before.survives(mark_bits, slab, slot))
        == (now.slabs.slabs@[slab].slots@[slot].cell() is Some) by {
        let id = bin_id(slab, slot);
        assert(id.raw == (slab + 1) * 256 + slot);
        assert(id.slab_index() == slab && id.slot_index() == slot);
        assert(id == (BinId { raw: id.raw }));
        assert(now.cell(id.raw) == swept_cell(before.cell(id.raw), mark_bits));
    }
}

/// Sweeping the next address extends the swept range.
proof fn lemma_swept_next<V>(
    before: Bin<V>,
    middle: Bin<V>,
    now: Bin<V>,
    freed: Seq<u32>,
    mark_bits: u8,
    raw: u32,
)
    requires
        swept_below(before, middle, freed, mark_bits, raw as int),
        now.cell(raw) == swept_cell(before.cell(raw), mark_bits),
        forall|other: u32| other != raw ==> #[trigger] now.cell(other) == middle.cell(other),
    ensures
        swept_below(
            before,
            now,
            if before.cell(raw) is Some && now.cell(raw) is None {
                seq![raw] + freed
            } else {
                freed
            },
            mark_bits,
            raw + 1,
        ),
{
    assert forall|other: u32| #[trigger]
        now.cell(other) == (if other < raw + 1 {
            swept_cell(before.cell(other), mark_bits)
        } else {
            before.cell(other)
        }) by {
        if other != raw {
            assert(now.cell(other) == middle.cell(other));
        }
    }
    if before.cell(raw) is Some && now.cell(raw) is None {
        let next = seq![raw] + freed;
        assert forall|i: int, j: int| 0 <= i < j < next.len() implies next[i] > next[j] by {
            assert(next[j] == freed[j - 1]);
            assert(freed.contains(freed[j - 1]));
            if i > 0 {
                assert(next[i] == freed[i - 1]);
            }
        }
        assert forall|other: u32| #[trigger]
            next.contains(other) <==> other < raw + 1 && before.cells().dom().contains(other)
                && before.cells()[other].mark != mark_bits by {
            if next.contains(other) {
                let i = choose|i: int| 0 <= i < next.len() && next[i] == other;
                if i > 0 {
                    assert(freed[i - 1] == other);
                    assert(freed.contains(other));
                }
            }
            if freed.contains(other) {
                let i = choose|i: int| 0 <= i < freed.len() && freed[i] == other;
                assert(next[i + 1] == other);
            }
            if other == raw {
                assert(next[0] == other);
            }
        }
    }
}

/// A slot freed in front of a chain extends the chain.
proof fn lemma_freed<V>(before: Slabs<V>, after: Slabs<V>, head: u32, free: Seq<u32>, raw: u32)
    requires
        free_chain(before, head, free),
        before.has_slot(raw),
        before.slot(raw).cell() is Some,
        after.slabs@.len() == before.slabs@.len(),
        after.slot(raw).value == SlotData::<V>::Free(head),
        forall|other: u32|
            other != raw && after.has_slot(other) ==> #[trigger] after.slot(other) == before.slot(
                other,
            ),
    ensures
        free_chain(after, raw, seq![raw] + free),
{
    let next = seq![raw] + free;
    assert forall|i: int| 0 <= i < free.len() implies #[trigger] free[i] != raw by {
        assert(before.slot(free[i]).cell() is None);
    }
    assert forall|i: int| 0 <= i < next.len() implies after.has_slot(#[trigger] next[i])
        && after.slot(next[i]).value == SlotData::<V>::Free(chain_link(next, i + 1)) by {
        if i > 0 {
            assert(next[i] == free[i - 1]);
            assert(before.has_slot(free[i - 1]));
            assert(after.slot(free[i - 1]) == before.slot(free[i - 1]));
            assert(chain_link(next, i + 1) == chain_link(free, i));
        } else {
            assert(chain_link(next, 1) == chain_link(free, 0));
        }
    }
    assert forall|i: int, j: int| 0 <= i < next.len() && 0 <= j < next.len() && i != j implies next[i]
        != next[j] by {
        if i > 0 {
            assert(next[i] == free[i - 1]);
        }
        if j > 0 {
            assert(next[j] == free[j - 1]);
        }
    }
}

/// Unchanged slots keep their chain.
proof fn lemma_unchanged<V>(before: Slabs<V>, after: Slabs<V>, head: u32, free: Seq<u32>, raw: u32)
    requires
        free_chain(before, head, free),
        after.slabs@.len() == before.slabs@.len(),
        after.slot(raw) == before.slot(raw),
        forall|other: u32|
            other != raw && after.has_slot(other) ==> #[trigger] after.slot(other) == before.slot(
                other,
            ),
    ensures
        free_chain(after, head, free),
{
    assert forall|i: int| 0 <= i < free.len() implies after.has_slot(#[trigger] free[i]) && after.slot(
        free[i],
    ).value == SlotData::<V>::Free(chain_link(free, i + 1)) by {
        assert(before.has_slot(free[i]));
        assert(after.slot(free[i]) == before.slot(free[i]));
    }
}

} // verus!
