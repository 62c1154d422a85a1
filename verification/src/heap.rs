//! The values of all pools.

use vstd::prelude::*;
use vstd::set_lib::set_int_range;

use crate::any_ref::{Addr, AnyRef, CollectorThreadId, TypeIndex};
use crate::bin_id::MAX_SLABS;
use crate::bins::{addresses_in, layout_adopted, place_of, Bins, Place};
use crate::keyed_store::KeyedStore;
use crate::layout::Layout;
use crate::slab::{same_slab, Adopted, Cell, Rooted};
use crate::slot_state::generation_after;
use crate::trace::{lemma_extends_nothing, AnyValue, Tracer};

verus! {

/// The values of a pool and the number of handles to it.
pub struct Pool<V> {
    pub bins: Bins<V>,
    pub handles: u64,
}

/// The pools of a collector.
pub struct Heap<V> {
    pub pools: KeyedStore<Pool<V>>,
}

impl Addr {
    /// This place inside its pool.
    pub open spec fn place(self) -> Place {
        Place { type_index: self.type_index, raw: self.raw }
    }
}

/// The generations after a value was stored at `addr`. If its slab is new, so are
/// the other slots of the slab.
pub open spec fn with_generation(
    generations: Map<Addr, u32>,
    addr: Addr,
    generation: u32,
) -> Map<Addr, u32> {
    Map::new(
        |other: Addr|
            generations.dom().contains(other) || (other.thread == addr.thread && other.type_index
                == addr.type_index && same_slab(other.raw, addr.raw)),
        |other: Addr|
            if other == addr {
                generation
            } else if generations.dom().contains(other) {
                generations[other]
            } else {
                0
            },
    )
}

/// The generation that a value stored at `addr` gets.
pub open spec fn next_generation(generations: Map<Addr, u32>, addr: Addr) -> u32 {
    if generations.dom().contains(addr) {
        generation_after(generations[addr])
    } else {
        0
    }
}

/// The values of one type in one pool.
pub ghost struct BinAddr {
    pub thread: u32,
    pub type_index: u32,
}

/// The addresses of the bin among the addresses.
pub open spec fn addresses_of(addresses: Set<Addr>, bin: BinAddr) -> Set<u32> {
    Set::new(
        |raw: u32|
            addresses.contains(Addr { thread: bin.thread, type_index: bin.type_index, raw }),
    )
}

/// The layouts after a sweep that left the values at `kept` of those at `held`.
pub open spec fn swept_layouts(
    layouts: Map<BinAddr, Layout>,
    held: Set<Addr>,
    kept: Set<Addr>,
) -> Map<BinAddr, Layout> {
    Map::new(
        |bin: BinAddr| layouts.dom().contains(bin),
        |bin: BinAddr| layouts[bin].swept(addresses_of(held, bin), addresses_of(kept, bin)),
    )
}

/// The layouts after a value was stored at `addr`.
pub open spec fn with_adopted(layouts: Map<BinAddr, Layout>, addr: Addr) -> Map<BinAddr, Layout> {
    let bin = BinAddr { thread: addr.thread, type_index: addr.type_index };
    layouts.insert(
        bin,
        layout_adopted(
            if layouts.dom().contains(bin) {
                Some(layouts[bin])
            } else {
                None
            },
            addr.raw,
        ),
    )
}

/// Every value is in a slot of its generation.
pub open spec fn generations_ok<V>(
    cells: Map<Addr, Cell<V>>,
    generations: Map<Addr, u32>,
) -> bool {
    forall|addr: Addr| #[trigger]
        cells.dom().contains(addr) ==> generations.dom().contains(addr) && generations[addr]
            == cells[addr].generation
}

impl<V> Heap<V> {
    pub open spec fn wf(self) -> bool {
        &&& self.pools.wf()
        &&& forall|key: u64| #[trigger]
            self.pools@.dom().contains(key) ==> {
                &&& key <= u32::MAX
                &&& self.pools@[key].bins.wf()
                &&& self.pools@[key].bins.owned_by(CollectorThreadId { id: key as u32 })
            }
    }

    /// The number of handles to each pool.
    pub open spec fn handles(self) -> Map<u64, u64> {
        Map::new(
            |key: u64| self.pools@.dom().contains(key),
            |key: u64| self.pools@[key].handles,
        )
    }

    /// The values of the pool.
    pub open spec fn bins(self, thread: CollectorThreadId) -> Bins<V> {
        self.pools@[thread.id as u64].bins
    }

    /// There is a value at the address.
    pub open spec fn has_cell(self, addr: Addr) -> bool {
        &&& self.pools@.dom().contains(addr.thread as u64)
        &&& self.pools@[addr.thread as u64].bins.cells().dom().contains(addr.place())
    }

    /// All values with their addresses.
    pub open spec fn cells(self) -> Map<Addr, Cell<V>> {
        Map::new(
            |addr: Addr| self.has_cell(addr),
            |addr: Addr| self.pools@[addr.thread as u64].bins.cells()[addr.place()],
        )
    }

    /// There is a slot at the address.
    pub open spec fn has_slot(self, addr: Addr) -> bool {
        &&& self.pools@.dom().contains(addr.thread as u64)
        &&& self.pools@[addr.thread as u64].bins.generations().dom().contains(addr.place())
    }

    /// The generation of every slot: that of the value it holds or held last, or
    /// zero.
    pub open spec fn generations(self) -> Map<Addr, u32> {
        Map::new(
            |addr: Addr| self.has_slot(addr),
            |addr: Addr| self.pools@[addr.thread as u64].bins.generations()[addr.place()],
        )
    }

    /// How the slots of every bin are used.
    pub open spec fn layouts(self) -> Map<BinAddr, Layout> {
        Map::new(
            |bin: BinAddr|
                self.pools@.dom().contains(bin.thread as u64)
                    && self.pools@[bin.thread as u64].bins.layouts().dom().contains(bin.type_index),
            |bin: BinAddr| self.pools@[bin.thread as u64].bins.layouts()[bin.type_index],
        )
    }

    /// The reference names a value.
    pub open spec fn names(self, any: AnyRef) -> bool {
        names(self.cells(), any)
    }

    /// The number of slabs for values of the type in the pool.
    pub open spec fn slab_count(self, thread: u32, type_index: u32) -> nat {
        if self.pools@.dom().contains(thread as u64) {
            self.pools@[thread as u64].bins.slab_count(type_index)
        } else {
            0
        }
    }

    /// The pools have as many slabs as those of `other`.
    pub open spec fn same_slabs(self, other: Self) -> bool {
        forall|thread: u32, type_index: u32| #[trigger]
            self.slab_count(thread, type_index) == other.slab_count(thread, type_index)
    }

    /// The pools have no more slabs than those of `other`.
    pub open spec fn no_more_slabs(self, other: Self) -> bool {
        forall|thread: u32, type_index: u32| #[trigger]
            self.slab_count(thread, type_index) <= other.slab_count(thread, type_index)
    }

    /// The slots say how many slabs there are.
    pub proof fn lemma_slab_count(self, thread: u32, type_index: u32, slabs: u32)
        requires
            self.wf(),
            0 < slabs <= MAX_SLABS,
        ensures
            self.slab_count(thread, type_index) >= slabs <==> self.generations().dom().contains(
                Addr { thread, type_index, raw: (slabs * 256) as u32 },
            ),
            self.slab_count(thread, type_index) <= MAX_SLABS,
    {
        let addr = Addr { thread, type_index, raw: (slabs * 256) as u32 };
        if self.pools@.dom().contains(thread as u64) {
            self.pools@[thread as u64].bins.lemma_slab_count(type_index, slabs);
            assert(addr.place() == (Place { type_index, raw: (slabs * 256) as u32 }));
        }
    }

    /// With no more slots there are no more slabs.
    pub proof fn lemma_no_more_slabs(self, other: Self)
        requires
            self.wf(),
            other.wf(),
            self.generations().dom().subset_of(other.generations().dom()),
        ensures
            self.no_more_slabs(other),
    {
        assert forall|thread: u32, type_index: u32| #[trigger]
            self.slab_count(thread, type_index) <= other.slab_count(thread, type_index) by {
            let count = self.slab_count(thread, type_index);
            self.lemma_slab_count(thread, type_index, 1);
            if count > 0 {
                self.lemma_slab_count(thread, type_index, count as u32);
                other.lemma_slab_count(thread, type_index, count as u32);
            }
        }
    }

    /// Returns a heap without pools.
    pub fn new() -> (heap: Self)
        ensures
            heap.wf(),
            heap.cells() == Map::<Addr, Cell<V>>::empty(),
            heap.generations() == Map::<Addr, u32>::empty(),
            heap.layouts() == Map::<BinAddr, Layout>::empty(),
            heap.handles() == Map::<u64, u64>::empty(),
    {
        let heap = Heap { pools: KeyedStore::new() };
        assert(heap.cells() =~= Map::<Addr, Cell<V>>::empty());
        assert(heap.generations() =~= Map::<Addr, u32>::empty());
        assert(heap.layouts() =~= Map::<BinAddr, Layout>::empty());
        assert(heap.handles() =~= Map::<u64, u64>::empty());
        heap
    }

    /// Returns true if the pool exists.
    pub fn has_pool(&self, thread: CollectorThreadId) -> (result: bool)
        requires
            self.wf(),
        ensures
            result == self.handles().dom().contains(thread.id as u64),
    {
        self.pools.get(thread.id as u64).is_some()
    }

    /// Returns true if there is an id for another pool.
    pub fn has_vacancy(&self) -> (result: bool)
        requires
            self.wf(),
        ensures
            result == has_vacant_id(self.handles()),
    {
        let count: usize = self.pools.len();
        proof {
            let ids = self.pools@.dom();
            assert(self.handles().dom() =~= ids);
            lemma_vacant_id(ids);
            if has_vacant_id(self.handles()) {
                let id = choose|id: u64| id <= u32::MAX && !(#[trigger] self.handles().dom().contains(id));
                assert(!ids.contains(id));
            }
        }
        (count as u64) <= u32::MAX as u64
    }

    /// Returns the number of handles to the pool.
    pub fn handle_count(&self, thread: CollectorThreadId) -> (handles: Option<u64>)
        requires
            self.wf(),
        ensures
            handles == (if self.handles().dom().contains(thread.id as u64) {
                Some(self.handles()[thread.id as u64])
            } else {
                None
            }),
    {
        match self.pools.get(thread.id as u64) {
            Some(pool) => Some(pool.handles),
            None => None,
        }
    }

    /// Adds an empty pool with one handle.
    pub fn add_pool(&mut self, thread: CollectorThreadId)
        requires
            old(self).wf(),
            !old(self).handles().dom().contains(thread.id as u64),
        ensures
            final(self).wf(),
            final(self).cells() == old(self).cells(),
            final(self).generations() == old(self).generations(),
            final(self).layouts() == old(self).layouts(),
            final(self).handles() == old(self).handles().insert(thread.id as u64, 1),
            final(self).same_slabs(*old(self)),
    {
        let ghost before = *self;
        self.pools.insert(thread.id as u64, Pool { bins: Bins::new(), handles: 1 });
        assert(self.cells() =~= before.cells());
        assert(self.generations() =~= before.generations());
        assert(self.layouts() =~= before.layouts());
        assert(self.handles() =~= before.handles().insert(thread.id as u64, 1));
    }

    /// Sets the number of handles to the pool.
    pub fn set_handles(&mut self, thread: CollectorThreadId, handles: u64)
        requires
            old(self).wf(),
            old(self).handles().dom().contains(thread.id as u64),
        ensures
            final(self).wf(),
            final(self).cells() == old(self).cells(),
            final(self).generations() == old(self).generations(),
            final(self).layouts() == old(self).layouts(),
            final(self).handles() == old(self).handles().insert(thread.id as u64, handles),
            final(self).same_slabs(*old(self)),
            forall|other: CollectorThreadId| #[trigger] final(self).bins(other) == old(self).bins(other),
    {
        let ghost before = *self;
        if let Some(pool) = self.pools.get_mut(thread.id as u64) {
            pool.handles = handles;
        }
        assert(self.cells() =~= before.cells());
        assert(self.generations() =~= before.generations());
        assert(self.layouts() =~= before.layouts());
        assert(self.handles() =~= before.handles().insert(thread.id as u64, handles));
    }

    /// Removes the pool and its values.
    pub fn remove_pool(&mut self, thread: CollectorThreadId)
        requires
            old(self).wf(),
        ensures
            final(self).wf(),
            final(self).cells() == old(self).cells().restrict(
                Set::new(|addr: Addr| addr.thread != thread.id),
            ),
            final(self).generations() == old(self).generations().restrict(
                Set::new(|addr: Addr| addr.thread != thread.id),
            ),
            final(self).layouts() == old(self).layouts().restrict(
                Set::new(|bin: BinAddr| bin.thread != thread.id),
            ),
            final(self).handles() == old(self).handles().remove(thread.id as u64),
            forall|other: u32, type_index: u32|
                other != thread.id ==> #[trigger] final(self).slab_count(other, type_index) == old(self).slab_count(other, type_index),
    {
        let ghost before = *self;
        self.pools.remove(thread.id as u64);
        assert(self.cells() =~= before.cells().restrict(
            Set::new(|addr: Addr| addr.thread != thread.id),
        ));
        assert(self.generations() =~= before.generations().restrict(
            Set::new(|addr: Addr| addr.thread != thread.id),
        ));
        assert(self.layouts() =~= before.layouts().restrict(
            Set::new(|bin: BinAddr| bin.thread != thread.id),
        ));
        assert(self.handles() =~= before.handles().remove(thread.id as u64));
    }

    /// Drops all values of the pool.
    pub fn clear_pool(&mut self, thread: CollectorThreadId)
        requires
            old(self).wf(),
        ensures
            final(self).wf(),
            final(self).cells() == old(self).cells().restrict(
                Set::new(|addr: Addr| addr.thread != thread.id),
            ),
            final(self).generations() == old(self).generations().restrict(
                Set::new(|addr: Addr| addr.thread != thread.id),
            ),
            final(self).layouts() == old(self).layouts().restrict(
                Set::new(|bin: BinAddr| bin.thread != thread.id),
            ),
            final(self).handles() == old(self).handles(),
            forall|other: u32, type_index: u32|
                other != thread.id ==> #[trigger] final(self).slab_count(other, type_index) == old(self).slab_count(other, type_index),
    {
        let ghost before = *self;
        if let Some(pool) = self.pools.get_mut(thread.id as u64) {
            pool.bins = Bins::new();
        }
        assert(self.cells() =~= before.cells().restrict(
            Set::new(|addr: Addr| addr.thread != thread.id),
        ));
        assert(self.generations() =~= before.generations().restrict(
            Set::new(|addr: Addr| addr.thread != thread.id),
        ));
        assert(self.layouts() =~= before.layouts().restrict(
            Set::new(|bin: BinAddr| bin.thread != thread.id),
        ));
        assert(self.handles() =~= before.handles());
    }

    /// Returns true if the pool has no slot for another value of the type.
    pub fn is_full(&self, thread: CollectorThreadId, type_index: TypeIndex) -> (result: bool)
        requires
            self.wf(),
            self.handles().dom().contains(thread.id as u64),
        ensures
            result == self.bins(thread).full(type_index.index),
    {
        match self.pools.get(thread.id as u64) {
            Some(pool) => pool.bins.is_full(type_index),
            None => false,
        }
    }

    /// Stores `value` in the pool.
    pub fn adopt(&mut self, value: Rooted<V>, type_index: TypeIndex, thread: CollectorThreadId) -> (adopted:
        Adopted)
        requires
            old(self).wf(),
            old(self).handles().dom().contains(thread.id as u64),
            !old(self).bins(thread).full(type_index.index),
        ensures
            final(self).wf(),
            final(self).handles() == old(self).handles(),
            old(self).bins(thread).is_next(
                type_index.index,
                adopted.bin_id.raw,
                adopted.generation,
            ),
            ({
                let addr = Addr {
                    thread: thread.id,
                    type_index: type_index.index,
                    raw: adopted.bin_id.raw,
                };
                &&& !old(self).cells().dom().contains(addr)
                &&& final(self).cells() == old(self).cells().insert(
                    addr,
                    value.stored(adopted.generation),
                )
                &&& adopted.generation == next_generation(old(self).generations(), addr)
                &&& final(self).generations() == with_generation(
                    old(self).generations(),
                    addr,
                    adopted.generation,
                )
                &&& final(self).layouts() == with_adopted(old(self).layouts(), addr)
            }),
            adopted.slab_filled == old(self).bins(thread).fills_slab(
                type_index.index,
                adopted.bin_id.raw,
            ),
            final(self).slab_count(thread.id, type_index.index) <= old(self).slab_count(
                thread.id,
                type_index.index,
            ) + 1,
            forall|other: u32, other_type: u32|
                other != thread.id || other_type != type_index.index ==> #[trigger] final(self).slab_count(other, other_type) == old(self).slab_count(other, other_type),
    {
        let ghost before = *self;
        match self.pools.get_mut(thread.id as u64) {
            Some(pool) => {
                let adopted = pool.bins.adopt(value, type_index, thread);
                proof {
                    let addr = Addr {
                        thread: thread.id,
                        type_index: type_index.index,
                        raw: adopted.bin_id.raw,
                    };
                    assert(addr.place() == (Place {
                        type_index: type_index.index,
                        raw: adopted.bin_id.raw,
                    }));
                    assert(self.cells() =~= before.cells().insert(
                        addr,
                        value.stored(adopted.generation),
                    ));
                    assert forall|other: Addr| other.thread == thread.id implies (other == addr) == (
                    #[trigger] other.place() == addr.place()) by {}
                    assert(self.generations() =~= with_generation(
                        before.generations(),
                        addr,
                        adopted.generation,
                    ));
                    assert(self.layouts() =~= with_adopted(before.layouts(), addr));
                    assert(self.handles() =~= before.handles());
                }
                adopted
            },
            None => {
                assert(false);
                Adopted { generation: 0, bin_id: crate::bin_id::BinId::first(), slab_filled: false }
            },
        }
    }

    /// Returns the value that the reference names.
    pub fn load(&self, any: AnyRef) -> (value: Option<&Rooted<V>>)
        requires
            self.wf(),
        ensures
            value is Some <==> self.names(any),
            value is Some ==> ({
                let cell = self.cells()[any.addr()];
                &&& cell.roots == value.unwrap().roots
                &&& cell.value == *value.unwrap().value
            }),
    {
        match self.pools.get(any.creating_thread.id as u64) {
            Some(pool) => {
                assert(any.addr().place() == place_of(any));
                pool.bins.load(any)
            },
            None => None,
        }
    }

    /// Sets the number of roots of the value that the reference names.
    pub fn set_roots(&mut self, any: AnyRef, roots: u64)
        requires
            old(self).wf(),
            old(self).names(any),
        ensures
            final(self).wf(),
            final(self).handles() == old(self).handles(),
            final(self).cells() == old(self).cells().insert(
                any.addr(),
                Cell { roots, ..old(self).cells()[any.addr()] },
            ),
            final(self).generations() == old(self).generations(),
            final(self).layouts() == old(self).layouts(),
            final(self).same_slabs(*old(self)),
            forall|thread: CollectorThreadId, type_index: u32| #[trigger]
                final(self).bins(thread).full(type_index) == old(self).bins(thread).full(
                    type_index,
                ),
    {
        let ghost before = *self;
        proof {
            assert(any.addr().place() == place_of(any));
        }
        if let Some(pool) = self.pools.get_mut(any.creating_thread.id as u64) {
            pool.bins.set_roots(any, roots);
        }
        assert(self.cells() =~= before.cells().insert(
            any.addr(),
            Cell { roots, ..before.cells()[any.addr()] },
        ));
        assert(self.generations() =~= before.generations());
        assert(self.layouts() =~= before.layouts());
        assert(self.handles() =~= before.handles());
    }
}

/// Some id has no pool.
pub open spec fn has_vacant_id(handles: Map<u64, u64>) -> bool {
    exists|id: u64| id <= u32::MAX && !(#[trigger] handles.dom().contains(id))
}

/// There is an id that is not in use exactly if fewer ids than there are are in
/// use.
proof fn lemma_vacant_id(ids: Set<u64>)
    requires
        forall|id: u64| #[trigger] ids.contains(id) ==> id <= u32::MAX,
    ensures
        ids.finite(),
        ids.len() <= u32::MAX <==> (exists|id: u64| id <= u32::MAX && !(#[trigger] ids.contains(id))),
{
    let all = set_int_range(0, u32::MAX + 1);
    vstd::set_lib::lemma_int_range(0, u32::MAX + 1);
    let numbers = all.map(|n: int| n as u64);
    all.lemma_map_finite(|n: int| n as u64);
    vstd::set_lib::lemma_map_size(all, numbers, |n: int| n as u64);
    assert forall|id: u64| ids.contains(id) implies numbers.contains(id) by {
        assert(all.contains(id as int));
    }
    vstd::set_lib::lemma_set_subset_finite(numbers, ids);
    vstd::set_lib::lemma_len_subset(ids, numbers);
    if ids.len() <= u32::MAX {
        if forall|id: u64| id <= u32::MAX ==> #[trigger] ids.contains(id) {
            assert(ids =~= numbers);
        }
    } else {
        vstd::set_lib::lemma_subset_equality(ids, numbers);
        assert forall|id: u64| id <= u32::MAX implies #[trigger] ids.contains(id) by {
            assert(all.contains(id as int));
            assert(numbers.contains(id));
        }
    }
}

/// The addresses of a bin are those of its type in its pool.
proof fn lemma_addresses<V>(heap: Heap<V>, bin: BinAddr)
    requires
        heap.pools@.dom().contains(bin.thread as u64),
    ensures
        addresses_of(heap.cells().dom(), bin) == addresses_in(
            heap.pools@[bin.thread as u64].bins.cells().dom(),
            bin.type_index,
        ),
{
    assert forall|raw: u32|
        addresses_of(heap.cells().dom(), bin).contains(raw) == addresses_in(
            heap.pools@[bin.thread as u64].bins.cells().dom(),
            bin.type_index,
        ).contains(raw) by {
        let addr = Addr { thread: bin.thread, type_index: bin.type_index, raw };
        assert(addr.place() == (Place { type_index: bin.type_index, raw }));
    }
    assert(addresses_of(heap.cells().dom(), bin) =~= addresses_in(
        heap.pools@[bin.thread as u64].bins.cells().dom(),
        bin.type_index,
    ));
}

/// The reference names one of the values: there is one at its address, and it
/// is of the same generation.
pub open spec fn names<V>(cells: Map<Addr, Cell<V>>, any: AnyRef) -> bool {
    &&& cells.dom().contains(any.addr())
    &&& cells[any.addr()].generation == any.slot_generation
}

impl<V: AnyValue> Heap<V> {
    /// The references to all rooted values of the pool.
    pub open spec fn roots(self, thread: CollectorThreadId) -> Set<AnyRef> {
        Set::new(
            |r: AnyRef|
                {
                    &&& r.creating_thread == thread
                    &&& self.names(r)
                    &&& self.cells()[r.addr()].roots > 0
                },
        )
    }

    /// Requests marking of every rooted value of the traced pool.
    pub fn trace(&self, tracer: &mut Tracer)
        requires
            self.wf(),
        ensures
            final(tracer).tracing_thread == old(tracer).tracing_thread,
            final(tracer).extends(old(tracer).requests@, self.roots(old(tracer).tracing_thread)),
    {
        let ghost thread = tracer.tracing_thread;
        match self.pools.get(tracer.tracing_thread.id as u64) {
            Some(pool) => {
                pool.bins.trace(tracer);
                proof {
                    assert forall|r: AnyRef|
                        pool.bins.roots(thread).contains(r) == self.roots(thread).contains(r) by {
                        assert(r.addr().place() == place_of(r));
                    }
                    assert(pool.bins.roots(thread) =~= self.roots(thread));
                }
            },
            None => {
                proof {
                    lemma_extends_nothing(*tracer);
                    assert(self.roots(thread) =~= Set::<AnyRef>::empty());
                }
            },
        }
    }

    /// Traces the value that the reference names.
    pub fn trace_one(&self, any: AnyRef, tracer: &mut Tracer)
        requires
            self.wf(),
        ensures
            final(tracer).tracing_thread == old(tracer).tracing_thread,
            final(tracer).extends(
                old(tracer).requests@,
                if self.names(any) {
                    self.cells()[any.addr()].value.any_references()
                } else {
                    Set::empty()
                },
            ),
    {
        proof {
            assert(any.addr().place() == place_of(any));
        }
        match self.pools.get(any.creating_thread.id as u64) {
            Some(pool) => pool.bins.trace_one(any, tracer),
            None => {
                proof {
                    lemma_extends_nothing(*tracer);
                }
            },
        }
    }

    /// Marks the value that the reference names. Returns true if it has to be
    /// traced now.
    pub fn mark_one(&mut self, mark_bits: u8, any: AnyRef) -> (trace: bool)
        requires
            old(self).wf(),
        ensures
            final(self).wf(),
            final(self).handles() == old(self).handles(),
            final(self).generations() == old(self).generations(),
            final(self).layouts() == old(self).layouts(),
            final(self).same_slabs(*old(self)),
            ({
                let cells = old(self).cells();
                let addr = any.addr();
                let marked = old(self).names(any) && cells[addr].mark != mark_bits;
                &&& trace == (marked && cells[addr].value.any_may_reference())
                &&& final(self).cells() == (if marked {
                    cells.insert(addr, Cell { mark: mark_bits, ..cells[addr] })
                } else {
                    cells
                })
            }),
    {
        let ghost before = *self;
        let ghost marked = before.names(any) && before.cells()[any.addr()].mark != mark_bits;
        proof {
            assert(any.addr().place() == place_of(any));
        }
        let trace: bool = match self.pools.get_mut(any.creating_thread.id as u64) {
            Some(pool) => pool.bins.mark_one(mark_bits, any),
            None => false,
        };
        proof {
            let addr = any.addr();
            assert(self.cells() =~= if marked {
                before.cells().insert(addr, Cell { mark: mark_bits, ..before.cells()[addr] })
            } else {
                before.cells()
            });
            assert(self.generations() =~= before.generations());
            assert(self.layouts() =~= before.layouts());
            assert(self.handles() =~= before.handles());
        }
        trace
    }

    /// Drops every value of the pool that does not carry `mark_bits`. Returns
    /// true if any value of the pool is left.
    pub fn sweep(&mut self, thread: CollectorThreadId, mark_bits: u8) -> (occupied: bool)
        requires
            old(self).wf(),
        ensures
            final(self).wf(),
            final(self).handles() == old(self).handles(),
            final(self).generations() == old(self).generations(),
            final(self).layouts() == Map::new(
                |bin: BinAddr| old(self).layouts().dom().contains(bin),
                |bin: BinAddr|
                    if bin.thread == thread.id {
                        old(self).layouts()[bin].swept(
                            addresses_of(old(self).cells().dom(), bin),
                            addresses_of(final(self).cells().dom(), bin),
                        )
                    } else {
                        old(self).layouts()[bin]
                    },
            ),
            final(self).same_slabs(*old(self)),
            final(self).cells() == old(self).cells().restrict(
                Set::new(
                    |addr: Addr|
                        addr.thread == thread.id ==> old(self).cells()[addr].mark == mark_bits,
                ),
            ),
            occupied == (exists|addr: Addr|
                addr.thread == thread.id && #[trigger] final(self).cells().dom().contains(addr)),
    {
        let ghost before = *self;
        let occupied: bool = match self.pools.get_mut(thread.id as u64) {
            Some(pool) => pool.bins.sweep(mark_bits),
            None => false,
        };
        proof {
            assert(self.cells() =~= before.cells().restrict(
                Set::new(
                    |addr: Addr| addr.thread == thread.id ==> before.cells()[addr].mark == mark_bits,
                ),
            ));
            assert(self.generations() =~= before.generations());
            assert forall|bin: BinAddr|
                bin.thread == thread.id && #[trigger] before.layouts().dom().contains(bin) implies {
                &&& self.layouts().dom().contains(bin)
                &&& self.layouts()[bin] == before.layouts()[bin].swept(
                    addresses_of(before.cells().dom(), bin),
                    addresses_of(self.cells().dom(), bin),
                )
            } by {
                lemma_addresses(before, bin);
                lemma_addresses(*self, bin);
            }
            assert(self.layouts() =~= Map::new(
                |bin: BinAddr| before.layouts().dom().contains(bin),
                |bin: BinAddr|
                    if bin.thread == thread.id {
                        before.layouts()[bin].swept(
                            addresses_of(before.cells().dom(), bin),
                            addresses_of(self.cells().dom(), bin),
                        )
                    } else {
                        before.layouts()[bin]
                    },
            ));
            assert(self.handles() =~= before.handles());
            if occupied {
                let cells = self.pools@[thread.id as u64].bins.cells();
                if forall|place: Place| !cells.dom().contains(place) {
                    assert(cells =~= Map::<Place, Cell<V>>::empty());
                }
                let place = choose|place: Place| cells.dom().contains(place);
                let addr = Addr {
                    thread: thread.id,
                    type_index: place.type_index,
                    raw: place.raw,
                };
                assert(addr.place() == place);
                assert(self.cells().dom().contains(addr));
            }
        }
        occupied
    }
}

} // verus!
