//! The values of one pool, arranged by type.

use vstd::prelude::*;

use crate::any_ref::{AnyRef, CollectorThreadId, TypeIndex};
use crate::bin::{lemma_survivors_none, marked_cells, Bin};
use crate::bin_id::{BinId, MAX_SLABS};
use crate::keyed_store::KeyedStore;
use crate::layout::{first_layout, Layout};
use crate::slab::{same_slab, Adopted, Cell, Rooted};
use crate::slot_state::generation_after;
use crate::trace::{lemma_extends_nothing, lemma_extends_union, AnyValue, Tracer};

verus! {

/// The bins of one pool, one for each type that was allocated in it.
pub struct Bins<V> {
    pub by_type: KeyedStore<Bin<V>>,
}

/// A place inside a pool.
pub ghost struct Place {
    pub type_index: u32,
    pub raw: u32,
}

/// The place that a reference names inside its pool.
pub open spec fn place_of(any: AnyRef) -> Place {
    Place { type_index: any.type_index.index, raw: any.bin_id.raw }
}

/// The generations after a value was stored at `place`. If its slab is new, so
/// are the other slots of the slab.
pub open spec fn with_place_generation(
    generations: Map<Place, u32>,
    place: Place,
    generation: u32,
) -> Map<Place, u32> {
    Map::new(
        |other: Place|
            generations.dom().contains(other) || (other.type_index == place.type_index && same_slab(
                other.raw,
                place.raw,
            )),
        |other: Place|
            if other == place {
                generation
            } else if generations.dom().contains(other) {
                generations[other]
            } else {
                0
            },
    )
}

/// The addresses of the type among the places.
pub open spec fn addresses_in(places: Set<Place>, type_index: u32) -> Set<u32> {
    Set::new(|raw: u32| places.contains(Place { type_index, raw }))
}

/// The layout of a bin, if there is one, after a value was stored at `raw`.
pub open spec fn layout_adopted(layout: Option<Layout>, raw: u32) -> Layout {
    match layout {
        Some(layout) => layout.adopted(raw),
        None => first_layout(),
    }
}

impl<V> Bins<V> {
    pub open spec fn wf(self) -> bool {
        &&& self.by_type.wf()
        &&& forall|key: u64| #[trigger]
            self.by_type@.dom().contains(key) ==> {
                &&& key <= u32::MAX
                &&& self.by_type@[key].wf()
                &&& self.by_type@[key].type_index.index == key
            }
    }

    /// All bins are bins of the pool.
    pub open spec fn owned_by(self, thread: CollectorThreadId) -> bool {
        forall|key: u64| #[trigger]
            self.by_type@.dom().contains(key) ==> self.by_type@[key].thread_id == thread
    }

    /// There is a value at the place.
    pub open spec fn has_cell(self, place: Place) -> bool {
        &&& self.by_type@.dom().contains(place.type_index as u64)
        &&& self.by_type@[place.type_index as u64].cells().dom().contains(place.raw)
    }

    /// All values with their places.
    pub open spec fn cells(self) -> Map<Place, Cell<V>> {
        Map::new(
            |place: Place| self.has_cell(place),
            |place: Place| self.by_type@[place.type_index as u64].cells()[place.raw],
        )
    }

    /// There is a slot at the place.
    pub open spec fn has_slot(self, place: Place) -> bool {
        &&& self.by_type@.dom().contains(place.type_index as u64)
        &&& self.by_type@[place.type_index as u64].generations().dom().contains(place.raw)
    }

    /// The generation of every slot: that of the value it holds or held last, or
    /// zero.
    pub open spec fn generations(self) -> Map<Place, u32> {
        Map::new(
            |place: Place| self.has_slot(place),
            |place: Place| self.by_type@[place.type_index as u64].generations()[place.raw],
        )
    }

    /// How the slots for each type are used.
    pub open spec fn layouts(self) -> Map<u32, Layout> {
        Map::new(
            |type_index: u32| self.by_type@.dom().contains(type_index as u64),
            |type_index: u32| self.by_type@[type_index as u64].layout(),
        )
    }

    /// How the slots for the type are used, if there are any.
    pub open spec fn layout(self, type_index: u32) -> Option<Layout> {
        if self.layouts().dom().contains(type_index) {
            Some(self.layouts()[type_index])
        } else {
            None
        }
    }

    /// The number of slabs for values of the type.
    pub open spec fn slab_count(self, type_index: u32) -> nat {
        if self.by_type@.dom().contains(type_index as u64) {
            self.by_type@[type_index as u64].slab_count()
        } else {
            0
        }
    }

    /// There is no slot for another value of the type.
    pub open spec fn full(self, type_index: u32) -> bool {
        &&& self.by_type@.dom().contains(type_index as u64)
        &&& self.by_type@[type_index as u64].full()
    }

    /// The next value of the type is stored at `raw` as `generation`.
    pub open spec fn is_next(self, type_index: u32, raw: u32, generation: u32) -> bool {
        if self.by_type@.dom().contains(type_index as u64) {
            let bin = self.by_type@[type_index as u64];
            bin.is_next_slot(raw) && generation == bin.slabs.next_generation(raw)
        } else {
            raw == 256 && generation == 0
        }
    }

    /// The slot at `raw` is the last one of its slab, and was never used.
    pub open spec fn fills_slab(self, type_index: u32, raw: u32) -> bool {
        &&& self.by_type@.dom().contains(type_index as u64)
        &&& self.by_type@[type_index as u64].free@.len() == 0
        &&& BinId { raw }.slot_index() == 255
    }

    /// The reference names a value: there is one at its place, and it is of
    /// the same generation.
    pub open spec fn names(self, any: AnyRef) -> bool {
        let place = place_of(any);
        &&& self.cells().dom().contains(place)
        &&& self.cells()[place].generation == any.slot_generation
    }

    /// The slots say how many slabs there are.
    pub proof fn lemma_slab_count(self, type_index: u32, slabs: u32)
        requires
            self.wf(),
            0 < slabs <= MAX_SLABS,
        ensures
            self.slab_count(type_index) >= slabs <==> self.generations().dom().contains(
                Place { type_index, raw: (slabs * 256) as u32 },
            ),
            self.slab_count(type_index) <= MAX_SLABS,
    {
        let raw = (slabs * 256) as u32;
        assert(BinId { raw }.slab_index() == slabs - 1);
    }

    /// Returns the bins of a pool without values.
    pub fn new() -> (bins: Self)
        ensures
            bins.wf(),
            forall|thread: CollectorThreadId| bins.owned_by(thread),
            bins.cells() == Map::<Place, Cell<V>>::empty(),
            bins.generations() == Map::<Place, u32>::empty(),
            bins.layouts() == Map::<u32, Layout>::empty(),
            forall|type_index: u32| bins.slab_count(type_index) == 0,
    {
        let bins = Bins { by_type: KeyedStore::new() };
        assert(bins.cells() =~= Map::<Place, Cell<V>>::empty());
        assert(bins.generations() =~= Map::<Place, u32>::empty());
        assert(bins.layouts() =~= Map::<u32, Layout>::empty());
        bins
    }

    /// Returns true if there is no slot for another value of the type.
    pub fn is_full(&self, type_index: TypeIndex) -> (result: bool)
        requires
            self.wf(),
        ensures
            result == self.full(type_index.index),
            result ==> self.slab_count(type_index.index) == MAX_SLABS,
    {
        match self.by_type.get(type_index.index as u64) {
            Some(bin) => bin.is_full(),
            None => false,
        }
    }

    /// Stores `value` in the bin for its type, making a bin for the first
    /// value of a type.
    pub fn adopt(&mut self, value: Rooted<V>, type_index: TypeIndex, thread_id: CollectorThreadId) -> (adopted:
        Adopted)
        requires
            old(self).wf(),
            old(self).owned_by(thread_id),
            !old(self).full(type_index.index),
        ensures
            final(self).wf(),
            final(self).owned_by(thread_id),
            old(self).is_next(type_index.index, adopted.bin_id.raw, adopted.generation),
            ({
                let place = Place { type_index: type_index.index, raw: adopted.bin_id.raw };
                &&& !old(self).cells().dom().contains(place)
                &&& final(self).cells() == old(self).cells().insert(
                    place,
                    value.stored(adopted.generation),
                )
                &&& adopted.generation == (if old(self).generations().dom().contains(place) {
                    generation_after(old(self).generations()[place])
                } else {
                    0
                })
                &&& final(self).generations() == with_place_generation(
                    old(self).generations(),
                    place,
                    adopted.generation,
                )
            }),
            final(self).layouts() == old(self).layouts().insert(
                type_index.index,
                layout_adopted(old(self).layout(type_index.index), adopted.bin_id.raw),
            ),
            adopted.slab_filled == old(self).fills_slab(type_index.index, adopted.bin_id.raw),
            final(self).slab_count(type_index.index) <= old(self).slab_count(type_index.index) + 1,
            forall|other: u32|
                other != type_index.index ==> #[trigger] final(self).slab_count(other) == old(
                    self,
                ).slab_count(other),
    {
        let ghost before = *self;
        let key: u64 = type_index.index as u64;
        match self.by_type.get_mut(key) {
            Some(bin) => {
                let adopted = bin.adopt(value);
                proof {
                    assert(adopted.bin_id == (BinId { raw: adopted.bin_id.raw }));
                    let place = Place { type_index: type_index.index, raw: adopted.bin_id.raw };
                    assert(self.cells() =~= before.cells().insert(
                        place,
                        value.stored(adopted.generation),
                    ));
                    assert(self.generations() =~= with_place_generation(
                        before.generations(),
                        place,
                        adopted.generation,
                    ));
                    assert(self.layouts() =~= before.layouts().insert(
                        type_index.index,
                        layout_adopted(before.layout(type_index.index), adopted.bin_id.raw),
                    ));
                }
                adopted
            },
            None => {
                self.by_type.insert(key, Bin::new(value, type_index, thread_id));
                proof {
                    let place = Place { type_index: type_index.index, raw: 256 };
                    assert(self.cells() =~= before.cells().insert(place, value.stored(0)));
                    assert(self.generations() =~= with_place_generation(
                        before.generations(),
                        place,
                        0,
                    ));
                    assert(self.layouts() =~= before.layouts().insert(
                        type_index.index,
                        first_layout(),
                    ));
                }
                Adopted { generation: 0, bin_id: BinId::first(), slab_filled: false }
            },
        }
    }

    /// Returns the value that the reference names.
    pub fn load(&self, any: AnyRef) -> (value: Option<&Rooted<V>>)
        requires
            self.wf(),
        ensures
            value is Some <==> self.names(any),
            value is Some ==> ({
                let cell = self.cells()[place_of(any)];
                &&& cell.roots == value.unwrap().roots
                &&& cell.value == *value.unwrap().value
            }),
    {
        match self.by_type.get(any.type_index.index as u64) {
            Some(bin) => bin.load(any.bin_id, any.slot_generation),
            None => None,
        }
    }

    /// Sets the number of roots of the value that the reference names.
    pub fn set_roots(&mut self, any: AnyRef, roots: u64)
        requires
            old(self).wf(),
            old(self).names(any),
        ensures
            final(self).wf(),
            forall|thread: CollectorThreadId|
                old(self).owned_by(thread) ==> #[trigger] final(self).owned_by(thread),
            final(self).cells() == old(self).cells().insert(
                place_of(any),
                Cell { roots, ..old(self).cells()[place_of(any)] },
            ),
            final(self).generations() == old(self).generations(),
            final(self).layouts() == old(self).layouts(),
            forall|type_index: u32| #[trigger]
                final(self).slab_count(type_index) == old(self).slab_count(type_index),
            forall|type_index: u32| #[trigger]
                final(self).full(type_index) == old(self).full(type_index),
    {
        let ghost before = *self;
        if let Some(bin) = self.by_type.get_mut(any.type_index.index as u64) {
            bin.set_roots(any.bin_id, roots);
        }
        assert(self.cells() =~= before.cells().insert(
            place_of(any),
            Cell { roots, ..before.cells()[place_of(any)] },
        ));
        assert(self.generations() =~= before.generations());
        assert(self.layouts() =~= before.layouts());
    }
}

/// The values that carry `mark_bits`.
pub open spec fn marked_places<V>(cells: Map<Place, Cell<V>>, mark_bits: u8) -> Map<Place, Cell<V>> {
    Map::new(
        |place: Place| cells.dom().contains(place) && cells[place].mark == mark_bits,
        |place: Place| cells[place],
    )
}

/// The layouts after a sweep that left the values at `kept` of those at `held`.
pub open spec fn swept_types(
    layouts: Map<u32, Layout>,
    held: Set<Place>,
    kept: Set<Place>,
) -> Map<u32, Layout> {
    Map::new(
        |type_index: u32| layouts.dom().contains(type_index),
        |type_index: u32|
            layouts[type_index].swept(
                addresses_in(held, type_index),
                addresses_in(kept, type_index),
            ),
    )
}

impl<V: AnyValue> Bins<V> {
    /// The references to all rooted values of the pool `thread`.
    pub open spec fn roots(self, thread: CollectorThreadId) -> Set<AnyRef> {
        Set::new(
            |r: AnyRef|
                {
                    &&& r.creating_thread == thread
                    &&& self.names(r)
                    &&& self.cells()[place_of(r)].roots > 0
                },
        )
    }

    /// The roots whose types are among the first `count` keys.
    spec fn roots_of(self, thread: CollectorThreadId, keys: Seq<u64>, count: int) -> Set<AnyRef> {
        self.roots(thread).filter(
            |r: AnyRef| exists|i: int| 0 <= i < count && keys[i] == r.type_index.index,
        )
    }

    /// Requests marking of every rooted value.
    pub fn trace(&self, tracer: &mut Tracer)
        requires
            self.wf(),
        ensures
            final(tracer).tracing_thread == old(tracer).tracing_thread,
            final(tracer).extends(old(tracer).requests@, self.roots(old(tracer).tracing_thread)),
    {
        let ghost before = tracer.requests@;
        let ghost thread = tracer.tracing_thread;
        let keys: Vec<u64> = self.by_type.keys();
        let mut i: usize = 0;
        proof {
            lemma_extends_nothing(*tracer);
            assert(self.roots_of(thread, keys@, 0) =~= Set::<AnyRef>::empty());
        }
        while i < keys.len()
            invariant
                self.wf(),
                i <= keys@.len(),
                forall|key: u64| #[trigger] keys@.contains(key) <==> self.by_type@.dom().contains(key),
                thread == old(tracer).tracing_thread,
                tracer.tracing_thread == thread,
                tracer.extends(before, self.roots_of(thread, keys@, i as int)),
            decreases keys@.len() - i,
        {
            let ghost middle = *tracer;
            let ghost first = self.roots_of(thread, keys@, i as int);
            assert(keys@.contains(keys@[i as int]));
            if let Some(bin) = self.by_type.get(keys[i]) {
                bin.trace(tracer);
                proof {
                    let second = bin.roots(thread);
                    lemma_extends_union(*tracer, before, middle, first, second);
                    let next = self.roots_of(thread, keys@, i + 1);
                    assert forall|r: AnyRef| next.contains(r) == first.union(second).contains(r) by {
                        if next.contains(r) {
                            let j = choose|j: int| 0 <= j < i + 1 && keys@[j] == r.type_index.index;
                            if j == i {
                                assert(second.contains(r));
                            } else {
                                assert(first.contains(r));
                            }
                        }
                        if second.contains(r) {
                            assert(keys@[i as int] == r.type_index.index);
                            assert(next.contains(r));
                        }
                    }
                    assert(next =~= first.union(second));
                }
            }
            i = i + 1;
        }
        proof {
            let all = self.roots_of(thread, keys@, keys@.len() as int);
            assert forall|r: AnyRef| self.roots(thread).contains(r) implies all.contains(r) by {
                assert(keys@.contains(r.type_index.index as u64));
            }
            assert(all =~= self.roots(thread));
        }
    }

    /// Traces the value that the reference names.
    pub fn trace_one(&self, any: AnyRef, tracer: &mut Tracer)
        requires
            self.wf(),
        ensures
            final(tracer).tracing_thread == old(tracer).tracing_thread,
            final(tracer).extends(
                old(tracer).requests@,
                if self.names(any) {
                    self.cells()[place_of(any)].value.any_references()
                } else {
                    Set::empty()
                },
            ),
    {
        match self.by_type.get(any.type_index.index as u64) {
            Some(bin) => bin.trace_one(any.slot_generation, any.bin_id, tracer),
            None => {
                proof {
                    lemma_extends_nothing(*tracer);
                }
            },
        }
    }

    /// Marks the value that the reference names. Returns true if it has to be
    /// traced now.
    pub fn mark_one(&mut self, mark_bits: u8, any: AnyRef) -> (trace: bool)
        requires
            old(self).wf(),
        ensures
            final(self).wf(),
            forall|thread: CollectorThreadId|
                old(self).owned_by(thread) ==> #[trigger] final(self).owned_by(thread),
            ({
                let cells = old(self).cells();
                let place = place_of(any);
                let marked = old(self).names(any) && cells[place].mark != mark_bits;
                &&& trace == (marked && cells[place].value.any_may_reference())
                &&& final(self).cells() == (if marked {
                    cells.insert(place, Cell { mark: mark_bits, ..cells[place] })
                } else {
                    cells
                })
            }),
            final(self).generations() == old(self).generations(),
            final(self).layouts() == old(self).layouts(),
            forall|type_index: u32| #[trigger]
                final(self).slab_count(type_index) == old(self).slab_count(type_index),
    {
        let ghost before = *self;
        let ghost marked = before.names(any) && before.cells()[place_of(any)].mark != mark_bits;
        let trace: bool = match self.by_type.get_mut(any.type_index.index as u64) {
            Some(bin) => bin.mark_one(mark_bits, any.slot_generation, any.bin_id),
            None => false,
        };
        proof {
            let place = place_of(any);
            assert(self.cells() =~= if marked {
                before.cells().insert(place, Cell { mark: mark_bits, ..before.cells()[place] })
            } else {
                before.cells()
            });
            assert(self.generations() =~= before.generations());
            assert(self.layouts() =~= before.layouts());
        }
        trace
    }

    /// Drops every value that does not carry `mark_bits` and returns true if
    /// any value is left.
    pub fn sweep(&mut self, mark_bits: u8) -> (occupied: bool)
        requires
            old(self).wf(),
        ensures
            final(self).wf(),
            forall|thread: CollectorThreadId|
                old(self).owned_by(thread) ==> #[trigger] final(self).owned_by(thread),
            final(self).cells() == marked_places(old(self).cells(), mark_bits),
            final(self).generations() == old(self).generations(),
            final(self).layouts() == swept_types(
                old(self).layouts(),
                old(self).cells().dom(),
                final(self).cells().dom(),
            ),
            occupied == (final(self).cells() != Map::<Place, Cell<V>>::empty()),
            forall|type_index: u32| #[trigger]
                final(self).slab_count(type_index) == old(self).slab_count(type_index),
    {
        let ghost before = *self;
        let keys: Vec<u64> = self.by_type.keys();
        let mut live_objects: usize = 0;
        let mut i: usize = 0;
        while i < keys.len()
            invariant
                before == *old(self),
                before.wf(),
                self.wf(),
                i <= keys@.len(),
                forall|a: int, b: int| 0 <= a < b < keys@.len() ==> keys@[a] < keys@[b],
                forall|key: u64| #[trigger]
                    keys@.contains(key) <==> before.by_type@.dom().contains(key),
                self.by_type@.dom() == before.by_type@.dom(),
                forall|key: u64| #[trigger]
                    self.by_type@.dom().contains(key) ==> {
                        &&& self.by_type@[key].thread_id == before.by_type@[key].thread_id
                        &&& self.by_type@[key].slab_count() == before.by_type@[key].slab_count()
                        &&& self.by_type@[key].generations() == before.by_type@[key].generations()
                    },
                forall|j: int|
                    0 <= j < i ==> (#[trigger] self.by_type@[keys@[j]]).cells() == marked_cells(
                        before.by_type@[keys@[j]].cells(),
                        mark_bits,
                    ),
                forall|j: int|
                    0 <= j < i ==> (#[trigger] self.by_type@[keys@[j]]).layout()
                        == before.by_type@[keys@[j]].layout().swept(
                        before.by_type@[keys@[j]].cells().dom(),
                        self.by_type@[keys@[j]].cells().dom(),
                    ),
                forall|j: int|
                    i <= j < keys@.len() ==> #[trigger] self.by_type@[keys@[j]]
                        == before.by_type@[keys@[j]],
                live_objects == 0 <==> (forall|j: int|
                    0 <= j < i ==> (#[trigger] self.by_type@[keys@[j]]).cells() == Map::<
                        u32,
                        Cell<V>,
                    >::empty()),
            decreases keys@.len() - i,
        {
            let ghost middle = *self;
            let ghost live_before = live_objects;
            let key: u64 = keys[i];
            assert(keys@.contains(keys@[i as int]));
            if let Some(bin) = self.by_type.get_mut(key) {
                let ghost bin_before = *bin;
                let allocated: usize = bin.sweep(mark_bits);
                proof {
                    let cells = bin_before.cells();
                    assert forall|raw: u32| cells.dom().contains(raw) implies 256 <= raw
                        < bin_before.slab_count() * 256 + 256 by {
                        assert(bin_before.slabs.has_slot(raw));
                    }
                    lemma_survivors_none(cells, mark_bits, bin_before.slab_count() * 256);
                }
                live_objects = live_objects.saturating_add(allocated);
            }
            proof {
                assert forall|j: int| 0 <= j < keys@.len() && j != i implies #[trigger]
                    self.by_type@[keys@[j]] == middle.by_type@[keys@[j]] by {
                    assert(keys@[j] != key);
                }
                assert(self.by_type@[keys@[i as int]].cells() == marked_cells(
                    middle.by_type@[keys@[i as int]].cells(),
                    mark_bits,
                ));
                if live_before == 0 {
                    assert forall|j: int| 0 <= j < i implies (
                    #[trigger] self.by_type@[keys@[j]]).cells() == Map::<u32, Cell<V>>::empty() by {
                        assert(self.by_type@[keys@[j]] == middle.by_type@[keys@[j]]);
                    }
                } else {
                    let j = choose|j: int|
                        0 <= j < i && (#[trigger] middle.by_type@[keys@[j]]).cells() != Map::<
                            u32,
                            Cell<V>,
                        >::empty();
                    assert(self.by_type@[keys@[j]] == middle.by_type@[keys@[j]]);
                }
            }
            i = i + 1;
        }
        proof {
            assert forall|key: u64| #[trigger] self.by_type@.dom().contains(key) implies
                self.by_type@[key].cells() == marked_cells(before.by_type@[key].cells(), mark_bits) by {
                assert(keys@.contains(key));
            }
            assert(self.cells() =~= marked_places(before.cells(), mark_bits));
            assert(self.generations() =~= before.generations());
            assert forall|type_index: u32| #[trigger] self.layouts().dom().contains(type_index) implies
                self.layouts()[type_index] == swept_types(
                before.layouts(),
                before.cells().dom(),
                self.cells().dom(),
            )[type_index] by {
                let key = type_index as u64;
                assert(keys@.contains(key));
                assert(addresses_in(before.cells().dom(), type_index)
                    =~= before.by_type@[key].cells().dom());
                assert(addresses_in(self.cells().dom(), type_index)
                    =~= self.by_type@[key].cells().dom());
            }
            assert(self.layouts() =~= swept_types(
                before.layouts(),
                before.cells().dom(),
                self.cells().dom(),
            ));
            if live_objects == 0 {
                assert forall|place: Place| !self.cells().dom().contains(place) by {
                    if self.cells().dom().contains(place) {
                        assert(keys@.contains(place.type_index as u64));
                    }
                }
                assert(self.cells() =~= Map::<Place, Cell<V>>::empty());
            } else {
                let j = choose|j: int|
                    0 <= j < keys@.len() && (#[trigger] self.by_type@[keys@[j]]).cells() != Map::<
                        u32,
                        Cell<V>,
                    >::empty();
                let cells = self.by_type@[keys@[j]].cells();
                let raw = choose|raw: u32| cells.dom().contains(raw);
                if forall|raw: u32| !cells.dom().contains(raw) {
                    assert(cells =~= Map::<u32, Cell<V>>::empty());
                }
                assert(keys@.contains(keys@[j]));
                let place = Place { type_index: keys@[j] as u32, raw };
                assert(self.cells().dom().contains(place));
            }
        }
        live_objects != 0
    }
}

} // verus!
