//! What storing values and counting their roots does.

use vstd::prelude::*;
use vstd::std_specs::convert::FromSpec;

use crate::any_ref::{Addr, AnyRef, CollectorThreadId};
use crate::bin_id::{bin_id, BinId, MAX_SLABS};
use crate::global::{GlobalCollector, GlobalView};
use crate::heap::{names, BinAddr};
use crate::layout::Layout;
use crate::reference::{
    after_release, can_number, can_store, is_next_ref, names_a, number_of, numbered, one_more,
    roots_changed, roots_of, stored, AnyRoot, Ref, Root,
};
use crate::slab::Cell;
use crate::trace::{AnyValue, Collectable};

verus! {

/// A reference names a place by its pool, its type and its slot.
pub proof fn law_references_name_places(a: AnyRef, b: AnyRef)
    ensures
        a.addr().thread == a.creating_thread.id,
        a.addr().type_index == a.type_index.index,
        a.addr().raw == a.bin_id.raw,
        a.addr() == b.addr() <==> a.creating_thread == b.creating_thread && a.type_index
            == b.type_index && a.bin_id == b.bin_id,
{
}

/// A reference names the value that is at its place, if that is of its generation.
/// It can be loaded as the type that the value is of.
pub proof fn law_references_name_values<T: Collectable<V>, V: AnyValue>(
    state: GlobalView<V>,
    any: AnyRef,
)
    ensures
        ({
            let place = Addr {
                thread: any.creating_thread.id,
                type_index: any.type_index.index,
                raw: any.bin_id.raw,
            };
            &&& names(state.cells, any) <==> state.cells.dom().contains(place)
                && state.cells[place].generation == any.slot_generation
            &&& names_a::<T, V>(state, any) <==> state.cells.dom().contains(place)
                && state.cells[place].generation == any.slot_generation
                && state.cells[place].value.type_key() == T::key()
            &&& roots_of(state, any) == state.cells[place].roots
        }),
{
}

/// Only the value at the place differs.
pub open spec fn same_elsewhere<V>(
    before: Map<Addr, Cell<V>>,
    after: Map<Addr, Cell<V>>,
    place: Addr,
) -> bool {
    forall|other: Addr|
        #![trigger before.dom().contains(other)]
        #![trigger after.dom().contains(other)]
        other != place ==> {
            &&& after.dom().contains(other) <==> before.dom().contains(other)
            &&& before.dom().contains(other) ==> after[other] == before[other]
        }
}

/// Storing adds the value at a place that was free, and changes no other value.
/// The guards, the handles, the collector and the time of the last collection stay
/// as they are.
pub proof fn law_storing_adds_one_value<V: AnyValue>(
    before: GlobalCollector<V>,
    after: GlobalView<V>,
    thread: CollectorThreadId,
    key: u64,
    any: AnyRef,
    cell: Cell<V>,
)
    requires
        is_next_ref(before, thread, key, any),
        after == stored(before, key, any, cell),
    ensures
        ({
            let place = Addr {
                thread: thread.id,
                type_index: any.type_index.index,
                raw: any.bin_id.raw,
            };
            &&& any.creating_thread.id == thread.id
            &&& !before@.cells.dom().contains(place)
            &&& after.cells.dom().contains(place)
            &&& after.cells[place] == cell
            &&& same_elsewhere(before@.cells, after.cells, place)
        }),
        after.collector == before@.collector,
        after.info.reader_state == before@.info.reader_state,
        after.info.last_run == before@.info.last_run,
        after.info.handles == before@.info.handles,
        after.info.next_thread_id == before@.info.next_thread_id,
{
}

/// A stored value gets the generation after that of the value that its slot held
/// last, and zero in a slot that is new. Other slots keep their generations; where
/// the slab is new, they begin with zero.
pub proof fn law_storing_counts_the_generation<V: AnyValue>(
    before: GlobalCollector<V>,
    after: GlobalView<V>,
    thread: CollectorThreadId,
    key: u64,
    any: AnyRef,
    cell: Cell<V>,
    other: Addr,
)
    requires
        is_next_ref(before, thread, key, any),
        cell.generation == any.slot_generation,
        after == stored(before, key, any, cell),
    ensures
        ({
            let place = any.addr();
            let used = before@.generations.dom().contains(place);
            let generation = before@.generations[place];
            &&& !used ==> any.slot_generation == 0
            &&& used && generation < u32::MAX ==> any.slot_generation == generation + 1
            &&& used && generation == u32::MAX ==> any.slot_generation == 0
            &&& after.generations.dom().contains(place)
            &&& after.generations[place] == any.slot_generation
            &&& other != place && before@.generations.dom().contains(other)
                ==> after.generations.dom().contains(other) && after.generations[other]
                == before@.generations[other]
            &&& after.generations.dom().contains(other) && !before@.generations.dom().contains(
                other,
            ) ==> other.thread == place.thread && other.type_index == place.type_index && other.raw
                / 256 == place.raw / 256 && after.generations[other] == 0
            &&& other.thread == place.thread && other.type_index == place.type_index && other.raw
                / 256 == place.raw / 256 ==> after.generations.dom().contains(other)
        }),
{
}

/// A type keeps its number, and a type without one gets the next: the count of the
/// types that have one. The value is stored under the number of its type.
pub proof fn law_storing_numbers_the_type<V: AnyValue>(
    before: GlobalCollector<V>,
    after: GlobalView<V>,
    thread: CollectorThreadId,
    key: u64,
    any: AnyRef,
    cell: Cell<V>,
    other: u64,
)
    requires
        before.wf(),
        can_number(before@, key),
        is_next_ref(before, thread, key, any),
        after == stored(before, key, any, cell),
    ensures
        after.info.types == numbered(before@, key).info.types,
        after.info.types.dom().contains(key),
        after.info.types[key] == any.type_index.index,
        before@.info.types.dom().contains(key) ==> any.type_index.index == before@.info.types[key],
        !before@.info.types.dom().contains(key) ==> any.type_index.index
            == before@.info.types.dom().len(),
        other != key ==> {
            &&& after.info.types.dom().contains(other) <==> before@.info.types.dom().contains(other)
            &&& before@.info.types.dom().contains(other) ==> after.info.types[other]
                == before@.info.types[other] && after.info.types[other] != any.type_index.index
        },
{
}

/// To give a type a number changes only that.
pub proof fn law_numbering_changes_nothing_else<V: AnyValue>(
    before: GlobalCollector<V>,
    key: u64,
    other: u64,
)
    requires
        before.wf(),
        can_number(before@, key),
    ensures
        ({
            let state = before@;
            let after = numbered(state, key);
            &&& after.cells == state.cells
            &&& after.generations == state.generations
            &&& after.layouts == state.layouts
            &&& after.collector == state.collector
            &&& after.info.reader_state == state.info.reader_state
            &&& after.info.last_run == state.info.last_run
            &&& after.info.signalled_collector == state.info.signalled_collector
            &&& after.info.handles == state.info.handles
            &&& after.info.next_thread_id == state.info.next_thread_id
            &&& after.info.types.dom().contains(key)
            &&& number_of(state, key).index == after.info.types[key]
            &&& state.info.types.dom().contains(key) ==> after.info.types[key]
                == state.info.types[key]
            &&& !state.info.types.dom().contains(key) ==> after.info.types[key]
                == state.info.types.dom().len()
            &&& other != key ==> {
                &&& after.info.types.dom().contains(other) <==> state.info.types.dom().contains(
                    other,
                )
                &&& state.info.types.dom().contains(other) ==> after.info.types[other]
                    == state.info.types[other] && after.info.types[other] != after.info.types[key]
            }
        }),
        can_number(before@, key) <==> before@.info.types.dom().contains(key)
            || before@.info.types.dom().len() < 0x1_0000_0000,
{
}

/// Storing takes the first of the freed slots, if there are any, and else the slot
/// after the last used one of its slab; a slab that is full is not used. Nothing
/// else of how the slots are used changes.
pub proof fn law_storing_takes_the_next_slot<V: AnyValue>(
    before: GlobalCollector<V>,
    after: GlobalView<V>,
    thread: CollectorThreadId,
    key: u64,
    any: AnyRef,
    cell: Cell<V>,
    other: BinAddr,
)
    requires
        before@.info.handles.dom().contains(thread.id as u64),
        is_next_ref(before, thread, key, any),
        after == stored(before, key, any, cell),
    ensures
        ({
            let bin = BinAddr { thread: thread.id, type_index: any.type_index.index };
            let slab = any.bin_id.raw as int / 256 - 1;
            let slot = any.bin_id.raw % 256;
            let known = before@.layouts.dom().contains(bin);
            let earlier = before@.layouts[bin];
            let later = after.layouts[bin];
            &&& after.layouts.dom().contains(bin)
            &&& other != bin ==> {
                &&& after.layouts.dom().contains(other) <==> before@.layouts.dom().contains(other)
                &&& after.layouts[other] == before@.layouts[other]
            }
            &&& !known ==> {
                &&& any.bin_id.raw == 256
                &&& later.free.len() == 0
                &&& later.used.len() == 1
                &&& later.used[0] == 0
                &&& later.first_free_slab == 0
            }
            &&& known && earlier.free.len() > 0 ==> {
                &&& any.bin_id.raw == earlier.free[0]
                &&& later.free.len() == earlier.free.len() - 1
                &&& forall|i: int| 0 <= i < later.free.len() ==> later.free[i] == earlier.free[i + 1]
                &&& later.first_free_slab == earlier.first_free_slab
            }
            &&& known && earlier.free.len() == 0 ==> {
                &&& later.free.len() == 0
                &&& 0 <= earlier.first_free_slab ==> 0 <= slab <= earlier.used.len()
                &&& slab < earlier.used.len() ==> slot == earlier.used[slab] + 1
                    && later.first_free_slab == slab
                &&& slab == earlier.used.len() ==> slot == 0 && later.first_free_slab
                    == earlier.first_free_slab
                &&& forall|i: int|
                    earlier.first_free_slab <= i < slab ==> #[trigger] earlier.used[i] == 255
            }
            &&& known && 0 <= slab < earlier.used.len() ==> {
                &&& later.used.len() == earlier.used.len()
                &&& later.used[slab] >= slot && later.used[slab] >= earlier.used[slab]
                &&& later.used[slab] == slot || later.used[slab] == earlier.used[slab]
                &&& forall|i: int|
                    0 <= i < later.used.len() && i != slab ==> later.used[i] == earlier.used[i]
            }
            &&& known && slab == earlier.used.len() ==> {
                &&& later.used.len() == earlier.used.len() + 1
                &&& later.used[slab] == 0
                &&& forall|i: int| 0 <= i < slab ==> later.used[i] == earlier.used[i]
            }
        }),
{
}

/// A bin has room as long as a slot is free, a slab can be added, or a slab from
/// the first one that is searched on is not used up; and only then.
pub proof fn law_bin_has_room(layout: Layout)
    ensures
        layout.free.len() > 0 ==> !layout.full(),
        layout.used.len() < 0xFF_FFFF ==> !layout.full(),
        forall|i: int|
            layout.first_free_slab <= i < layout.used.len() && #[trigger] layout.used[i] < 255
                ==> !layout.full(),
        layout.free.len() == 0 && layout.used.len() == 0xFF_FFFF && (forall|i: int|
            layout.first_free_slab <= i < layout.used.len() ==> #[trigger] layout.used[i] == 255)
            ==> layout.full(),
{
}

/// Another number of roots to one value changes nothing else.
pub open spec fn differs_in_roots<V>(
    before: GlobalView<V>,
    after: GlobalView<V>,
    place: Addr,
) -> bool {
    &&& after.cells.dom().contains(place)
    &&& after.cells[place].generation == before.cells[place].generation
    &&& after.cells[place].mark == before.cells[place].mark
    &&& after.cells[place].value == before.cells[place].value
    &&& same_elsewhere(before.cells, after.cells, place)
    &&& after.generations == before.generations
    &&& after.layouts == before.layouts
    &&& after.collector == before.collector
    &&& after.info.reader_state == before.info.reader_state
    &&& after.info.last_run == before.info.last_run
    &&& after.info.handles == before.info.handles
    &&& after.info.types == before.info.types
    &&& after.info.next_thread_id == before.info.next_thread_id
}

/// Another root to a value is counted: there is one more than before, up to the
/// largest count. No other value and no command is touched.
pub proof fn law_adding_a_root_counts_it<V: AnyValue>(
    before: GlobalCollector<V>,
    after: GlobalCollector<V>,
    any: AnyRef,
)
    requires
        names(before@.cells, any),
        roots_changed(before, after, any, one_more(roots_of(before@, any))),
    ensures
        before@.cells[any.addr()].roots < u64::MAX ==> after@.cells[any.addr()].roots
            == before@.cells[any.addr()].roots + 1,
        before@.cells[any.addr()].roots == u64::MAX ==> after@.cells[any.addr()].roots == 0,
        differs_in_roots(before@, after@, any.addr()),
        after@.info.signalled_collector == before@.info.signalled_collector,
        after.commands@ == before.commands@,
        names(after@.cells, any),
{
}

/// A root that is given up is not counted any more: there is one less than before.
/// The value stays where it is; no other value is touched.
pub proof fn law_giving_up_a_root_counts_it<V: AnyValue>(
    before: GlobalCollector<V>,
    after: GlobalCollector<V>,
    any: AnyRef,
)
    requires
        names(before@.cells, any),
        before@.cells[any.addr()].roots > 0,
        after_release(before, after, any),
    ensures
        after@.cells[any.addr()].roots == before@.cells[any.addr()].roots - 1,
        differs_in_roots(before@, after@, any.addr()),
        names(after@.cells, any),
{
}

/// There is room for another value of a type exactly if the type has a number or can
/// get one, and its slots in the pool are not used up.
pub proof fn law_room_follows_layout<V: AnyValue>(
    global: GlobalCollector<V>,
    thread: CollectorThreadId,
    key: u64,
)
    requires
        global.wf(),
        global@.info.handles.dom().contains(thread.id as u64),
    ensures
        ({
            let number = number_of(global@, key).index;
            let bin = BinAddr { thread: thread.id, type_index: number };
            let layout = global@.layouts[bin];
            can_store(global, thread, key) <==> can_number(global@, key) && (
            global@.layouts.dom().contains(bin) ==> layout.free.len() > 0 || layout.used.len()
                != 0xFF_FFFF || exists|i: int|
                layout.first_free_slab <= i < layout.used.len() && #[trigger] layout.used[i] != 255)
        }),
{
    let number = number_of(global@, key).index;
    let bin = BinAddr { thread: thread.id, type_index: number };
    let bins = global.info.all_threads.bins(thread);
    if global@.layouts.dom().contains(bin) {
        let layout = global@.layouts[bin];
        assert(layout == bins.by_type@[number as u64].layout());
        let slabs = bins.by_type@[number as u64].slabs;
        assert(layout.used == slabs.used());
        assert forall|i: int| 0 <= i < layout.used.len() implies #[trigger] layout.used[i]
            == slabs.slabs@[i].last_allocated by {}
    }
}

/// A root is valid if it is one of the roots to the value that it holds.
pub proof fn law_valid_roots<T: Collectable<V>, V: AnyValue>(
    state: GlobalView<V>,
    root: Root<T, V>,
    untyped: AnyRoot<V>,
)
    ensures
        root.valid(state) <==> {
            &&& names(state.cells, root.reference.any)
            &&& state.cells[root.reference.any.addr()].roots > 0
            &&& state.cells[root.reference.any.addr()].value == *root.data
            &&& root.data.type_key() == T::key()
        },
        untyped.valid(state) <==> {
            &&& names(state.cells, untyped.any)
            &&& state.cells[untyped.any.addr()].roots > 0
            &&& state.cells[untyped.any.addr()].value == *untyped.value
        },
{
}

/// A reference converts to the untyped reference to the same value, and a root to an
/// untyped root to it.
pub proof fn law_conversions_keep_the_value<T, V>(any: AnyRef, reference: Ref<T>, root: Root<T, V>)
    ensures
        <AnyRef as FromSpec<&AnyRef>>::obeys_from_spec(),
        <AnyRef as FromSpec<&AnyRef>>::from_spec(&any) == any,
        <AnyRef as FromSpec<&Ref<T>>>::obeys_from_spec(),
        <AnyRef as FromSpec<&Ref<T>>>::from_spec(&reference) == reference.any,
        <AnyRef as FromSpec<Ref<T>>>::obeys_from_spec(),
        <AnyRef as FromSpec<Ref<T>>>::from_spec(reference) == reference.any,
        <AnyRef as FromSpec<&Root<T, V>>>::obeys_from_spec(),
        <AnyRef as FromSpec<&Root<T, V>>>::from_spec(&root) == root.reference.any,
        <AnyRoot<V> as FromSpec<Root<T, V>>>::obeys_from_spec(),
        <AnyRoot<V> as FromSpec<Root<T, V>>>::from_spec(root).any == root.reference.any,
        <AnyRoot<V> as FromSpec<Root<T, V>>>::from_spec(root).value == root.data,
{
}

/// Every slot of every slab has an address of its own, and none has the address
/// zero.
pub proof fn law_slots_have_their_own_address(slab: int, slot: int, id: BinId)
    requires
        0 <= slab < MAX_SLABS,
        0 <= slot < 256,
    ensures
        bin_id(slab, slot).raw == 256 * (slab + 1) + slot,
        bin_id(slab, slot).slab_index() == slab,
        bin_id(slab, slot).slot_index() == slot,
        id.slab_index() == slab && id.slot_index() == slot ==> id == bin_id(slab, slot),
        MAX_SLABS == 0xFF_FFFF,
{
}

} // verus!
