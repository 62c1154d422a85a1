//! What a collection keeps, and what the collector does when it is asked.

use vstd::prelude::*;

use crate::any_ref::{Addr, AnyRef, CollectorThreadId};
use crate::bin_id::bin_id;
use crate::collector::{occupied, CollectionTimes};
use crate::command::CollectorCommand;
use crate::global::{
    accepted, after_collection, after_command, after_commands, after_request, GlobalView,
};
use crate::guard::{collected_unlocked, with_readers};
use crate::guard_laws::same_but_guards;
use crate::heap::{addresses_of, names, BinAddr};
use crate::laws::{
    law_collection_keeps_reachable, law_request_collects, law_request_drops_unreachable_values,
    law_request_keeps_reachable_values,
};
use crate::layout::{is_last_slot, law_swept_layout};
use crate::mark::with_reachable_marked;
use crate::reach::{
    lemma_reachable_least, lemma_reachable_step, lemma_rooted_reachable, points_to, reachable, rooted,
};
use crate::slab::Cell;
use crate::trace::AnyValue;

verus! {

/// The value is there after as it was before, but for its mark.
pub open spec fn value_stays<V>(
    before: Map<Addr, Cell<V>>,
    after: Map<Addr, Cell<V>>,
    addr: Addr,
) -> bool {
    &&& after.dom().contains(addr)
    &&& after[addr].generation == before[addr].generation
    &&& after[addr].roots == before[addr].roots
    &&& after[addr].value == before[addr].value
}

/// A collection keeps every value that has a root.
pub proof fn law_collection_keeps_rooted_values<V: AnyValue>(
    state: GlobalView<V>,
    times: CollectionTimes,
    addr: Addr,
)
    requires
        state.cells.dom().contains(addr),
        state.cells[addr].roots > 0,
    ensures
        value_stays(state.cells, after_collection(state, times).cells, addr),
{
    lemma_rooted_reachable(state.cells, addr);
    law_collection_keeps_reachable(state, times, addr);
}

/// A collection keeps every value that a value it keeps holds a reference to.
pub proof fn law_collection_keeps_held_values<V: AnyValue>(
    state: GlobalView<V>,
    times: CollectionTimes,
    from: Addr,
    held: AnyRef,
)
    requires
        after_collection(state, times).cells.dom().contains(from),
        state.cells[from].value.any_references().contains(held),
        state.cells.dom().contains(held.addr()),
        state.cells[held.addr()].generation == held.slot_generation,
    ensures
        value_stays(state.cells, after_collection(state, times).cells, held.addr()),
{
    law_collection_keeps_reachable(state, times, from);
    assert(points_to(state.cells, from, held.addr()));
    lemma_reachable_step(state.cells, from, held.addr());
    law_collection_keeps_reachable(state, times, held.addr());
}

/// A collection keeps nothing else: it keeps only values that are in every set that
/// has the values with roots and, with a value, those that it holds references to.
pub proof fn law_collection_keeps_nothing_else<V: AnyValue>(
    state: GlobalView<V>,
    times: CollectionTimes,
    needed: Set<Addr>,
    addr: Addr,
)
    requires
        forall|a: Addr| #[trigger]
            state.cells.dom().contains(a) && state.cells[a].roots > 0 ==> needed.contains(a),
        forall|a: Addr, held: AnyRef|
            needed.contains(a) && #[trigger] state.cells[a].value.any_references().contains(held)
                && state.cells.dom().contains(held.addr())
                && state.cells[held.addr()].generation == held.slot_generation ==> needed.contains(
                held.addr(),
            ),
        after_collection(state, times).cells.dom().contains(addr),
    ensures
        needed.contains(addr),
        state.cells.dom().contains(addr),
{
    law_collection_keeps_reachable(state, times, addr);
    assert forall|a: Addr, b: Addr|
        needed.contains(a) && #[trigger] points_to(state.cells, a, b) implies needed.contains(b) by {
        let any = choose|any: AnyRef| #[trigger]
            state.cells[a].value.any_references().contains(any) && names(
                state.cells,
                any,
            ) && any.addr() == b;
        assert(state.cells[a].value.any_references().contains(any));
    }
    lemma_reachable_least(state.cells, needed, addr);
}

/// A collection marks every value that it keeps, with the same mark.
pub proof fn law_collection_marks_what_it_keeps<V: AnyValue>(
    state: GlobalView<V>,
    times: CollectionTimes,
    addr: Addr,
)
    requires
        after_collection(state, times).cells.dom().contains(addr),
    ensures
        after_collection(state, times).cells[addr].mark != 0,
        after_collection(state, times).cells[addr].mark == after_collection(
            state,
            times,
        ).collector.mark_bits,
{
}

/// There is a value in the pool.
pub open spec fn has_values<V>(cells: Map<Addr, Cell<V>>, pool: u64) -> bool {
    exists|addr: Addr| addr.thread == pool && #[trigger] cells.dom().contains(addr)
}

/// A pool is gone after a collection if the collector knows that it has no handle
/// and no value of it was kept.
pub open spec fn goes_away<V>(before: GlobalView<V>, after: GlobalView<V>, pool: u64) -> bool {
    &&& before.collector.threads.dom().contains(pool)
    &&& !before.collector.threads[pool]
    &&& !has_values(after.cells, pool)
}

/// A collection removes the pools that have neither handles nor values, with their
/// slots, and no others.
pub proof fn law_collection_removes_empty_pools<V: AnyValue>(
    state: GlobalView<V>,
    times: CollectionTimes,
    pool: u64,
    addr: Addr,
    bin: BinAddr,
)
    ensures
        ({
            let after = after_collection(state, times);
            &&& after.info.handles.dom().contains(pool) <==> state.info.handles.dom().contains(pool)
                && !goes_away(state, after, pool)
            &&& after.info.handles.dom().contains(pool) ==> after.info.handles[pool]
                == state.info.handles[pool]
            &&& after.collector.threads.dom().contains(pool)
                <==> state.collector.threads.dom().contains(pool) && !goes_away(state, after, pool)
            &&& after.collector.threads.dom().contains(pool) ==> after.collector.threads[pool]
                == state.collector.threads[pool]
            &&& after.generations.dom().contains(addr) <==> state.generations.dom().contains(addr)
                && !goes_away(state, after, addr.thread as u64)
            &&& after.generations.dom().contains(addr) ==> after.generations[addr]
                == state.generations[addr]
            &&& after.layouts.dom().contains(bin) <==> state.layouts.dom().contains(bin)
                && !goes_away(state, after, bin.thread as u64)
        }),
{
    let after = after_collection(state, times);
    assert(has_values(after.cells, pool) == occupied(after.cells, pool));
    assert(has_values(after.cells, addr.thread as u64) == occupied(
        after.cells,
        addr.thread as u64,
    ));
    assert(has_values(after.cells, bin.thread as u64) == occupied(
        after.cells,
        bin.thread as u64,
    ));
}

/// The slots of the bin that a collection freed.
pub open spec fn was_freed<V>(
    before: GlobalView<V>,
    after: GlobalView<V>,
    bin: BinAddr,
    raw: u32,
) -> bool {
    let addr = Addr { thread: bin.thread, type_index: bin.type_index, raw };
    before.cells.dom().contains(addr) && !after.cells.dom().contains(addr)
}

/// A collection puts the slots that it freed, from the highest to the lowest, in
/// front of those that were free before.
pub proof fn law_collection_frees_slots<V: AnyValue>(
    state: GlobalView<V>,
    times: CollectionTimes,
    bin: BinAddr,
)
    requires
        after_collection(state, times).layouts.dom().contains(bin),
    ensures
        ({
            let after = after_collection(state, times);
            let free = after.layouts[bin].free;
            let earlier = state.layouts[bin].free;
            let added = free.len() - earlier.len();
            &&& added >= 0
            &&& forall|i: int|
                added <= i < free.len() ==> #[trigger] free[i] == earlier[i - added]
            &&& forall|i: int, j: int| 0 <= i < j < added ==> free[i] > free[j]
            &&& forall|i: int|
                0 <= i < added ==> was_freed(state, after, bin, #[trigger] free[i])
            &&& forall|raw: u32| #[trigger]
                was_freed(state, after, bin, raw) ==> free.take(added).contains(raw)
        }),
{
    let after = after_collection(state, times);
    let before_layout = state.layouts[bin];
    let layout = after.layouts[bin];
    let held = addresses_of(state.cells.dom(), bin);
    let kept = addresses_of(after.cells.dom(), bin);
    law_swept_layout(before_layout, layout, held, kept);
    let added = layout.free.len() - before_layout.free.len();
    assert forall|i: int| added <= i < layout.free.len() implies #[trigger] layout.free[i]
        == before_layout.free[i - added] by {
        assert(layout.free.skip(added)[i - added] == layout.free[i]);
    }
    assert forall|i: int| 0 <= i < added implies was_freed(
        state,
        after,
        bin,
        #[trigger] layout.free[i],
    ) by {
        assert(layout.free.take(added)[i] == layout.free[i]);
        assert(layout.free.take(added).contains(layout.free[i]));
    }
    assert forall|raw: u32| #[trigger] was_freed(state, after, bin, raw) implies layout.free.take(
        added,
    ).contains(raw) by {
        assert(held.contains(raw) && !kept.contains(raw));
    }
}

/// The value in the slot of the slab of the bin was kept.
pub open spec fn was_kept<V>(after: GlobalView<V>, bin: BinAddr, slab: int, slot: int) -> bool {
    after.cells.dom().contains(
        Addr {
            thread: bin.thread,
            type_index: bin.type_index,
            raw: ((slab + 1) * 256 + slot) as u32,
        },
    )
}

/// After a collection each slab ends with the last value that was kept in it, or
/// with its first slot. There are as many slabs as before.
pub proof fn law_collection_shortens_slabs<V: AnyValue>(
    state: GlobalView<V>,
    times: CollectionTimes,
    bin: BinAddr,
    slab: int,
)
    requires
        after_collection(state, times).layouts.dom().contains(bin),
        0 <= slab < state.layouts[bin].used.len(),
    ensures
        ({
            let after = after_collection(state, times);
            let used = after.layouts[bin].used;
            let earlier = state.layouts[bin].used;
            &&& used.len() == earlier.len()
            &&& used[slab] <= earlier[slab]
            &&& used[slab] > 0 ==> was_kept(after, bin, slab, used[slab] as int)
            &&& forall|slot: int|
                used[slab] < slot <= earlier[slab] ==> !#[trigger] was_kept(after, bin, slab, slot)
            &&& after.layouts[bin].first_free_slab == state.layouts[bin].first_free_slab
        }),
{
    let after = after_collection(state, times);
    let held = addresses_of(state.cells.dom(), bin);
    let kept = addresses_of(after.cells.dom(), bin);
    let used = after.layouts[bin].used;
    law_swept_layout(state.layouts[bin], after.layouts[bin], held, kept);
    assert(is_last_slot(kept, slab, state.layouts[bin].used[slab], used[slab]));
    assert forall|slot: int| used[slab] < slot <= state.layouts[bin].used[slab] implies !#[trigger] was_kept(
        after,
        bin,
        slab,
        slot,
    ) by {
        assert(!kept.contains(bin_id(slab, slot).raw));
    }
}

/// A new pool becomes known, with a handle. Nothing else changes.
pub proof fn law_new_pools_become_known<V: AnyValue>(
    state: GlobalView<V>,
    thread: CollectorThreadId,
    now: u64,
    other: u64,
)
    ensures
        ({
            let after = accepted(state, CollectorCommand::NewThread(thread), now);
            let id = thread.id as u64;
            &&& after.collector.threads.dom().contains(id) && after.collector.threads[id]
            &&& other != id ==> {
                &&& after.collector.threads.dom().contains(other)
                    <==> state.collector.threads.dom().contains(other)
                &&& after.collector.threads[other] == state.collector.threads[other]
            }
            &&& after.collector.active_threads == state.collector.active_threads + 1
            &&& after.collector.mark_bits == state.collector.mark_bits
            &&& after.collector.next_gc == state.collector.next_gc
            &&& after.collector.pause_failures == state.collector.pause_failures
            &&& after.collector.average_collection == state.collector.average_collection
            &&& after.collector.average_collection_locking
                == state.collector.average_collection_locking
            &&& after.info == state.info
            &&& after.cells == state.cells
            &&& after.generations == state.generations
            &&& after.layouts == state.layouts
        }),
{
}

/// Nothing needs the values any more: the last pool with a handle loses it, there
/// are no readers and no value has a root.
pub open spec fn nothing_is_needed<V>(state: GlobalView<V>) -> bool {
    &&& state.collector.active_threads == 1
    &&& state.info.reader_state.readers == 0
    &&& forall|addr: Addr| #[trigger]
        state.cells.dom().contains(addr) ==> state.cells[addr].roots == 0
}

/// When a pool has lost its last handle, that is noted. If then nothing needs the
/// values of the known pools, they are dropped and the pools are forgotten; else
/// every value stays.
pub proof fn law_pools_are_shut_down<V: AnyValue>(
    state: GlobalView<V>,
    thread: CollectorThreadId,
    now: u64,
    addr: Addr,
    other: u64,
)
    requires
        state.collector.active_threads > 0,
    ensures
        ({
            let after = accepted(state, CollectorCommand::ThreadShutdown(thread), now);
            let id = thread.id as u64;
            let forget = nothing_is_needed(state);
            &&& forget ==> !after.collector.threads.dom().contains(other)
            &&& forget ==> (after.cells.dom().contains(addr) <==> state.cells.dom().contains(addr)
                && !state.collector.threads.dom().contains(addr.thread as u64))
            &&& !forget ==> after.collector.threads.dom().contains(id)
                && !after.collector.threads[id]
            &&& !forget && other != id ==> {
                &&& after.collector.threads.dom().contains(other)
                    <==> state.collector.threads.dom().contains(other)
                &&& after.collector.threads[other] == state.collector.threads[other]
            }
            &&& !forget ==> after.cells == state.cells && after.generations == state.generations
                && after.layouts == state.layouts
            &&& after.cells.dom().contains(addr) ==> after.cells[addr] == state.cells[addr]
            &&& after.collector.active_threads == state.collector.active_threads - 1
            &&& after.collector.mark_bits == state.collector.mark_bits
            &&& after.collector.next_gc == state.collector.next_gc
            &&& after.collector.pause_failures == state.collector.pause_failures
            &&& after.collector.average_collection == state.collector.average_collection
            &&& after.collector.average_collection_locking
                == state.collector.average_collection_locking
            &&& after.info == state.info
        }),
{
    if nothing_is_needed(state) {
        assert forall|a: Addr| !(#[trigger] rooted(state.cells, a)) by {}
    } else if state.collector.active_threads == 1 && state.info.reader_state.readers == 0 {
        let a = choose|a: Addr| #[trigger] state.cells.dom().contains(a) && state.cells[a].roots != 0;
        assert(rooted(state.cells, a));
    }
}

/// Commands are carried out one after the other, in their order.
pub proof fn law_commands_are_carried_out_in_order<V: AnyValue>(
    state: GlobalView<V>,
    first: Seq<CollectorCommand>,
    second: Seq<CollectorCommand>,
    command: CollectorCommand,
    times: CollectionTimes,
)
    ensures
        after_commands(state, Seq::<CollectorCommand>::empty(), times) == state,
        after_commands(state, seq![command], times) == after_command(state, command, times),
        after_commands(state, first + second, times) == after_commands(
            after_commands(state, first, times),
            second,
            times,
        ),
    decreases first.len(),
{
    reveal_with_fuel(after_commands, 2);
    assert(seq![command].skip(1) =~= Seq::<CollectorCommand>::empty());
    if first.len() > 0 {
        let all = first + second;
        assert(all[0] == first[0]);
        assert(all.skip(1) =~= first.skip(1) + second);
        law_commands_are_carried_out_in_order(
            after_command(state, first[0], times),
            first.skip(1),
            second,
            command,
            times,
        );
    } else {
        assert(first + second =~= second);
    }
}

/// A request to collect is carried out with a collection, if none has finished
/// since it was made; every other command without one.
pub proof fn law_requests_are_served<V: AnyValue>(
    state: GlobalView<V>,
    command: CollectorCommand,
    times: CollectionTimes,
)
    ensures
        !(command is Collect) ==> after_command(state, command, times) == accepted(
            state,
            command,
            times.gc_start,
        ),
        command is Collect && state.info.last_run >= command->Collect_0 ==> after_command(
            state,
            command,
            times,
        ) == state,
        command is Collect && state.info.last_run < command->Collect_0 ==> after_command(
            state,
            command,
            times,
        ) == after_collection(state, times),
{
}

/// A request is served after the commands before it. A collection that was
/// announced is carried out before that.
pub proof fn law_request_comes_last<V: AnyValue>(
    state: GlobalView<V>,
    commands: Seq<CollectorCommand>,
    now: u64,
    times: CollectionTimes,
)
    ensures
        ({
            let ready = if state.info.reader_state.collecting {
                after_collection(state, times)
            } else {
                state
            };
            let served = after_commands(ready, commands, times);
            &&& served.info.last_run < now ==> after_request(state, commands, now, times)
                == after_collection(served, times)
            &&& served.info.last_run >= now ==> after_request(state, commands, now, times) == served
        }),
{
    let ready = if state.info.reader_state.collecting {
        after_collection(state, times)
    } else {
        state
    };
    law_request_collects(ready, commands, now, times);
}

/// A guard that is released for a requested collection is held again after it.
/// What can be reached from a root stays, and nothing else if a collection was
/// needed.
pub proof fn law_collecting_releases_the_guard<V: AnyValue>(
    state: GlobalView<V>,
    commands: Seq<CollectorCommand>,
    now: u64,
    times: CollectionTimes,
    addr: Addr,
)
    requires
        state.info.reader_state.readers == 1,
    ensures
        ({
            let after = collected_unlocked(state, commands, now, times);
            let released = with_readers(state, 0);
            &&& after.info.reader_state.readers == 1
            &&& released.cells == state.cells
            &&& reachable(state.cells, addr) ==> value_stays(
                state.cells,
                after.cells,
                addr,
            )
            &&& !state.info.reader_state.collecting && state.info.last_run < now && (forall|i: int|
                0 <= i < commands.len() ==> !(#[trigger] commands[i] is Collect)) ==> (
            after.cells.dom().contains(addr) <==> reachable(
                after_commands(released, commands, times).cells,
                addr,
            ))
        }),
{
    let released = with_readers(state, 0);
    if reachable(state.cells, addr) {
        law_request_keeps_reachable_values(released, commands, now, times, addr);
    }
    if !state.info.reader_state.collecting && state.info.last_run < now && (forall|i: int|
        0 <= i < commands.len() ==> !(#[trigger] commands[i] is Collect)) {
        law_request_drops_unreachable_values(released, commands, now, times, addr);
    }
}

/// A guard that is released for a requested collection changes nothing of what the
/// collection does.
pub proof fn law_released_guard_only_counts_as_reader<V: AnyValue>(
    state: GlobalView<V>,
    commands: Seq<CollectorCommand>,
    now: u64,
    times: CollectionTimes,
)
    ensures
        ({
            let released = with_readers(state, 0);
            let served = after_request(released, commands, now, times);
            let after = collected_unlocked(state, commands, now, times);
            &&& released.info.reader_state.readers == 0
            &&& released.info.handles == state.info.handles
            &&& same_but_guards(state, released)
            &&& after.info.reader_state.readers == 1
            &&& after.info.handles == served.info.handles
            &&& same_but_guards(served, after)
            &&& now <= times.gc_finish ==> after.info.last_run >= now
        }),
{
    let released = with_readers(state, 0);
    law_request_comes_last(released, commands, now, times);
}

/// Marking marks the values that can be reached, and changes nothing else.
pub proof fn law_marking_marks_what_is_reachable<V: AnyValue>(
    cells: Map<Addr, Cell<V>>,
    mark_bits: u8,
    addr: Addr,
)
    ensures
        ({
            let marked = with_reachable_marked(cells, mark_bits);
            &&& marked.dom().contains(addr) <==> cells.dom().contains(addr)
            &&& cells.dom().contains(addr) ==> {
                &&& marked[addr].generation == cells[addr].generation
                &&& marked[addr].roots == cells[addr].roots
                &&& marked[addr].value == cells[addr].value
                &&& reachable(cells, addr) ==> marked[addr].mark == mark_bits
                &&& !reachable(cells, addr) ==> marked[addr].mark == cells[addr].mark
            }
        }),
{
}

} // verus!
