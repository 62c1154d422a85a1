//! What holds of the collector as a whole.

use vstd::prelude::*;

use crate::any_ref::{Addr, AnyRef, CollectorThreadId};
use crate::bin::Bin;
use crate::bin_id::MAX_SLABS;
use crate::collector::{
    alive_of, collected, info_finished, next_mark, occupied, CollectResult, CollectionTimes,
};
use crate::command::{
    alive_after, alive_at_end, known_after, lemma_alive_source, lemma_command_added, CollectorCommand,
};
use crate::global::{
    accepted, after_collection, after_command, after_commands, after_request, asks_to_collect,
    commands_ok, lemma_accepted_ok, lemma_after_command_ok, lemma_collection_ok, state_ok,
    with_handles, GlobalCollector, GlobalView,
};
use crate::guard::{handle_count, with_handle_count, with_readers, with_thread_guard};
use crate::heap::{addresses_of, names, next_generation, with_generation, BinAddr};
use crate::info::{waits_for, InfoView};
use crate::layout::law_swept_layout;
use crate::reach::{
    is_path, lemma_reachable_exists, lemma_reachable_step, lemma_rooted_reachable, points_to,
    reachable, rooted,
};
use crate::reference::{
    can_number, can_store, is_next_ref, names_a, number_of, one_more, roots_of, stored, with_roots,
};
use crate::slab::Cell;
use crate::trace::{AnyValue, Collectable, MapTarget};
use crate::type_index::{type_room, with_type, TypeIndexes};

verus! {

/// Two values are the same but for their marks.
pub open spec fn same_value<V>(a: Cell<V>, b: Cell<V>) -> bool {
    a == (Cell { mark: a.mark, ..b })
}

/// A collection keeps exactly the values that can be reached from a root, in
/// whatever pool the root is. They stay where they are and as they are.
pub proof fn law_collection_keeps_reachable<V: AnyValue>(
    state: GlobalView<V>,
    times: CollectionTimes,
    addr: Addr,
)
    ensures
        after_collection(state, times).cells.dom().contains(addr) <==> reachable(
            state.cells,
            addr,
        ),
        reachable(state.cells, addr) ==> same_value(
            after_collection(state, times).cells[addr],
            state.cells[addr],
        ),
{
    if reachable(state.cells, addr) {
        lemma_reachable_exists(state.cells, addr);
    }
}

/// A value that has a root can be reached, and so can every value that a
/// reachable value holds a reference to.
pub proof fn law_held_references_are_reachable<T: Collectable<V>, V: AnyValue>(
    cells: Map<Addr, Cell<V>>,
    from: Addr,
    value: T,
    held: AnyRef,
)
    requires
        cells.dom().contains(from),
        cells[from].roots > 0 || reachable(cells, from),
        cells[from].value == value.erased(),
        value.references().contains(held),
        names(cells, held),
    ensures
        reachable(cells, from),
        reachable(cells, held.addr()),
{
    if cells[from].roots > 0 {
        lemma_rooted_reachable(cells, from);
    }
    value.lemma_erased();
    assert(points_to(cells, from, held.addr()));
    lemma_reachable_step(cells, from, held.addr());
}

/// References between reachable values survive a collection.
proof fn lemma_edge_survives<V: AnyValue>(
    cells: Map<Addr, Cell<V>>,
    mark_bits: u8,
    from: Addr,
    to: Addr,
)
    requires
        reachable(cells, from),
        reachable(collected(cells, mark_bits), from),
        points_to(cells, from, to),
    ensures
        reachable(cells, to),
        reachable(collected(cells, mark_bits), to),
{
    let once = collected(cells, mark_bits);
    let any = choose|any: AnyRef| #[trigger]
        cells[from].value.any_references().contains(any) && names(cells, any) && any.addr() == to;
    lemma_reachable_exists(cells, from);
    lemma_reachable_step(cells, from, to);
    lemma_reachable_exists(cells, to);
    assert(once[from].value == cells[from].value);
    assert(names(once, any));
    assert(points_to(once, from, to)) by {
        assert(once[from].value.any_references().contains(any));
    }
    lemma_reachable_step(once, from, to);
}

proof fn lemma_path_survives<V: AnyValue>(
    cells: Map<Addr, Cell<V>>,
    mark_bits: u8,
    path: Seq<Addr>,
    i: int,
)
    requires
        is_path(cells, path),
        0 <= i < path.len(),
    ensures
        reachable(cells, path[i]),
        reachable(collected(cells, mark_bits), path[i]),
    decreases i,
{
    if i > 0 {
        lemma_path_survives(cells, mark_bits, path, i - 1);
        assert(points_to(cells, path[i - 1], path[i]));
        lemma_edge_survives(cells, mark_bits, path[i - 1], path[i]);
    } else {
        lemma_rooted_reachable(cells, path[0]);
        assert(rooted(collected(cells, mark_bits), path[0]));
        lemma_rooted_reachable(collected(cells, mark_bits), path[0]);
    }
}

/// What is reachable before a collection is reachable after it.
proof fn lemma_reachable_survives<V: AnyValue>(
    cells: Map<Addr, Cell<V>>,
    mark_bits: u8,
    addr: Addr,
)
    requires
        reachable(cells, addr),
    ensures
        reachable(collected(cells, mark_bits), addr),
{
    let path = choose|path: Seq<Addr>| #[trigger]
        is_path(cells, path) && path.last() == addr;
    lemma_path_survives(cells, mark_bits, path, path.len() - 1);
}

/// What survives a collection is still reachable: another collection right
/// after it drops nothing.
pub proof fn law_collection_is_complete<V: AnyValue>(
    cells: Map<Addr, Cell<V>>,
    mark_bits: u8,
    next_bits: u8,
    addr: Addr,
)
    ensures
        ({
            let once = collected(cells, mark_bits);
            let twice = collected(once, next_bits);
            &&& twice.dom().contains(addr) <==> once.dom().contains(addr)
            &&& once.dom().contains(addr) ==> same_value(twice[addr], once[addr])
        }),
{
    let once = collected(cells, mark_bits);
    if once.dom().contains(addr) {
        lemma_reachable_survives(cells, mark_bits, addr);
    }
}

/// Carrying out the commands and then a request to collect is carrying out the
/// commands and then collecting, unless a collection has finished since the
/// request was made.
pub proof fn law_request_collects<V: AnyValue>(
    state: GlobalView<V>,
    commands: Seq<CollectorCommand>,
    now: u64,
    times: CollectionTimes,
)
    ensures
        after_commands(state, commands.push(CollectorCommand::Collect(now)), times) == ({
            let before = after_commands(state, commands, times);
            if before.info.last_run < now {
                after_collection(before, times)
            } else {
                before
            }
        }),
    decreases commands.len(),
{
    reveal_with_fuel(after_commands, 2);
    let command = CollectorCommand::Collect(now);
    let all = commands.push(command);
    if commands.len() > 0 {
        assert(all.skip(1) =~= commands.skip(1).push(command));
        law_request_collects(
            after_command(state, commands[0], times),
            commands.skip(1),
            now,
            times,
        );
    } else {
        assert(all[0] == command);
        assert(all.skip(1) =~= Seq::<CollectorCommand>::empty());
        assert(commands =~= Seq::<CollectorCommand>::empty());
    }
}

/// An attempt at a collection, and when it was over.
pub ghost struct Attempt {
    pub result: CollectResult,
    pub gc_finish: u64,
}

/// What the threads see after the attempts, one after the other.
pub open spec fn after_attempts(info: InfoView, attempts: Seq<Attempt>) -> InfoView
    decreases attempts.len(),
{
    if attempts.len() > 0 {
        info_finished(
            after_attempts(info, attempts.drop_last()),
            attempts.last().result,
            attempts.last().gc_finish,
        )
    } else {
        info
    }
}

/// A request that has to be waited for is waited for until a collection has run
/// and finished since it was made, however many attempts fail before that because
/// a thread holds a guard. Then it is not waited for any more.
///
/// The clock does not go backwards.
pub proof fn law_request_waits_for_a_collection(
    info: InfoView,
    attempts: Seq<Attempt>,
    requested_at: u64,
)
    requires
        waits_for(info, requested_at),
        forall|i: int, j: int|
            0 <= i <= j < attempts.len() ==> (#[trigger] attempts[i]).gc_finish <= (
            #[trigger] attempts[j]).gc_finish,
    ensures
        waits_for(after_attempts(info, attempts), requested_at) <==> (forall|i: int|
            0 <= i < attempts.len() && (#[trigger] attempts[i]).result == CollectResult::Collected
                ==> attempts[i].gc_finish < requested_at),
        attempts.len() > 0 ==> !after_attempts(info, attempts).reader_state.collecting,
    decreases attempts.len(),
{
    if attempts.len() > 0 {
        let earlier = attempts.drop_last();
        let last = attempts.last();
        assert forall|i: int, j: int| 0 <= i <= j < earlier.len() implies (
        #[trigger] earlier[i]).gc_finish <= (#[trigger] earlier[j]).gc_finish by {
            assert(earlier[i] == attempts[i] && earlier[j] == attempts[j]);
        }
        law_request_waits_for_a_collection(info, earlier, requested_at);
        let done = |all: Seq<Attempt>|
            forall|i: int|
                0 <= i < all.len() && (#[trigger] all[i]).result == CollectResult::Collected
                    ==> all[i].gc_finish < requested_at;
        assert(done(attempts) == (done(earlier) && (last.result == CollectResult::Collected
            ==> last.gc_finish < requested_at))) by {
            if done(attempts) {
                assert forall|i: int|
                    0 <= i < earlier.len() && (#[trigger] earlier[i]).result
                        == CollectResult::Collected implies earlier[i].gc_finish < requested_at by {
                    assert(earlier[i] == attempts[i]);
                }
                assert(attempts[attempts.len() - 1] == last);
            }
            if done(earlier) && (last.result == CollectResult::Collected ==> last.gc_finish
                < requested_at) {
                assert forall|i: int|
                    0 <= i < attempts.len() && (#[trigger] attempts[i]).result
                        == CollectResult::Collected implies attempts[i].gc_finish < requested_at by {
                    if i < earlier.len() {
                        assert(earlier[i] == attempts[i]);
                    }
                }
            }
        }
        if last.result == CollectResult::Collected && last.gc_finish < requested_at && !done(earlier) {
            let i = choose|i: int|
                0 <= i < earlier.len() && (#[trigger] earlier[i]).result == CollectResult::Collected
                    && earlier[i].gc_finish >= requested_at;
            assert(earlier[i] == attempts[i]);
            assert(attempts[attempts.len() - 1] == last);
        }
    }
}

/// A pool stays as long as it has a handle or holds a value. After that, a
/// collection removes it.
pub proof fn law_pools_stay_while_needed<V: AnyValue>(
    state: GlobalView<V>,
    commands: Seq<CollectorCommand>,
    times: CollectionTimes,
    thread: CollectorThreadId,
)
    requires
        state_ok(state),
        commands_ok(state, commands),
        state.info.handles.dom().contains(thread.id as u64),
    ensures
        ({
            let id = thread.id as u64;
            let after = after_collection(state, times);
            &&& handle_count(state, thread) > 0 || occupied(after.cells, id)
                ==> after.info.handles.dom().contains(id)
            &&& state.collector.threads.dom().contains(id) && handle_count(state, thread) == 0
                && !state.collector.threads[id] && !occupied(after.cells, id)
                ==> !after.info.handles.dom().contains(id)
        }),
{
    lemma_collection_ok(state, commands, times);
    assert(with_handles(state.info.handles).contains(thread.id as u64) <==> handle_count(
        state,
        thread,
    ) > 0);
}

/// A collection leaves reachable what was reachable.
proof fn lemma_collection_leaves_reachable<V: AnyValue>(
    state: GlobalView<V>,
    times: CollectionTimes,
    addr: Addr,
)
    requires
        reachable(state.cells, addr),
    ensures
        reachable(after_collection(state, times).cells, addr),
        same_value(after_collection(state, times).cells[addr], state.cells[addr]),
{
    law_collection_keeps_reachable(state, times, addr);
    lemma_reachable_survives(state.cells, next_mark(state.collector.mark_bits), addr);
}

/// Whatever the collector is asked to do, a value that can be reached from a root
/// stays where it is and as it is, and can still be reached.
pub proof fn law_reachable_values_survive<V: AnyValue>(
    state: GlobalView<V>,
    commands: Seq<CollectorCommand>,
    times: CollectionTimes,
    addr: Addr,
)
    requires
        reachable(state.cells, addr),
    ensures
        reachable(after_commands(state, commands, times).cells, addr),
        after_commands(state, commands, times).cells.dom().contains(addr),
        same_value(after_commands(state, commands, times).cells[addr], state.cells[addr]),
    decreases commands.len(),
{
    lemma_reachable_exists(state.cells, addr);
    if commands.len() > 0 {
        let command = commands[0];
        let next = accepted(state, command, times.gc_start);
        let path = choose|path: Seq<Addr>| #[trigger]
            is_path(state.cells, path) && path.last() == addr;
        assert(rooted(state.cells, path[0]));
        assert(next.cells == state.cells);
        if asks_to_collect(state, command) {
            lemma_collection_leaves_reachable(next, times, addr);
        }
        let after = after_command(state, command, times);
        law_reachable_values_survive(after, commands.skip(1), times, addr);
    }
}

/// A requested collection keeps every value that can be reached from a root.
pub proof fn law_request_keeps_reachable_values<V: AnyValue>(
    state: GlobalView<V>,
    commands: Seq<CollectorCommand>,
    now: u64,
    times: CollectionTimes,
    addr: Addr,
)
    requires
        reachable(state.cells, addr),
    ensures
        reachable(after_request(state, commands, now, times).cells, addr),
        after_request(state, commands, now, times).cells.dom().contains(addr),
        same_value(after_request(state, commands, now, times).cells[addr], state.cells[addr]),
{
    let ready = if state.info.reader_state.collecting {
        lemma_collection_leaves_reachable(state, times, addr);
        after_collection(state, times)
    } else {
        state
    };
    law_reachable_values_survive(ready, commands.push(CollectorCommand::Collect(now)), times, addr);
}

/// Without a request to collect, carrying out commands does not collect.
proof fn lemma_no_collection<V: AnyValue>(
    state: GlobalView<V>,
    commands: Seq<CollectorCommand>,
    times: CollectionTimes,
)
    requires
        forall|i: int| 0 <= i < commands.len() ==> !(#[trigger] commands[i] is Collect),
    ensures
        after_commands(state, commands, times).info == state.info,
    decreases commands.len(),
{
    if commands.len() > 0 {
        assert(!(commands[0] is Collect));
        let rest = commands.skip(1);
        assert forall|i: int| 0 <= i < rest.len() implies !(#[trigger] rest[i] is Collect) by {
            assert(rest[i] == commands[i + 1]);
        }
        lemma_no_collection(after_command(state, commands[0], times), rest, times);
    }
}

/// A requested collection keeps exactly what can be reached from a root once the
/// commands before the request are carried out.
///
/// No other collection was requested or announced, and none has finished since
/// the request was made.
pub proof fn law_request_drops_unreachable_values<V: AnyValue>(
    state: GlobalView<V>,
    commands: Seq<CollectorCommand>,
    now: u64,
    times: CollectionTimes,
    addr: Addr,
)
    requires
        !state.info.reader_state.collecting,
        state.info.last_run < now,
        forall|i: int| 0 <= i < commands.len() ==> !(#[trigger] commands[i] is Collect),
    ensures
        after_request(state, commands, now, times).cells.dom().contains(addr) <==> reachable(
            after_commands(state, commands, times).cells,
            addr,
        ),
{
    lemma_no_collection(state, commands, times);
    law_request_collects(state, commands, now, times);
    law_collection_keeps_reachable(after_commands(state, commands, times), times, addr);
}

/// A stored value can be loaded as what it is, and as nothing else.
pub proof fn law_stored_value_loads<T: Collectable<V>, U: Collectable<V>, V: AnyValue>(
    global: GlobalCollector<V>,
    value: T,
    any: AnyRef,
    cell: Cell<V>,
)
    requires
        cell.value == value.erased(),
        cell.generation == any.slot_generation,
    ensures
        names_a::<T, V>(stored(global, T::key(), any, cell), any),
        names_a::<U, V>(stored(global, T::key(), any, cell), any) <==> U::key() == T::key(),
        forall|loaded: T| #[trigger]
            loaded.erased() == stored(global, T::key(), any, cell).cells[any.addr()].value
                ==> loaded == value,
{
    value.lemma_erased();
}

/// A stored value can be loaded as what its type is mapped to, and as no other
/// target.
pub proof fn law_stored_value_maps<T: Collectable<V>, U: MapTarget<V>, V: AnyValue>(
    global: GlobalCollector<V>,
    value: T,
    any: AnyRef,
    cell: Cell<V>,
) where T::Target: MapTarget<V>
    requires
        cell.value == value.erased(),
        cell.generation == any.slot_generation,
    ensures
        names(stored(global, T::key(), any, cell).cells, any),
        <T::Target as MapTarget<V>>::image(
            &stored(global, T::key(), any, cell).cells[any.addr()].value,
        ) == Some(value.mapped()),
        U::image(&stored(global, T::key(), any, cell).cells[any.addr()].value) is Some <==> U::key()
            == <T::Target as MapTarget<V>>::key(),
{
    value.lemma_mapped();
    <T::Target as MapTarget<V>>::lemma_image(&value.erased());
    U::lemma_image(&value.erased());
}

/// A pool that has fewer slabs for a type than a bin can address has room for
/// another value of that type.
pub proof fn law_pool_below_limit_has_room<V: AnyValue>(
    global: GlobalCollector<V>,
    thread: CollectorThreadId,
    key: u64,
)
    requires
        global.wf(),
        can_number(global@, key),
        global.info.all_threads.slab_count(thread.id, number_of(global@, key).index) < MAX_SLABS,
        global@.info.handles.dom().contains(thread.id as u64),
    ensures
        can_store(global, thread, key),
{
}

/// Where the next value is stored follows from how the slots of its type in its
/// pool are used.
pub proof fn law_next_slot_follows_layout<V: AnyValue>(
    global: GlobalCollector<V>,
    thread: CollectorThreadId,
    key: u64,
    any: AnyRef,
)
    requires
        is_next_ref(global, thread, key, any),
        global@.info.handles.dom().contains(thread.id as u64),
    ensures
        ({
            let bin = BinAddr { thread: thread.id, type_index: any.type_index.index };
            if global@.layouts.dom().contains(bin) {
                global@.layouts[bin].is_next_slot(any.bin_id.raw)
            } else {
                any.bin_id.raw == 256
            }
        }),
{
}

/// After a collection, the slots that it freed are reused before any other: the
/// next value goes to the one with the highest address.
pub proof fn law_freed_slots_are_reused<V: AnyValue>(
    state: GlobalView<V>,
    times: CollectionTimes,
    bin: BinAddr,
    raw: u32,
)
    requires
        after_collection(state, times).layouts.dom().contains(bin),
        ({
            let held = addresses_of(state.cells.dom(), bin);
            let kept = addresses_of(after_collection(state, times).cells.dom(), bin);
            &&& held.contains(raw) && !kept.contains(raw)
            &&& forall|other: u32| #[trigger]
                held.contains(other) && !kept.contains(other) ==> other <= raw
        }),
    ensures
        !after_collection(state, times).layouts[bin].full(),
        forall|other: u32| #[trigger]
            after_collection(state, times).layouts[bin].is_next_slot(other) <==> other == raw,
{
    let before = state.layouts[bin];
    let after = after_collection(state, times).layouts[bin];
    let held = addresses_of(state.cells.dom(), bin);
    let kept = addresses_of(after_collection(state, times).cells.dom(), bin);
    law_swept_layout(before, after, held, kept);
    let added = after.free.len() - before.free.len();
    let first = after.free.take(added);
    assert(first.contains(raw));
    let i = choose|i: int| 0 <= i < first.len() && first[i] == raw;
    assert(first[0] == after.free[0]);
    assert(first.contains(first[0]));
    assert(after.free[i] == raw);
}

/// Storing a value leaves all other values alone: what a reference named
/// before, it still names.
pub proof fn law_storing_keeps_references<V: AnyValue>(
    global: GlobalCollector<V>,
    key: u64,
    any: AnyRef,
    cell: Cell<V>,
    other: AnyRef,
)
    requires
        !global@.cells.dom().contains(any.addr()),
        names(global@.cells, other),
    ensures
        names(stored(global, key, any, cell).cells, other),
        stored(global, key, any, cell).cells[other.addr()] == global@.cells[other.addr()],
{
}

/// Giving up a root that was just added leaves everything as it was.
pub proof fn law_root_count_round_trip<V>(state: GlobalView<V>, any: AnyRef)
    requires
        names(state.cells, any),
        roots_of(state, any) < u64::MAX,
    ensures
        ({
            let more = with_roots(state, any, one_more(roots_of(state, any)));
            &&& roots_of(more, any) == roots_of(state, any) + 1
            &&& with_roots(more, any, (roots_of(more, any) - 1) as u64) == state
        }),
{
    let more = with_roots(state, any, one_more(roots_of(state, any)));
    let back = with_roots(more, any, (roots_of(more, any) - 1) as u64);
    assert(back.cells =~= state.cells);
}

/// Releasing a guard that was just acquired leaves everything as it was.
pub proof fn law_guard_round_trip<V>(state: GlobalView<V>, thread: CollectorThreadId)
    requires
        0 < handle_count(state, thread) < u64::MAX,
    ensures
        ({
            let guarded = with_thread_guard(state, thread);
            with_handle_count(
                with_readers(guarded, guarded.info.reader_state.readers - 1),
                thread,
                handle_count(guarded, thread) - 1,
            ) == state
        }),
{
    let guarded = with_thread_guard(state, thread);
    let back = with_handle_count(
        with_readers(guarded, guarded.info.reader_state.readers - 1),
        thread,
        handle_count(guarded, thread) - 1,
    );
    assert(back.info.handles =~= state.info.handles);
}

/// A type keeps its number, and two types never have the same one.
pub proof fn law_type_numbers(types: TypeIndexes, key: u64, other: u64)
    requires
        types.wf(),
        types@.dom().contains(other),
        types@.dom().contains(key) || type_room(types@),
    ensures
        with_type(types@, key).dom().contains(other),
        with_type(types@, key)[other] == types@[other],
        with_type(types@, key)[key] == with_type(types@, key)[other] ==> key == other,
{
}

/// The value that is stored in a slot gets another generation than the one that
/// the slot held before: references to the earlier value do not name the later
/// one.
pub proof fn law_reused_slot_has_new_generation<V>(bin: Bin<V>, raw: u32)
    requires
        bin.wf(),
        bin.slabs.has_slot(raw),
    ensures
        bin.slabs.next_generation(raw) != bin.generation(raw),
{
}

/// How many times the slot was reused since the reference was given out, as the
/// generations count.
pub open spec fn age(generations: Map<Addr, u32>, any: AnyRef) -> int {
    (generations[any.addr()] - any.slot_generation) % 0x1_0000_0000
}

/// The value of the reference is gone. Its slot, if that is still there, was not
/// reused more than `uses` times since the reference was given out.
pub open spec fn spent<V>(state: GlobalView<V>, any: AnyRef, uses: int) -> bool {
    &&& !names(state.cells, any)
    &&& state.generations.dom().contains(any.addr()) ==> age(state.generations, any) <= uses
}

/// What the collector is asked to do changes no generation in a pool that has a
/// handle.
pub proof fn law_generations_stay<V: AnyValue>(
    state: GlobalView<V>,
    commands: Seq<CollectorCommand>,
    times: CollectionTimes,
    addr: Addr,
)
    requires
        state_ok(state),
        commands_ok(state, commands),
        with_handles(state.info.handles).contains(addr.thread as u64),
        state.generations.dom().contains(addr),
    ensures
        after_commands(state, commands, times).generations.dom().contains(addr),
        after_commands(state, commands, times).generations[addr] == state.generations[addr],
    decreases commands.len(),
{
    if commands.len() > 0 {
        let command = commands[0];
        let rest = commands.skip(1);
        assert(seq![command] + rest =~= commands);
        lemma_accepted_ok(state, command, rest, times.gc_start);
        lemma_after_command_ok(state, command, rest, times);
        let threads = state.collector.threads;
        lemma_alive_source(alive_of(threads), threads.dom(), commands, addr.thread as u64);
        let next = accepted(state, command, times.gc_start);
        assert(next.generations.dom().contains(addr)) by {
            if command is ThreadShutdown {
                if state.collector.active_threads == 1 && threads.dom().contains(addr.thread as u64) {
                    lemma_last_thread(state, command, rest, addr.thread as u64);
                }
            }
        }
        if asks_to_collect(state, command) {
            law_collection_keeps_generations(next, rest, times, addr);
        }
        let after = after_command(state, command, times);
        assert(with_handles(after.info.handles).contains(addr.thread as u64));
        law_generations_stay(after, rest, times, addr);
    }
}

/// Once the last pool with a handle has lost it, no known pool gets a handle
/// again.
proof fn lemma_last_thread<V: AnyValue>(
    state: GlobalView<V>,
    command: CollectorCommand,
    rest: Seq<CollectorCommand>,
    id: u64,
)
    requires
        state_ok(state),
        commands_ok(state, seq![command] + rest),
        command is ThreadShutdown,
        state.collector.active_threads == 1,
        state.collector.threads.dom().contains(id),
    ensures
        !with_handles(state.info.handles).contains(id),
{
    let threads = state.collector.threads;
    let all = seq![command] + rest;
    assert(all.skip(1) =~= rest);
    assert(all[0] == command);
    let alive = alive_of(threads);
    let after = alive_after(alive, command);
    assert(after.len() == 0);
    assert(after =~= Set::<u64>::empty());
    if alive_at_end(after, rest).contains(id) {
        lemma_alive_source(after, known_after(threads.dom(), command), rest, id);
    }
}

/// A collection changes no generation in a pool that has a handle.
pub proof fn law_collection_keeps_generations<V: AnyValue>(
    state: GlobalView<V>,
    commands: Seq<CollectorCommand>,
    times: CollectionTimes,
    addr: Addr,
)
    requires
        state_ok(state),
        commands_ok(state, commands),
        with_handles(state.info.handles).contains(addr.thread as u64),
        state.generations.dom().contains(addr),
    ensures
        after_collection(state, times).generations.dom().contains(addr),
        after_collection(state, times).generations[addr] == state.generations[addr],
{
    let threads = state.collector.threads;
    lemma_alive_source(alive_of(threads), threads.dom(), commands, addr.thread as u64);
}

/// A requested collection changes no generation in a pool that has a handle.
pub proof fn law_request_keeps_generations<V: AnyValue>(
    state: GlobalView<V>,
    commands: Seq<CollectorCommand>,
    now: u64,
    times: CollectionTimes,
    addr: Addr,
)
    requires
        state_ok(state),
        commands_ok(state, commands),
        with_handles(state.info.handles).contains(addr.thread as u64),
        state.generations.dom().contains(addr),
    ensures
        after_request(state, commands, now, times).generations.dom().contains(addr),
        after_request(state, commands, now, times).generations[addr] == state.generations[addr],
{
    let ready = if state.info.reader_state.collecting {
        after_collection(state, times)
    } else {
        state
    };
    if state.info.reader_state.collecting {
        lemma_collection_ok(state, commands, times);
        law_collection_keeps_generations(state, commands, times, addr);
    }
    assert(with_handles(ready.info.handles).contains(addr.thread as u64));
    let threads = ready.collector.threads;
    let command = CollectorCommand::Collect(now);
    lemma_command_added(alive_of(threads), threads.dom(), commands, command);
    law_generations_stay(ready, commands.push(command), times, addr);
}

/// Every value of `after` is in `before`, with the same generation, and so is
/// every slot.
pub open spec fn only_drops<V>(before: GlobalView<V>, after: GlobalView<V>) -> bool {
    &&& forall|addr: Addr| #[trigger]
        after.cells.dom().contains(addr) ==> {
            &&& before.cells.dom().contains(addr)
            &&& after.cells[addr].generation == before.cells[addr].generation
            &&& after.cells[addr].value == before.cells[addr].value
            &&& after.cells[addr].roots == before.cells[addr].roots
        }
    &&& forall|addr: Addr| #[trigger]
        after.generations.dom().contains(addr) ==> {
            &&& before.generations.dom().contains(addr)
            &&& after.generations[addr] == before.generations[addr]
        }
}

/// Whatever the collector is asked to do, it only drops values, and slots of pools
/// that are gone.
pub proof fn law_collector_only_drops<V: AnyValue>(
    state: GlobalView<V>,
    commands: Seq<CollectorCommand>,
    times: CollectionTimes,
)
    ensures
        only_drops(state, after_commands(state, commands, times)),
    decreases commands.len(),
{
    if commands.len() > 0 {
        let next = after_command(state, commands[0], times);
        assert(only_drops(state, accepted(state, commands[0], times.gc_start)));
        assert(only_drops(state, next));
        law_collector_only_drops(next, commands.skip(1), times);
        let end = after_commands(next, commands.skip(1), times);
        assert forall|addr: Addr| #[trigger] end.cells.dom().contains(addr) implies {
            &&& state.cells.dom().contains(addr)
            &&& end.cells[addr].generation == state.cells[addr].generation
            &&& end.cells[addr].value == state.cells[addr].value
            &&& end.cells[addr].roots == state.cells[addr].roots
        } by {
            assert(next.cells.dom().contains(addr));
        }
        assert forall|addr: Addr| #[trigger] end.generations.dom().contains(addr) implies {
            &&& state.generations.dom().contains(addr)
            &&& end.generations[addr] == state.generations[addr]
        } by {
            assert(next.generations.dom().contains(addr));
        }
    }
}

/// A requested collection only drops values, and slots of pools that are gone.
pub proof fn law_request_only_drops<V: AnyValue>(
    state: GlobalView<V>,
    commands: Seq<CollectorCommand>,
    now: u64,
    times: CollectionTimes,
)
    ensures
        only_drops(state, after_request(state, commands, now, times)),
{
    let ready = if state.info.reader_state.collecting {
        after_collection(state, times)
    } else {
        state
    };
    assert(only_drops(state, ready));
    law_collector_only_drops(ready, commands.push(CollectorCommand::Collect(now)), times);
    let end = after_request(state, commands, now, times);
    assert forall|addr: Addr| #[trigger] end.cells.dom().contains(addr) implies {
        &&& state.cells.dom().contains(addr)
        &&& end.cells[addr].generation == state.cells[addr].generation
        &&& end.cells[addr].value == state.cells[addr].value
        &&& end.cells[addr].roots == state.cells[addr].roots
    } by {
        assert(ready.cells.dom().contains(addr));
    }
    assert forall|addr: Addr| #[trigger] end.generations.dom().contains(addr) implies {
        &&& state.generations.dom().contains(addr)
        &&& end.generations[addr] == state.generations[addr]
    } by {
        assert(ready.generations.dom().contains(addr));
    }
}

/// Once a requested collection has dropped the value of a reference, the
/// reference is spent. If its pool has a handle, the slot is still there.
pub proof fn law_collected_reference_is_spent<V: AnyValue>(
    state: GlobalView<V>,
    commands: Seq<CollectorCommand>,
    now: u64,
    times: CollectionTimes,
    any: AnyRef,
)
    requires
        state_ok(state),
        commands_ok(state, commands),
        names(state.cells, any),
        !names(after_request(state, commands, now, times).cells, any),
    ensures
        spent(after_request(state, commands, now, times), any, 0),
        with_handles(state.info.handles).contains(any.creating_thread.id as u64) ==> after_request(
            state,
            commands,
            now,
            times,
        ).generations.dom().contains(any.addr()),
{
    law_request_only_drops(state, commands, now, times);
    if with_handles(state.info.handles).contains(any.creating_thread.id as u64) {
        law_request_keeps_generations(state, commands, now, times, any.addr());
    }
}

/// A spent reference stays spent when a requested collection runs.
pub proof fn law_spent_reference_stays_spent<V: AnyValue>(
    state: GlobalView<V>,
    commands: Seq<CollectorCommand>,
    now: u64,
    times: CollectionTimes,
    any: AnyRef,
    uses: int,
)
    requires
        spent(state, any, uses),
    ensures
        spent(after_request(state, commands, now, times), any, uses),
{
    law_request_only_drops(state, commands, now, times);
}

/// A spent reference stays spent whatever the collector is asked to do.
pub proof fn law_collector_leaves_references_spent<V: AnyValue>(
    state: GlobalView<V>,
    commands: Seq<CollectorCommand>,
    times: CollectionTimes,
    any: AnyRef,
    uses: int,
)
    requires
        spent(state, any, uses),
    ensures
        spent(after_commands(state, commands, times), any, uses),
{
    law_collector_only_drops(state, commands, times);
}

/// A spent reference does not name a value that is stored later, whether or not
/// it reuses the slot.
///
/// The slot was reused fewer times than there are generations, and the value is
/// not stored in a new pool that was given the number of the reference's pool.
pub proof fn law_spent_reference_names_nothing<V: AnyValue>(
    global: GlobalCollector<V>,
    thread: CollectorThreadId,
    key: u64,
    new: AnyRef,
    cell: Cell<V>,
    any: AnyRef,
    uses: int,
)
    requires
        is_next_ref(global, thread, key, new),
        cell.generation == new.slot_generation,
        spent(global@, any, uses),
        uses < u32::MAX,
        any.creating_thread == thread ==> global@.generations.dom().contains(any.addr()),
    ensures
        spent(stored(global, key, new, cell), any, uses + 1),
        !names(stored(global, key, new, cell).cells, any),
{
    if global@.generations.dom().contains(any.addr()) {
        lemma_age_grows(global@.generations, new, any);
    }
}

/// Storing a value makes no reference to an existing slot older by more than one
/// reuse.
pub proof fn lemma_age_grows(generations: Map<Addr, u32>, new: AnyRef, any: AnyRef)
    requires
        generations.dom().contains(any.addr()),
        new.slot_generation == next_generation(generations, new.addr()),
        age(generations, any) < u32::MAX,
    ensures
        ({
            let after = with_generation(generations, new.addr(), new.slot_generation);
            &&& after.dom().contains(any.addr())
            &&& age(after, any) == age(generations, any) + (if new.addr() == any.addr() {
                1int
            } else {
                0int
            })
        }),
        new.addr() == any.addr() ==> new.slot_generation != any.slot_generation,
{
}

/// No value carries the mark of the next collection.
pub proof fn law_next_mark_is_new<V>(state: GlobalView<V>, addr: Addr)
    requires
        state_ok(state),
        state.cells.dom().contains(addr),
    ensures
        state.cells[addr].mark != next_mark(state.collector.mark_bits),
        next_mark(state.collector.mark_bits) != 0,
{
}

} // verus!
