//! When collections happen.

use vstd::prelude::*;

use crate::any_ref::{AnyRef, CollectorThreadId};
use crate::collector::{
    elapsed, finished, info_finished, lock_deadline, next_average, next_mark, scheduled,
    CollectResult, CollectionTimes, CollectorView, FORCE_AFTER, INITIAL_AVERAGE, MIN_PAUSE,
};
use crate::command::CollectorCommand;
use crate::global::{
    accepted, after_collection, after_command, after_commands, asks_to_collect, signalled,
    GlobalCollector, GlobalView,
};
use crate::heap::BinAddr;
use crate::info::{waits_for, InfoView};
use crate::reference::{after_release, commands_after_store, is_next_ref, stored};
use crate::slab::Cell;
use crate::trace::AnyValue;

verus! {

/// The value that is stored where `any` names it takes the last slot of its slab,
/// which was never used before.
pub open spec fn takes_last_slot<V>(state: GlobalView<V>, any: AnyRef) -> bool {
    let bin = BinAddr { thread: any.creating_thread.id, type_index: any.type_index.index };
    &&& state.layouts.dom().contains(bin)
    &&& state.layouts[bin].free.len() == 0
    &&& any.bin_id.raw % 256 == 255
}

/// One command was added at the end: that a collection should happen soon.
pub open spec fn asks_once(before: Seq<CollectorCommand>, after: Seq<CollectorCommand>) -> bool {
    &&& after.len() == before.len() + 1
    &&& after[before.len() as int] == CollectorCommand::ScheduleCollect
    &&& forall|i: int| 0 <= i < before.len() ==> #[trigger] after[i] == before[i]
}

/// Storing a value in the last slot of a slab asks the collector for a collection,
/// unless that was done already; storing it elsewhere asks for nothing. Whenever
/// the collector counts as asked, it was sent the command.
pub proof fn law_filling_a_slab_asks_for_a_collection<V: AnyValue>(
    before: GlobalCollector<V>,
    after: GlobalCollector<V>,
    thread: CollectorThreadId,
    key: u64,
    any: AnyRef,
    cell: Cell<V>,
)
    requires
        before.wf(),
        before@.info.handles.dom().contains(thread.id as u64),
        is_next_ref(before, thread, key, any),
        after@ == stored(before, key, any, cell),
        after.commands@ == commands_after_store(before, any),
    ensures
        after@.info.signalled_collector <==> before@.info.signalled_collector || takes_last_slot(
            before@,
            any,
        ),
        after@.info.signalled_collector && !before@.info.signalled_collector ==> asks_once(
            before.commands@,
            after.commands@,
        ),
        after@.info.signalled_collector == before@.info.signalled_collector ==> after.commands@
            == before.commands@,
{
}

/// Giving up the last root to a value asks the collector for a collection, unless
/// that was done already; giving up another root asks for nothing. Whenever the
/// collector counts as asked, it was sent the command.
pub proof fn law_last_root_asks_for_a_collection<V: AnyValue>(
    before: GlobalCollector<V>,
    after: GlobalCollector<V>,
    any: AnyRef,
)
    requires
        before@.cells.dom().contains(any.addr()),
        before@.cells[any.addr()].roots > 0,
        after_release(before, after, any),
    ensures
        after@.info.signalled_collector <==> before@.info.signalled_collector
            || before@.cells[any.addr()].roots == 1,
        after@.info.signalled_collector && !before@.info.signalled_collector ==> asks_once(
            before.commands@,
            after.commands@,
        ),
        after@.info.signalled_collector == before@.info.signalled_collector ==> after.commands@
            == before.commands@,
{
}

/// To have asked for a collection changes only that.
pub proof fn law_asking_changes_nothing_else<V: AnyValue>(state: GlobalView<V>)
    ensures
        signalled(state).info.signalled_collector,
        signalled(state).info.reader_state == state.info.reader_state,
        signalled(state).info.last_run == state.info.last_run,
        signalled(state).info.handles == state.info.handles,
        signalled(state).info.types == state.info.types,
        signalled(state).info.next_thread_id == state.info.next_thread_id,
        signalled(state).collector == state.collector,
        signalled(state).cells == state.cells,
        signalled(state).generations == state.generations,
        signalled(state).layouts == state.layouts,
{
}

/// A collection is scheduled, no later than at the time.
pub open spec fn due_by(collector: CollectorView, time: int) -> bool {
    match collector.next_gc {
        Some(scheduled) => scheduled <= time,
        None => false,
    }
}

/// A collector that was asked to collect soon does so within five average
/// collections, or when it was going to anyway if that is earlier. Nothing else
/// changes.
pub proof fn law_asked_collection_is_soon<V: AnyValue>(state: GlobalView<V>, now: u64)
    requires
        state.collector.average_collection <= u64::MAX,
    ensures
        ({
            let after = accepted(state, CollectorCommand::ScheduleCollect, now);
            let soon = now + 5 * state.collector.average_collection;
            &&& due_by(after.collector, soon)
            &&& state.collector.next_gc is None ==> after.collector.next_gc.unwrap() == soon
            &&& state.collector.next_gc is Some ==> {
                let earlier = state.collector.next_gc.unwrap();
                let next = after.collector.next_gc.unwrap();
                next <= earlier && (next == earlier || next == soon)
            }
            &&& after == GlobalView {
                collector: CollectorView {
                    next_gc: after.collector.next_gc,
                    ..state.collector
                },
                ..state
            }
        }),
{
}

/// A schedule that is early enough stays so while commands other than requests to
/// collect are carried out.
proof fn lemma_stays_due<V: AnyValue>(
    state: GlobalView<V>,
    commands: Seq<CollectorCommand>,
    times: CollectionTimes,
    time: int,
)
    requires
        state.collector.average_collection <= u64::MAX,
        forall|i: int| 0 <= i < commands.len() ==> !(#[trigger] commands[i] is Collect),
        due_by(state.collector, time),
    ensures
        due_by(after_commands(state, commands, times).collector, time),
    decreases commands.len(),
{
    if commands.len() > 0 {
        let rest = commands.skip(1);
        assert(!(commands[0] is Collect));
        assert forall|i: int| 0 <= i < rest.len() implies !(#[trigger] rest[i] is Collect) by {
            assert(rest[i] == commands[i + 1]);
        }
        lemma_stays_due(after_command(state, commands[0], times), rest, times, time);
    }
}

/// Once the commands are carried out, one of which asks for a collection soon, a
/// collection is scheduled within five average collections.
pub proof fn law_asked_collection_is_scheduled<V: AnyValue>(
    state: GlobalView<V>,
    commands: Seq<CollectorCommand>,
    times: CollectionTimes,
)
    requires
        state.collector.average_collection <= u64::MAX,
        commands.contains(CollectorCommand::ScheduleCollect),
        forall|i: int| 0 <= i < commands.len() ==> !(#[trigger] commands[i] is Collect),
    ensures
        due_by(
            after_commands(state, commands, times).collector,
            times.gc_start + 5 * state.collector.average_collection,
        ),
        after_commands(state, commands, times).collector.average_collection
            == state.collector.average_collection,
    decreases commands.len(),
{
    let rest = commands.skip(1);
    let next = after_command(state, commands[0], times);
    let soon = times.gc_start + 5 * state.collector.average_collection;
    assert(!(commands[0] is Collect));
    assert forall|i: int| 0 <= i < rest.len() implies !(#[trigger] rest[i] is Collect) by {
        assert(rest[i] == commands[i + 1]);
    }
    assert(next.collector.average_collection == state.collector.average_collection);
    if commands[0] == CollectorCommand::ScheduleCollect {
        lemma_stays_due(next, rest, times, soon);
        lemma_same_average(next, rest, times);
    } else {
        let i = choose|i: int|
            0 <= i < commands.len() && commands[i] == CollectorCommand::ScheduleCollect;
        assert(rest[i - 1] == commands[i]);
        law_asked_collection_is_scheduled(next, rest, times);
    }
}

/// Only a collection changes how long one takes on average.
proof fn lemma_same_average<V: AnyValue>(
    state: GlobalView<V>,
    commands: Seq<CollectorCommand>,
    times: CollectionTimes,
)
    requires
        forall|i: int| 0 <= i < commands.len() ==> !(#[trigger] commands[i] is Collect),
    ensures
        after_commands(state, commands, times).collector.average_collection
            == state.collector.average_collection,
    decreases commands.len(),
{
    if commands.len() > 0 {
        let rest = commands.skip(1);
        assert(!(commands[0] is Collect));
        assert forall|i: int| 0 <= i < rest.len() implies !(#[trigger] rest[i] is Collect) by {
            assert(rest[i] == commands[i + 1]);
        }
        lemma_same_average(after_command(state, commands[0], times), rest, times);
    }
}

/// Storing a value in the last slot of a slab leads to a collection: once the
/// commands are carried out, one is scheduled within five average collections.
///
/// The collector was not asked before, and no collection was requested.
pub proof fn law_filled_slab_is_collected_soon<V: AnyValue>(
    before: GlobalCollector<V>,
    after: GlobalCollector<V>,
    thread: CollectorThreadId,
    key: u64,
    any: AnyRef,
    cell: Cell<V>,
    times: CollectionTimes,
)
    requires
        before.wf(),
        before@.info.handles.dom().contains(thread.id as u64),
        !before@.info.signalled_collector,
        forall|i: int|
            0 <= i < before.commands@.len() ==> !(#[trigger] before.commands@[i] is Collect),
        takes_last_slot(before@, any),
        is_next_ref(before, thread, key, any),
        after@ == stored(before, key, any, cell),
        after.commands@ == commands_after_store(before, any),
    ensures
        due_by(
            after_commands(after@, after.commands@, times).collector,
            times.gc_start + 5 * before@.collector.average_collection,
        ),
{
    law_filling_a_slab_asks_for_a_collection(before, after, thread, key, any, cell);
    assert(after.commands@[before.commands@.len() as int] == CollectorCommand::ScheduleCollect);
    assert forall|i: int| 0 <= i < after.commands@.len() implies !(
    #[trigger] after.commands@[i] is Collect) by {
        if i < before.commands@.len() {
            assert(after.commands@[i] == before.commands@[i]);
        }
    }
    law_asked_collection_is_scheduled(after@, after.commands@, times);
}

/// If the collector counts as asked for a collection, then one is scheduled or the
/// command to schedule one is on its way.
pub open spec fn asked_is_pending<V>(state: GlobalView<V>, commands: Seq<CollectorCommand>) -> bool {
    state.info.signalled_collector ==> state.collector.next_gc is Some || commands.contains(
        CollectorCommand::ScheduleCollect,
    )
}

/// Commands that are still there are still pending, and one that was added is.
proof fn lemma_pending_grows(before: Seq<CollectorCommand>, after: Seq<CollectorCommand>)
    requires
        asks_once(before, after) || after == before,
    ensures
        before.contains(CollectorCommand::ScheduleCollect) ==> after.contains(
            CollectorCommand::ScheduleCollect,
        ),
        asks_once(before, after) ==> after.contains(CollectorCommand::ScheduleCollect),
{
    if before.contains(CollectorCommand::ScheduleCollect) {
        let i = choose|i: int|
            0 <= i < before.len() && before[i] == CollectorCommand::ScheduleCollect;
        assert(after[i] == CollectorCommand::ScheduleCollect);
    }
    if asks_once(before, after) {
        assert(after[before.len() as int] == CollectorCommand::ScheduleCollect);
    }
}

/// What was asked for stays pending when a value is stored.
pub proof fn law_storing_loses_no_request<V: AnyValue>(
    before: GlobalCollector<V>,
    after: GlobalCollector<V>,
    thread: CollectorThreadId,
    key: u64,
    any: AnyRef,
    cell: Cell<V>,
)
    requires
        before.wf(),
        before@.info.handles.dom().contains(thread.id as u64),
        asked_is_pending(before@, before.commands@),
        is_next_ref(before, thread, key, any),
        after@ == stored(before, key, any, cell),
        after.commands@ == commands_after_store(before, any),
    ensures
        asked_is_pending(after@, after.commands@),
{
    law_filling_a_slab_asks_for_a_collection(before, after, thread, key, any, cell);
    lemma_pending_grows(before.commands@, after.commands@);
}

/// What was asked for stays pending when a root is given up.
pub proof fn law_releasing_loses_no_request<V: AnyValue>(
    before: GlobalCollector<V>,
    after: GlobalCollector<V>,
    any: AnyRef,
)
    requires
        asked_is_pending(before@, before.commands@),
        before@.cells.dom().contains(any.addr()),
        before@.cells[any.addr()].roots > 0,
        after_release(before, after, any),
    ensures
        asked_is_pending(after@, after.commands@),
{
    law_last_root_asks_for_a_collection(before, after, any);
    lemma_pending_grows(before.commands@, after.commands@);
}

/// What was asked for stays pending while the commands are carried out: then a
/// collection has run since, or one is scheduled.
pub proof fn law_collector_loses_no_request<V: AnyValue>(
    state: GlobalView<V>,
    commands: Seq<CollectorCommand>,
    times: CollectionTimes,
)
    requires
        asked_is_pending(state, commands),
    ensures
        after_commands(state, commands, times).info.signalled_collector ==> after_commands(
            state,
            commands,
            times,
        ).collector.next_gc is Some,
    decreases commands.len(),
{
    if commands.len() > 0 {
        let next = after_command(state, commands[0], times);
        let rest = commands.skip(1);
        if next.info.signalled_collector && next.collector.next_gc is None {
            assert(commands[0] != CollectorCommand::ScheduleCollect);
            let i = choose|i: int|
                0 <= i < commands.len() && commands[i] == CollectorCommand::ScheduleCollect;
            assert(rest[i - 1] == commands[i]);
        }
        law_collector_loses_no_request(next, rest, times);
    }
}

/// The duration between two times is their difference, and none if the clock went
/// backwards.
pub proof fn law_durations(from: u64, to: u64)
    ensures
        from <= to ==> from + elapsed(from, to) == to,
        to <= from ==> elapsed(from, to) == 0,
{
}

/// An average is a third of the new duration and two thirds of the previous
/// average, rounded down.
pub proof fn law_averages(average: u128, duration: u128)
    requires
        average <= u64::MAX,
        duration <= u64::MAX,
    ensures
        3 * next_average(average, duration) <= duration + 2 * average,
        duration + 2 * average < 3 * next_average(average, duration) + 3,
        next_average(average, duration) <= u64::MAX,
{
}

/// After a collection, the next one is scheduled after a pause of a hundred average
/// collections, a hundred milliseconds at least, or earlier if it was scheduled
/// earlier; none is scheduled for a collector without pools.
pub proof fn law_collections_are_paced(
    collector: CollectorView,
    gc_start: u64,
    gc_finish: u64,
)
    requires
        collector.average_collection <= u64::MAX,
    ensures
        ({
            let after = finished(collector, CollectResult::Collected, gc_start, gc_finish);
            let average = after.average_collection;
            let slow = gc_finish + 100 * average;
            let quick = gc_finish + 100_000_000;
            &&& 3 * average <= elapsed(gc_start, gc_finish) + 2 * collector.average_collection
            &&& elapsed(gc_start, gc_finish) + 2 * collector.average_collection < 3 * average + 3
            &&& collector.threads.dom() =~= Set::<u64>::empty() ==> after.next_gc
                == collector.next_gc
            &&& !(collector.threads.dom() =~= Set::<u64>::empty()) ==> {
                &&& after.next_gc is Some
                &&& collector.next_gc is None ==> after.next_gc.unwrap() >= slow
                    && after.next_gc.unwrap() >= quick && (after.next_gc.unwrap() == slow
                    || after.next_gc.unwrap() == quick)
                &&& collector.next_gc is Some ==> {
                    let next = after.next_gc.unwrap();
                    let earlier = collector.next_gc.unwrap();
                    &&& next <= earlier
                    &&& next == earlier || next == slow || next == quick
                    &&& next < earlier ==> next >= slow && next >= quick
                    &&& next <= slow || next <= quick
                }
            }
            &&& after == CollectorView {
                average_collection: after.average_collection,
                next_gc: after.next_gc,
                ..collector
            }
        }),
{
    if collector.threads.dom() =~= Set::<u64>::empty() {
        assert(collector.threads =~= Map::<u64, bool>::empty());
    }
}

/// After an attempt that failed, the next one is scheduled an average collection
/// later, or when it was if that is earlier. Nothing else changes.
pub proof fn law_failed_collections_are_retried(
    collector: CollectorView,
    gc_start: u64,
    gc_finish: u64,
)
    requires
        collector.average_collection <= u64::MAX,
    ensures
        ({
            let after = finished(collector, CollectResult::CouldntRun, gc_start, gc_finish);
            let later = gc_finish + collector.average_collection;
            &&& due_by(after, later)
            &&& collector.next_gc is None ==> after.next_gc.unwrap() == later
            &&& collector.next_gc is Some ==> {
                let next = after.next_gc.unwrap();
                let earlier = collector.next_gc.unwrap();
                next <= earlier && (next == earlier || next == later)
            }
            &&& after == CollectorView { next_gc: after.next_gc, ..collector }
        }),
{
}

/// After a collection, or an attempt at one, no collection is announced or asked
/// for, and the readers are those that were there. Only a collection that ran
/// counts as a run.
pub proof fn law_threads_see_the_end_of_a_collection(
    info: InfoView,
    result: CollectResult,
    gc_finish: u64,
)
    ensures
        ({
            let after = info_finished(info, result, gc_finish);
            &&& !after.reader_state.collecting
            &&& after.reader_state.readers == info.reader_state.readers
            &&& result is Collected ==> after.last_run == gc_finish
            &&& result is CouldntRun ==> after.last_run == info.last_run
            &&& !after.signalled_collector
            &&& after.handles == info.handles
            &&& after.types == info.types
            &&& after.next_thread_id == info.next_thread_id
        }),
{
}

/// The collector waits for the readers three average waits for each attempt so
/// far; after two failures it waits as long as it takes.
pub proof fn law_lock_deadline(collector: CollectorView, lock_start: u64)
    requires
        collector.average_collection_locking <= u64::MAX,
        collector.pause_failures <= FORCE_AFTER,
    ensures
        collector.pause_failures == 0 ==> lock_deadline(collector, lock_start) == lock_start + 3
            * collector.average_collection_locking,
        collector.pause_failures == 1 ==> lock_deadline(collector, lock_start) == lock_start + 6
            * collector.average_collection_locking,
        FORCE_AFTER == 2,
        MIN_PAUSE == 100_000_000,
        INITIAL_AVERAGE == 1_000_000,
{
    let average = collector.average_collection_locking;
    let failures = collector.pause_failures;
    if failures == 0 {
        assert(average * (failures + 1) * 3 == 3 * average) by (nonlinear_arith)
            requires
                failures == 0,
        ;
    }
    if failures == 1 {
        assert(average * (failures + 1) * 3 == 6 * average) by (nonlinear_arith)
            requires
                failures == 1,
        ;
    }
}

/// Each collection has a mark of its own: none is zero, and two collections have
/// the same mark only after all others were used.
pub proof fn law_marks(mark_bits: u8)
    ensures
        next_mark(mark_bits) != 0,
        mark_bits < 255 ==> next_mark(mark_bits) == mark_bits + 1,
        mark_bits == 255 ==> next_mark(mark_bits) == 1,
{
}

/// A request asks the collector to collect exactly if no collection has finished
/// since it was made; no other command makes it collect at once.
pub proof fn law_only_unserved_requests_collect<V: AnyValue>(
    state: GlobalView<V>,
    command: CollectorCommand,
    now: u64,
)
    ensures
        command is Collect ==> (asks_to_collect(state, command) <==> state.info.last_run
            < command->Collect_0),
        !(command is Collect) ==> !asks_to_collect(state, command),
        command is Collect ==> accepted(state, command, now) == state,
{
}

/// After a collection no other is announced or asked for, it counts as the last
/// run, and the attempts that failed before it are forgotten.
pub proof fn law_collection_is_over<V: AnyValue>(state: GlobalView<V>, times: CollectionTimes)
    requires
        state.collector.average_collection <= u64::MAX,
        state.collector.average_collection_locking <= u64::MAX,
    ensures
        ({
            let after = after_collection(state, times);
            let waited = elapsed(times.lock_start, times.locked) + 2
                * state.collector.average_collection_locking;
            let took = elapsed(times.gc_start, times.gc_finish) + 2
                * state.collector.average_collection;
            &&& !after.info.reader_state.collecting
            &&& after.info.reader_state.readers == 0
            &&& !after.info.signalled_collector
            &&& after.info.last_run == times.gc_finish
            &&& after.info.types == state.info.types
            &&& after.info.next_thread_id == state.info.next_thread_id
            &&& after.collector.pause_failures == 0
            &&& after.collector.active_threads == state.collector.active_threads
            &&& after.collector.mark_bits == (if state.collector.mark_bits == 255 {
                1
            } else {
                state.collector.mark_bits + 1
            })
            &&& 3 * after.collector.average_collection_locking <= waited
            &&& waited < 3 * after.collector.average_collection_locking + 3
            &&& 3 * after.collector.average_collection <= took
            &&& took < 3 * after.collector.average_collection + 3
            &&& after.collector.next_gc is None <==> after.collector.threads.dom() =~= Set::<
                u64,
            >::empty()
            &&& after.collector.next_gc is Some ==> {
                let slow = times.gc_finish + 100 * after.collector.average_collection;
                let quick = times.gc_finish + 100_000_000;
                let next = after.collector.next_gc.unwrap();
                next >= slow && next >= quick && (next == slow || next == quick)
            }
        }),
{
    let after = after_collection(state, times);
    if after.collector.threads.dom() =~= Set::<u64>::empty() {
        assert(after.collector.threads =~= Map::<u64, bool>::empty());
    }
}

/// To schedule a collection keeps the earlier of the two times.
pub proof fn law_earlier_schedule_wins(next_gc: Option<u128>, target: u128)
    ensures
        scheduled(next_gc, target) is Some,
        scheduled(next_gc, target).unwrap() <= target,
        next_gc is None ==> scheduled(next_gc, target).unwrap() == target,
        next_gc is Some ==> scheduled(next_gc, target).unwrap() <= next_gc.unwrap() && (scheduled(
            next_gc,
            target,
        ).unwrap() == target || scheduled(next_gc, target) == next_gc),
{
}

/// A request is waited for exactly if no collection has finished since it was made.
pub proof fn law_requests_wait_for_later_runs(info: InfoView, requested_at: u64)
    ensures
        waits_for(info, requested_at) <==> info.last_run < requested_at,
{
}

} // verus!
