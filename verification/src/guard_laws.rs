//! What pools and guards do.

use vstd::prelude::*;

use crate::any_ref::CollectorThreadId;
use crate::global::{with_handles, GlobalCollector, GlobalView};
use crate::guard::{
    differs_in_readers, first_vacant, handle_count, info_with_readers, later_id,
    with_handle_count, with_readers, with_thread_guard, CollectionGuard, LocalPool,
};
use crate::heap::has_vacant_id;
use crate::info::InfoView;
use crate::reader_state::ReaderState;

verus! {

/// The two states differ in nothing but the readers and the handles.
pub open spec fn same_but_guards<V>(before: GlobalView<V>, after: GlobalView<V>) -> bool {
    &&& after.cells == before.cells
    &&& after.generations == before.generations
    &&& after.layouts == before.layouts
    &&& after.collector == before.collector
    &&& after.info.reader_state.collecting == before.info.reader_state.collecting
    &&& after.info.last_run == before.info.last_run
    &&& after.info.signalled_collector == before.info.signalled_collector
    &&& after.info.types == before.info.types
    &&& after.info.next_thread_id == before.info.next_thread_id
}

/// Guards that are taken or released change the number of readers and nothing else.
pub proof fn law_readers_are_counted<V>(
    before: GlobalCollector<V>,
    after: GlobalCollector<V>,
    readers: int,
)
    requires
        readers >= 0,
        differs_in_readers(before, after, readers),
    ensures
        after@.info.reader_state.readers == readers,
        after@.info.handles == before@.info.handles,
        same_but_guards(before@, after@),
        after.commands@ == before.commands@,
{
}

/// A state with another number of readers is the same otherwise.
pub proof fn law_state_with_readers<V>(state: GlobalView<V>, readers: int)
    requires
        readers >= 0,
    ensures
        with_readers(state, readers).info.reader_state.readers == readers,
        with_readers(state, readers).info.handles == state.info.handles,
        same_but_guards(state, with_readers(state, readers)),
{
}

/// What the threads share with another number of readers is the same otherwise.
pub proof fn law_info_with_readers(info: InfoView, readers: int)
    requires
        readers >= 0,
    ensures
        info_with_readers(info, readers).reader_state.readers == readers,
        info_with_readers(info, readers).reader_state.collecting == info.reader_state.collecting,
        info_with_readers(info, readers).last_run == info.last_run,
        info_with_readers(info, readers).signalled_collector == info.signalled_collector,
        info_with_readers(info, readers).handles == info.handles,
        info_with_readers(info, readers).types == info.types,
        info_with_readers(info, readers).next_thread_id == info.next_thread_id,
{
}

/// Another number of handles to a pool changes only that. A pool that does not
/// exist has none.
pub proof fn law_handles_are_counted<V>(
    state: GlobalView<V>,
    thread: CollectorThreadId,
    handles: int,
    other: u64,
)
    requires
        0 <= handles <= u64::MAX,
    ensures
        ({
            let after = with_handle_count(state, thread, handles);
            let id = thread.id as u64;
            &&& after.info.handles.dom().contains(id)
            &&& after.info.handles[id] == handles
            &&& other != id ==> {
                &&& after.info.handles.dom().contains(other) <==> state.info.handles.dom().contains(
                    other,
                )
                &&& after.info.handles[other] == state.info.handles[other]
            }
            &&& after.info.reader_state == state.info.reader_state
            &&& same_but_guards(state, after)
            &&& state.info.handles.dom().contains(id) ==> handle_count(state, thread)
                == state.info.handles[id]
            &&& !state.info.handles.dom().contains(id) ==> handle_count(state, thread) == 0
        }),
{
}

/// A guard of a thread is one more reader and one more handle to the thread's pool,
/// and nothing else.
pub proof fn law_acquired_guards_are_counted<V>(
    state: GlobalView<V>,
    thread: CollectorThreadId,
    other: u64,
)
    requires
        0 < handle_count(state, thread) < u64::MAX,
    ensures
        ({
            let after = with_thread_guard(state, thread);
            let id = thread.id as u64;
            &&& after.info.reader_state.readers == state.info.reader_state.readers + 1
            &&& after.info.handles.dom().contains(id)
            &&& after.info.handles[id] == state.info.handles[id] + 1
            &&& other != id ==> {
                &&& after.info.handles.dom().contains(other) <==> state.info.handles.dom().contains(
                    other,
                )
                &&& after.info.handles[other] == state.info.handles[other]
            }
            &&& same_but_guards(state, after)
        }),
{
}

/// A guard allocates in the pool that it was made for.
pub proof fn law_guards_allocate_in_their_pool<'a, V>(
    guard: CollectionGuard<'a>,
    pool: LocalPool,
    state: GlobalView<V>,
)
    ensures
        guard.thread is Local ==> guard.id() == guard.thread->Local_0.thread_id,
        guard.thread is Thread ==> guard.id() == guard.thread->Thread_0.thread_id,
        guard.valid(state) <==> state.info.reader_state.readers > 0
            && state.info.handles.dom().contains(guard.id().id as u64)
            && state.info.handles[guard.id().id as u64] > 0,
        pool.valid(state) <==> state.info.handles.dom().contains(pool.thread_id.id as u64)
            && state.info.handles[pool.thread_id.id as u64] > 0,
{
}

/// A new pool gets an id that no pool has: the first such id from the one that
/// comes after that of the pool made before it, where zero follows the largest id.
pub proof fn law_new_pool_has_a_new_id(
    handles: Map<u64, u64>,
    start: u32,
    steps: int,
    id: u32,
    other: u32,
)
    requires
        first_vacant(handles, start, steps),
        id == later_id(start, steps),
    ensures
        !handles.dom().contains(id as u64),
        start <= id && start <= other < id ==> handles.dom().contains(other as u64),
        start > id && (other >= start || other < id) ==> handles.dom().contains(other as u64),
        id < u32::MAX ==> later_id(start, steps + 1) == id + 1,
        id == u32::MAX ==> later_id(start, steps + 1) == 0,
{
    let distance = (other - start) % 0x1_0000_0000;
    assert(later_id(start, distance) == other);
    if start <= id {
        assert(steps == id - start);
        if start <= other < id {
            assert(distance == other - start);
        }
    } else {
        assert(steps == id - start + 0x1_0000_0000);
        if other >= start {
            assert(distance == other - start);
        } else if other < id {
            assert(distance == other - start + 0x1_0000_0000);
        }
    }
}

/// A pool has a handle if it exists and the number of its handles is not zero.
pub proof fn law_pools_with_handles(handles: Map<u64, u64>, id: u64)
    ensures
        with_handles(handles).contains(id) <==> handles.dom().contains(id) && handles[id] != 0,
{
}

/// There is an id for another pool as long as some id has no pool.
pub proof fn law_ids_run_out_last(handles: Map<u64, u64>, id: u32)
    ensures
        !handles.dom().contains(id as u64) ==> has_vacant_id(handles),
        (forall|other: u32| handles.dom().contains(#[trigger] (other as u64))) ==> !has_vacant_id(
            handles,
        ),
{
    if forall|other: u32| handles.dom().contains(#[trigger] (other as u64)) {
        assert forall|vacant: u64| vacant <= u32::MAX implies handles.dom().contains(vacant) by {
            let other = vacant as u32;
            assert(handles.dom().contains(other as u64));
        }
    }
}

/// The state word says in its top bit whether a collection is announced, and in the
/// others how many readers there are.
pub proof fn law_reader_word(word: ReaderState)
    ensures
        word@.collecting <==> word.state >= 0x8000_0000_0000_0000,
        word@.collecting ==> word@.readers == word.state - 0x8000_0000_0000_0000,
        !word@.collecting ==> word@.readers == word.state,
{
}

} // verus!
