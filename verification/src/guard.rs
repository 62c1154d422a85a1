//! Pools, and the guards that keep the collector from running.

use vstd::prelude::*;

use crate::any_ref::CollectorThreadId;
use crate::collector::{alive_of, CollectionTimes};
use crate::command::{lemma_command_added, CollectorCommand};
use crate::global::{
    after_collection, after_request, commands_ok, lemma_collection_ok, with_handles,
    GlobalCollector, GlobalView,
};
use crate::heap::has_vacant_id;
use crate::info::{CollectorInfo, InfoView};
use crate::reader_state::{ReaderStateView, ReleaseReadResult, MAX_READERS};
use crate::trace::AnyValue;

verus! {

/// An error indicating an operation would deadlock.
///
/// Guards can be acquired multiple times from the same thread, but some
/// operations require that all guards for the current thread have been
/// released before performing. This error signals when an operation can't
/// succeed because the current thread has an outstanding guard that must be
/// dropped for the operation to be able to be performed.
#[derive(Debug, Clone, Copy, PartialEq, Eq, Structural)]
pub struct WouldDeadlock;

impl WouldDeadlock {
    /// Returns a description of the error.
    pub fn to_string(&self) -> (text: String)
        ensures
            text@ == "current thread has a non-yielding CollectionGuard"@,
    {
        "current thread has a non-yielding CollectionGuard".to_string()
    }
}

/// The state with other readers.
pub open spec fn with_readers<V>(state: GlobalView<V>, readers: int) -> GlobalView<V> {
    GlobalView {
        info: InfoView {
            reader_state: ReaderStateView { readers: readers as nat, ..state.info.reader_state },
            ..state.info
        },
        ..state
    }
}

/// The state with another number of handles to the pool.
pub open spec fn with_handle_count<V>(
    state: GlobalView<V>,
    thread: CollectorThreadId,
    handles: int,
) -> GlobalView<V> {
    GlobalView {
        info: InfoView {
            handles: state.info.handles.insert(thread.id as u64, handles as u64),
            ..state.info
        },
        ..state
    }
}

/// The number of handles to the pool.
pub open spec fn handle_count<V>(state: GlobalView<V>, thread: CollectorThreadId) -> int {
    if state.info.handles.dom().contains(thread.id as u64) {
        state.info.handles[thread.id as u64] as int
    } else {
        0
    }
}

/// The id that comes `steps` after `start`.
pub open spec fn later_id(start: u32, steps: int) -> u32 {
    ((start + steps) % 0x1_0000_0000) as u32
}

/// The id `steps` after `start` is the first one that no pool has.
pub open spec fn first_vacant(handles: Map<u64, u64>, start: u32, steps: int) -> bool {
    &&& 0 <= steps <= u32::MAX
    &&& !handles.dom().contains(later_id(start, steps) as u64)
    &&& forall|i: int|
        0 <= i < steps ==> handles.dom().contains(#[trigger] later_id(start, i) as u64)
}

/// A pool of garbage collected values.
///
/// Values from any pool can be read using any [`CollectionGuard`]. Using
/// independent pools for specific types of data that are meant to be shared
/// across many threads might be beneficial. However, an individual local pool
/// will not be fully deallocated until all values allocated have been
/// collected.
pub struct LocalPool {
    pub thread_id: CollectorThreadId,
}

impl LocalPool {
    /// This is one of the handles to its pool.
    pub open spec fn valid<V>(self, state: GlobalView<V>) -> bool {
        handle_count(state, self.thread_id) > 0
    }

    /// Creates a pool.
    pub fn new<V: AnyValue>(global: &mut GlobalCollector<V>) -> (pool: Self)
        requires
            old(global).wf(),
            has_vacant_id(old(global)@.info.handles),
        ensures
            final(global).wf(),
            exists|steps: int|
                {
                    &&& #[trigger] first_vacant(
                        old(global)@.info.handles,
                        old(global)@.info.next_thread_id,
                        steps,
                    )
                    &&& pool.thread_id.id == later_id(old(global)@.info.next_thread_id, steps)
                    &&& final(global)@ == (GlobalView {
                        info: InfoView {
                            handles: old(global)@.info.handles.insert(pool.thread_id.id as u64, 1),
                            next_thread_id: later_id(old(global)@.info.next_thread_id, steps + 1),
                            ..old(global)@.info
                        },
                        ..old(global)@
                    })
                },
            final(global).commands@ == old(global).commands@.push(
                CollectorCommand::NewThread(pool.thread_id),
            ),
            final(global).info.all_threads.same_slabs(old(global).info.all_threads),
    {
        let ghost before = global@;
        let ghost start = global.info.next_thread_id;
        let ghost mut steps: int = 0;
        let ghost target = choose|id: u64|
            id <= u32::MAX && !(#[trigger] before.info.handles.dom().contains(id));
        let ghost distance = (target - start) % 0x1_0000_0000;
        assert(later_id(start, distance) == target);
        assert(later_id(start, 0) == start);
        loop
            invariant
                global.wf(),
                before == old(global)@,
                start == before.info.next_thread_id,
                global@ == (GlobalView {
                    info: InfoView { next_thread_id: later_id(start, steps), ..before.info },
                    ..before
                }),
                global.commands@ == old(global).commands@,
                global.info.all_threads == old(global).info.all_threads,
                global.info.next_thread_id == later_id(start, steps),
                0 <= steps <= distance <= u32::MAX,
                !before.info.handles.dom().contains(later_id(start, distance) as u64),
                forall|i: int|
                    0 <= i < steps ==> before.info.handles.dom().contains(
                        #[trigger] later_id(start, i) as u64,
                    ),
            decreases distance - steps,
        {
            let thread_id = CollectorThreadId { id: global.info.next_thread_id };
            global.info.next_thread_id = global.info.next_thread_id.wrapping_add(1);
            proof {
                assert(later_id(start, steps + 1) == global.info.next_thread_id);
            }
            if !global.info.all_threads.has_pool(thread_id) {
                proof {
                    assert(first_vacant(before.info.handles, start, steps));
                    let threads = before.collector.threads;
                    lemma_command_added(
                        alive_of(threads),
                        threads.dom(),
                        global.commands@,
                        CollectorCommand::NewThread(thread_id),
                    );
                }
                global.info.all_threads.add_pool(thread_id);
                global.commands.push_back(CollectorCommand::NewThread(thread_id));
                proof {
                    let handles = before.info.handles;
                    assert(with_handles(handles.insert(thread_id.id as u64, 1)) =~= with_handles(
                        handles,
                    ).insert(thread_id.id as u64));
                }
                return LocalPool { thread_id };
            }
            proof {
                if steps == distance {
                    assert(false);
                }
                steps = steps + 1;
            }
        }
    }

    /// Returns another handle to this pool.
    pub fn share<V: AnyValue>(&self, global: &mut GlobalCollector<V>) -> (pool: Self)
        requires
            old(global).wf(),
            self.valid(old(global)@),
            handle_count(old(global)@, self.thread_id) < u64::MAX,
        ensures
            final(global).wf(),
            pool.thread_id == self.thread_id,
            final(global)@ == with_handle_count(
                old(global)@,
                self.thread_id,
                handle_count(old(global)@, self.thread_id) + 1,
            ),
            final(global).commands@ == old(global).commands@,
            final(global).info.all_threads.same_slabs(old(global).info.all_threads),
    {
        let ghost before = global@;
        if let Some(handles) = global.info.all_threads.handle_count(self.thread_id) {
            global.info.all_threads.set_handles(self.thread_id, handles + 1);
        }
        proof {
            let id = self.thread_id.id as u64;
            assert(with_handles(global@.info.handles) =~= with_handles(before.info.handles));
            assert(global@.info.handles.dom() =~= before.info.handles.dom());
        }
        LocalPool { thread_id: self.thread_id }
    }

    /// Gives this handle back. The collector is told if it was the last one.
    pub fn release<V: AnyValue>(self, global: &mut GlobalCollector<V>)
        requires
            old(global).wf(),
            self.valid(old(global)@),
        ensures
            final(global).wf(),
            final(global)@ == with_handle_count(
                old(global)@,
                self.thread_id,
                handle_count(old(global)@, self.thread_id) - 1,
            ),
            final(global).commands@ == (if handle_count(old(global)@, self.thread_id) == 1 {
                old(global).commands@.push(CollectorCommand::ThreadShutdown(self.thread_id))
            } else {
                old(global).commands@
            }),
            final(global).info.all_threads.same_slabs(old(global).info.all_threads),
    {
        let ghost before = global@;
        let ghost commands = global.commands@;
        let ghost id = self.thread_id.id as u64;
        if let Some(handles) = global.info.all_threads.handle_count(self.thread_id) {
            global.info.all_threads.set_handles(self.thread_id, handles - 1);
            assert(global@.info.handles.dom() =~= before.info.handles.dom());
            if handles == 1 {
                proof {
                    let threads = before.collector.threads;
                    lemma_command_added(
                        alive_of(threads),
                        threads.dom(),
                        commands,
                        CollectorCommand::ThreadShutdown(self.thread_id),
                    );
                    assert(with_handles(global@.info.handles) =~= with_handles(
                        before.info.handles,
                    ).remove(id));
                }
                global.commands.push_back(CollectorCommand::ThreadShutdown(self.thread_id));
            } else {
                assert(with_handles(global@.info.handles) =~= with_handles(before.info.handles));
            }
        }
    }
}

/// The pool of a thread, and how many guards the thread holds. Guards that are
/// released for a while or yielding are not counted.
pub struct ThreadPool {
    pub pool: LocalPool,
    pub guard_depth: usize,
}

impl ThreadPool {
    /// Creates the pool of a thread.
    pub fn new<V: AnyValue>(global: &mut GlobalCollector<V>) -> (thread: Self)
        requires
            old(global).wf(),
            has_vacant_id(old(global)@.info.handles),
        ensures
            final(global).wf(),
            thread.guard_depth == 0,
            exists|steps: int|
                {
                    &&& #[trigger] first_vacant(
                        old(global)@.info.handles,
                        old(global)@.info.next_thread_id,
                        steps,
                    )
                    &&& thread.pool.thread_id.id == later_id(
                        old(global)@.info.next_thread_id,
                        steps,
                    )
                    &&& final(global)@ == (GlobalView {
                        info: InfoView {
                            handles: old(global)@.info.handles.insert(
                                thread.pool.thread_id.id as u64,
                                1,
                            ),
                            next_thread_id: later_id(old(global)@.info.next_thread_id, steps + 1),
                            ..old(global)@.info
                        },
                        ..old(global)@
                    })
                },
            final(global).commands@ == old(global).commands@.push(
                CollectorCommand::NewThread(thread.pool.thread_id),
            ),
            final(global).info.all_threads.same_slabs(old(global).info.all_threads),
    {
        ThreadPool { pool: LocalPool::new(global), guard_depth: 0 }
    }

    /// Returns another handle to the thread's pool.
    pub fn get<V: AnyValue>(&self, global: &mut GlobalCollector<V>) -> (pool: LocalPool)
        requires
            old(global).wf(),
            self.pool.valid(old(global)@),
            handle_count(old(global)@, self.pool.thread_id) < u64::MAX,
        ensures
            final(global).wf(),
            pool.thread_id == self.pool.thread_id,
            final(global)@ == with_handle_count(
                old(global)@,
                self.pool.thread_id,
                handle_count(old(global)@, self.pool.thread_id) + 1,
            ),
            final(global).commands@ == old(global).commands@,
            final(global).info.all_threads.same_slabs(old(global).info.all_threads),
    {
        self.pool.share(global)
    }

    /// Returns the number of guards that the thread holds.
    pub fn current_depth(&self) -> (depth: usize)
        ensures
            depth == self.guard_depth,
    {
        self.guard_depth
    }

    /// Returns an error if the thread holds a guard: it would wait for itself if
    /// it waited for a collection.
    pub fn may_collect(&self) -> (result: Result<(), WouldDeadlock>)
        ensures
            result == (if self.guard_depth > 0 {
                Err::<(), WouldDeadlock>(WouldDeadlock)
            } else {
                Ok::<(), WouldDeadlock>(())
            }),
    {
        if self.current_depth() > 0 {
            Err(WouldDeadlock)
        } else {
            Ok(())
        }
    }

    /// Notes that the thread holds one more guard and returns how many it held
    /// before.
    pub fn push_guard(&mut self) -> (depth: usize)
        requires
            old(self).guard_depth < usize::MAX,
        ensures
            depth == old(self).guard_depth,
            *final(self) == (ThreadPool {
                guard_depth: (old(self).guard_depth + 1) as usize,
                ..*old(self)
            }),
    {
        let depth: usize = self.guard_depth;
        self.guard_depth = depth + 1;
        depth
    }

    /// Notes that the thread holds one guard less.
    pub fn release_guard(&mut self)
        requires
            old(self).guard_depth > 0,
        ensures
            *final(self) == (ThreadPool {
                guard_depth: (old(self).guard_depth - 1) as usize,
                ..*old(self)
            }),
    {
        self.guard_depth = self.guard_depth - 1;
    }
}

/// One of the readers that keep the collector from running.
pub struct CollectorReadGuard {}

impl CollectorReadGuard {
    /// Becomes a reader, once the collector is not trying to collect.
    pub fn acquire<V>(info: &mut CollectorInfo<V>) -> (guard: Self)
        requires
            !old(info)@.reader_state.collecting,
            old(info)@.reader_state.readers < MAX_READERS,
        ensures
            final(info)@ == info_with_readers(
                old(info)@,
                old(info)@.reader_state.readers as int + 1,
            ),
            final(info).all_threads == old(info).all_threads,
            final(info).type_indexes == old(info).type_indexes,
    {
        let guard = CollectorReadGuard {  };
        guard.acquire_reader(info);
        guard
    }

    /// Becomes a reader unless the collector is trying to collect.
    pub fn try_acquire<V>(info: &mut CollectorInfo<V>) -> (guard: Option<Self>)
        requires
            old(info)@.reader_state.readers < MAX_READERS,
        ensures
            guard is Some <==> !old(info)@.reader_state.collecting,
            final(info)@ == (if guard is Some {
                info_with_readers(old(info)@, old(info)@.reader_state.readers as int + 1)
            } else {
                old(info)@
            }),
            final(info).all_threads == old(info).all_threads,
            final(info).type_indexes == old(info).type_indexes,
    {
        if info.reader_state.read() {
            Some(CollectorReadGuard {  })
        } else {
            None
        }
    }

    /// Becomes a reader, for a thread that is one already.
    pub fn acquire_recursive<V>(info: &mut CollectorInfo<V>) -> (guard: Self)
        requires
            old(info)@.reader_state.readers < MAX_READERS,
        ensures
            final(info)@ == info_with_readers(
                old(info)@,
                old(info)@.reader_state.readers as int + 1,
            ),
            final(info).all_threads == old(info).all_threads,
            final(info).type_indexes == old(info).type_indexes,
    {
        info.reader_state.read_recursive();
        CollectorReadGuard {  }
    }

    /// Becomes a reader again, once the collector is not trying to collect.
    pub fn acquire_reader<V>(&self, info: &mut CollectorInfo<V>)
        requires
            !old(info)@.reader_state.collecting,
            old(info)@.reader_state.readers < MAX_READERS,
        ensures
            final(info)@ == info_with_readers(
                old(info)@,
                old(info)@.reader_state.readers as int + 1,
            ),
            final(info).all_threads == old(info).all_threads,
            final(info).type_indexes == old(info).type_indexes,
    {
        let acquired: bool = info.reader_state.read();
        assert(acquired);
    }

    /// Returns another reader.
    pub fn read_recursive<V>(&self, info: &mut CollectorInfo<V>) -> (guard: Self)
        requires
            old(info)@.reader_state.readers < MAX_READERS,
        ensures
            final(info)@ == info_with_readers(
                old(info)@,
                old(info)@.reader_state.readers as int + 1,
            ),
            final(info).all_threads == old(info).all_threads,
            final(info).type_indexes == old(info).type_indexes,
    {
        Self::acquire_recursive(info)
    }

    /// Stops being a reader. Returns true if the collector has to be woken up.
    pub fn release_reader<V>(&self, info: &mut CollectorInfo<V>) -> (unpark: bool)
        requires
            old(info)@.reader_state.readers > 0,
        ensures
            unpark == (old(info)@.reader_state.collecting && old(info)@.reader_state.readers == 1),
            final(info)@ == info_with_readers(
                old(info)@,
                old(info)@.reader_state.readers - 1,
            ),
            final(info).all_threads == old(info).all_threads,
            final(info).type_indexes == old(info).type_indexes,
    {
        info.reader_state.release_read()
    }

    /// Stops being a reader if the collector is trying to collect.
    pub fn release_reader_if_collecting<V>(&self, info: &mut CollectorInfo<V>) -> (result:
        ReleaseReadResult)
        requires
            old(info)@.reader_state.readers > 0,
        ensures
            result == (if !old(info)@.reader_state.collecting {
                ReleaseReadResult::Noop
            } else if old(info)@.reader_state.readers == 1 {
                ReleaseReadResult::CollectAndUnpark
            } else {
                ReleaseReadResult::Collect
            }),
            final(info)@ == (if old(info)@.reader_state.collecting {
                info_with_readers(old(info)@, old(info)@.reader_state.readers - 1)
            } else {
                old(info)@
            }),
            final(info).all_threads == old(info).all_threads,
            final(info).type_indexes == old(info).type_indexes,
    {
        info.reader_state.release_read_if_collecting()
    }
}

/// The shared state with other readers.
pub open spec fn info_with_readers(info: InfoView, readers: int) -> InfoView {
    InfoView {
        reader_state: ReaderStateView { readers: readers as nat, ..info.reader_state },
        ..info
    }
}

/// The pool that a guard allocates in.
pub enum Guarded<'a> {
    Local(&'a LocalPool),
    Thread(LocalPool),
}

impl<'a> Guarded<'a> {
    /// The pool that the guard allocates in.
    pub open spec fn id(self) -> CollectorThreadId {
        match self {
            Guarded::Local(pool) => pool.thread_id,
            Guarded::Thread(pool) => pool.thread_id,
        }
    }

    /// Returns the pool that the guard allocates in.
    pub fn pool(&self) -> (pool: &LocalPool)
        ensures
            pool.thread_id == self.id(),
    {
        match self {
            Guarded::Local(pool) => pool,
            Guarded::Thread(pool) => pool,
        }
    }
}

/// A guard that prevents garbage collection while held.
///
/// To perform garbage collection, all threads must be paused to be traced. A
/// [`CollectionGuard`] allows the ability to read garbage-collectable data by
/// ensuring the garbage collector can't run while it exists.
///
/// To ensure the garbage collector can run without long pauses, either:
///
/// - Acquire [`CollectionGuard`]s for short periods of time, releasing the
///   guards when not needed.
/// - Call [`CollectionGuard::yield_to_collector()`] at a regular basis. This
///   function is very cheap to invoke if the collector is not trying to acquire
///   the lock.
pub struct CollectionGuard<'a> {
    pub collector: CollectorReadGuard,
    pub thread: Guarded<'a>,
}

/// The state while one more guard is held, which also is a handle to its pool.
pub open spec fn with_thread_guard<V>(state: GlobalView<V>, thread: CollectorThreadId) -> GlobalView<
    V,
> {
    with_readers(
        with_handle_count(state, thread, handle_count(state, thread) + 1),
        state.info.reader_state.readers as int + 1,
    )
}

impl<'a> CollectionGuard<'a> {
    /// The pool that this guard allocates in.
    pub open spec fn id(self) -> CollectorThreadId {
        self.thread.id()
    }

    /// This is one of the guards that are held, and its pool has a handle.
    pub open spec fn valid<V>(self, state: GlobalView<V>) -> bool {
        &&& handle_count(state, self.id()) > 0
        &&& state.info.reader_state.readers > 0
    }

    /// Returns true if a thread would have to wait for the collector to acquire
    /// a guard.
    pub fn must_wait<V>(thread: &ThreadPool, global: &GlobalCollector<V>) -> (wait: bool)
        ensures
            wait == (thread.guard_depth == 0 && global@.info.reader_state.collecting),
    {
        thread.current_depth() == 0 && global.info.reader_state.collecting()
    }

    /// Acquires a lock that prevents the garbage collector from running.
    ///
    /// It is safe to acquire multiple guards on the same thread. The collector
    /// will only be able to run when all guards have been released. The thread's
    /// first guard can only be acquired while the collector is not trying to
    /// collect.
    pub fn acquire<V: AnyValue>(thread: &mut ThreadPool, global: &mut GlobalCollector<V>) -> (guard:
        CollectionGuard<'static>)
        requires
            old(global).wf(),
            old(thread).pool.valid(old(global)@),
            old(thread).guard_depth == 0 ==> !old(global)@.info.reader_state.collecting,
            old(thread).guard_depth < usize::MAX,
            handle_count(old(global)@, old(thread).pool.thread_id) < u64::MAX,
            old(global)@.info.reader_state.readers < MAX_READERS,
        ensures
            final(global).wf(),
            *final(thread) == (ThreadPool {
                guard_depth: (old(thread).guard_depth + 1) as usize,
                ..*old(thread)
            }),
            guard.id() == old(thread).pool.thread_id,
            guard.thread is Thread,
            guard.valid(final(global)@),
            final(global)@ == with_thread_guard(old(global)@, guard.id()),
            final(global).commands@ == old(global).commands@,
            final(global).info.all_threads.same_slabs(old(global).info.all_threads),
    {
        let pool = thread.get(global);
        let depth: usize = thread.push_guard();
        let collector = if depth == 0 {
            CollectorReadGuard::acquire(&mut global.info)
        } else {
            CollectorReadGuard::acquire_recursive(&mut global.info)
        };
        CollectionGuard { collector, thread: Guarded::Thread(pool) }
    }

    /// Tries to acquire a lock that prevents the garbage collector from
    /// running.
    ///
    /// The function will return None if the collector is attempting to run
    /// garbage collection, and this thread is not already guarded.
    pub fn try_acquire<V: AnyValue>(thread: &mut ThreadPool, global: &mut GlobalCollector<V>) -> (guard:
        Option<CollectionGuard<'static>>)
        requires
            old(global).wf(),
            old(thread).pool.valid(old(global)@),
            old(thread).guard_depth < usize::MAX,
            handle_count(old(global)@, old(thread).pool.thread_id) < u64::MAX,
            old(global)@.info.reader_state.readers < MAX_READERS,
        ensures
            final(global).wf(),
            guard is None <==> old(thread).guard_depth == 0
                && old(global)@.info.reader_state.collecting,
            match guard {
                Some(guard) => {
                    &&& *final(thread) == (ThreadPool {
                        guard_depth: (old(thread).guard_depth + 1) as usize,
                        ..*old(thread)
                    })
                    &&& guard.id() == old(thread).pool.thread_id
                    &&& guard.thread is Thread
                    &&& guard.valid(final(global)@)
                    &&& final(global)@ == with_thread_guard(old(global)@, guard.id())
                },
                None => {
                    &&& *final(thread) == *old(thread)
                    &&& final(global)@ == old(global)@
                },
            },
            final(global).commands@ == old(global).commands@,
            final(global).info.all_threads.same_slabs(old(global).info.all_threads),
    {
        let collector = if thread.current_depth() == 0 {
            match CollectorReadGuard::try_acquire(&mut global.info) {
                Some(collector) => collector,
                None => return None,
            }
        } else {
            CollectorReadGuard::acquire_recursive(&mut global.info)
        };
        let pool = thread.get(global);
        thread.push_guard();
        Some(CollectionGuard { collector, thread: Guarded::Thread(pool) })
    }

    /// Returns a guard that allocates from `pool`.
    pub fn allocating_in<'b, V: AnyValue>(
        &self,
        pool: &'b LocalPool,
        thread: &mut ThreadPool,
        global: &mut GlobalCollector<V>,
    ) -> (guard: CollectionGuard<'b>)
        requires
            old(global).wf(),
            pool.valid(old(global)@),
            self.valid(old(global)@),
            old(thread).guard_depth < usize::MAX,
            old(global)@.info.reader_state.readers < MAX_READERS,
        ensures
            final(global).wf(),
            *final(thread) == (ThreadPool {
                guard_depth: (old(thread).guard_depth + 1) as usize,
                ..*old(thread)
            }),
            guard.id() == pool.thread_id,
            guard.thread is Local,
            guard.valid(final(global)@),
            final(global)@ == with_readers(
                old(global)@,
                old(global)@.info.reader_state.readers as int + 1,
            ),
            final(global).commands@ == old(global).commands@,
            final(global).info.all_threads == old(global).info.all_threads,
    {
        thread.push_guard();
        CollectionGuard {
            collector: self.collector.read_recursive(&mut global.info),
            thread: Guarded::Local(pool),
        }
    }

    /// Releases this guard's lock for a while, unless another guard is held by
    /// the current thread. Returns true if the collector has to be woken up.
    ///
    /// Until [`relock()`](Self::relock) the guard does not count as held.
    pub fn unlock<V: AnyValue>(&mut self, thread: &mut ThreadPool, global: &mut GlobalCollector<V>) -> (result:
        Result<bool, WouldDeadlock>)
        requires
            old(global).wf(),
            old(self).valid(old(global)@),
        ensures
            final(global).wf(),
            *final(self) == *old(self),
            match result {
                Ok(unpark) => {
                    &&& old(thread).guard_depth == 1
                    &&& *final(thread) == (ThreadPool { guard_depth: 0, ..*old(thread) })
                    &&& unpark == (old(global)@.info.reader_state.collecting
                        && old(global)@.info.reader_state.readers == 1)
                    &&& differs_in_readers(
                        *old(global),
                        *final(global),
                        old(global)@.info.reader_state.readers - 1,
                    )
                },
                Err(_) => {
                    &&& old(thread).guard_depth != 1
                    &&& *final(thread) == *old(thread)
                    &&& final(global)@ == old(global)@
                    &&& final(global).commands@ == old(global).commands@
                    &&& final(global).info.all_threads == old(global).info.all_threads
                },
            },
    {
        if thread.current_depth() != 1 {
            return Err(WouldDeadlock);
        }
        thread.release_guard();
        Ok(self.collector.release_reader(&mut global.info))
    }

    /// Acquires this guard's lock again, once the collector is not trying to
    /// collect.
    pub fn relock<V: AnyValue>(&mut self, thread: &mut ThreadPool, global: &mut GlobalCollector<V>)
        requires
            old(global).wf(),
            handle_count(old(global)@, old(self).id()) > 0,
            !old(global)@.info.reader_state.collecting,
            old(global)@.info.reader_state.readers < MAX_READERS,
            old(thread).guard_depth < usize::MAX,
        ensures
            final(global).wf(),
            *final(self) == *old(self),
            final(self).valid(final(global)@),
            *final(thread) == (ThreadPool {
                guard_depth: (old(thread).guard_depth + 1) as usize,
                ..*old(thread)
            }),
            differs_in_readers(
                *old(global),
                *final(global),
                old(global)@.info.reader_state.readers as int + 1,
            ),
    {
        self.collector.acquire_reader(&mut global.info);
        thread.push_guard();
    }

    /// Manually invokes the garbage collector.
    ///
    /// This method temporarily releases this guard's lock and waits for a
    /// garbage collection to run. If a garbage collection is already in
    /// progress, this function will return when the in-progress collection
    /// completes. Finally, the guard is reacquired before returning.
    ///
    /// No other guard may be held by the current thread, nor, while the
    /// collector waits for it, by another one.
    pub fn collect<V: AnyValue>(
        &mut self,
        thread: &mut ThreadPool,
        global: &mut GlobalCollector<V>,
        now: u64,
        times: CollectionTimes,
    )
        requires
            old(global).wf(),
            old(self).valid(old(global)@),
            old(thread).guard_depth == 1,
            old(global)@.info.reader_state.readers == 1,
            now <= times.gc_finish,
        ensures
            final(global).wf(),
            *final(self) == *old(self),
            final(self).valid(final(global)@),
            *final(thread) == *old(thread),
            final(global)@ == collected_unlocked(
                old(global)@,
                old(global).commands@,
                now,
                times,
            ),
            final(global).commands@ == Seq::<CollectorCommand>::empty(),
            final(global)@.info.last_run >= now,
            !final(global)@.info.reader_state.collecting,
            final(global).info.all_threads.no_more_slabs(old(global).info.all_threads),
            forall|id: u64| #[trigger]
                with_handles(old(global)@.info.handles).contains(id) ==> with_handles(
                    final(global)@.info.handles,
                ).contains(id) && final(global)@.info.handles[id] == old(global)@.info.handles[id],
    {
        let result = self.try_collect(thread, global, now, times);
        assert(result is Ok);
    }

    /// Manually invokes the garbage collector, unless another guard is held by
    /// the current thread.
    pub fn try_collect<V: AnyValue>(
        &mut self,
        thread: &mut ThreadPool,
        global: &mut GlobalCollector<V>,
        now: u64,
        times: CollectionTimes,
    ) -> (result: Result<(), WouldDeadlock>)
        requires
            old(global).wf(),
            old(self).valid(old(global)@),
            old(thread).guard_depth == 1 ==> old(global)@.info.reader_state.readers == 1,
            now <= times.gc_finish,
        ensures
            final(global).wf(),
            *final(self) == *old(self),
            final(self).valid(final(global)@),
            *final(thread) == *old(thread),
            result == (if old(thread).guard_depth == 1 {
                Ok::<(), WouldDeadlock>(())
            } else {
                Err::<(), WouldDeadlock>(WouldDeadlock)
            }),
            match result {
                Ok(_) => {
                    &&& final(global)@ == collected_unlocked(
                        old(global)@,
                        old(global).commands@,
                        now,
                        times,
                    )
                    &&& final(global).commands@ == Seq::<CollectorCommand>::empty()
                    &&& final(global)@.info.last_run >= now
                    &&& !final(global)@.info.reader_state.collecting
                    &&& final(global).info.all_threads.no_more_slabs(old(global).info.all_threads)
                    &&& forall|id: u64| #[trigger]
                        with_handles(old(global)@.info.handles).contains(id) ==> with_handles(
                            final(global)@.info.handles,
                        ).contains(id) && final(global)@.info.handles[id] == old(global)@.info.handles[id]
                },
                Err(_) => {
                    &&& final(global)@ == old(global)@
                    &&& final(global).commands@ == old(global).commands@
                    &&& final(global).info.all_threads == old(global).info.all_threads
                },
            },
    {
        if let Err(error) = self.unlock(thread, global) {
            return Err(error);
        }
        assert(with_handles(global@.info.handles).contains(self.id().id as u64));
        global.collect_unchecked(now, times);
        self.relock(thread, global);
        Ok(())
    }
}

/// A pending yield to the garbage collector.
pub struct Yielder {
    collector: CollectorReadGuard,
    unpark: bool,
}

/// A marker indicating that a [coordinated
/// yield](CollectionGuard::coordinated_yield) has completed.
pub struct YieldComplete {
    _priv: (),
}

impl Yielder {
    /// The collector has to be woken up.
    pub closed spec fn wakes_collector(self) -> bool {
        self.unpark
    }

    /// Returns true if the collector has to be woken up.
    pub fn must_unpark(&self) -> (unpark: bool)
        ensures
            unpark == self.wakes_collector(),
    {
        self.unpark
    }

    /// Waits for the garbage collector to finish the current collection: the
    /// guard is acquired again once the collector is not trying to collect.
    pub fn wait<V: AnyValue>(self, thread: &mut ThreadPool, global: &mut GlobalCollector<V>) -> (complete:
        YieldComplete)
        requires
            old(global).wf(),
            !old(global)@.info.reader_state.collecting,
            old(global)@.info.reader_state.readers < MAX_READERS,
            old(thread).guard_depth < usize::MAX,
        ensures
            final(global).wf(),
            *final(thread) == (ThreadPool {
                guard_depth: (old(thread).guard_depth + 1) as usize,
                ..*old(thread)
            }),
            final(global)@ == with_readers(
                old(global)@,
                old(global)@.info.reader_state.readers as int + 1,
            ),
            final(global).commands@ == old(global).commands@,
            final(global).info.all_threads == old(global).info.all_threads,
    {
        self.collector.acquire_reader(&mut global.info);
        thread.push_guard();
        YieldComplete { _priv: () }
    }
}

/// `after` is `before`, but for other readers.
pub open spec fn differs_in_readers<V>(
    before: GlobalCollector<V>,
    after: GlobalCollector<V>,
    readers: int,
) -> bool {
    &&& after@ == with_readers(before@, readers)
    &&& after.commands@ == before.commands@
    &&& after.info.all_threads == before.info.all_threads
}

impl<'a> CollectionGuard<'a> {
    /// Yield to the garbage collector, if needed.
    ///
    /// This function will not yield unless the garbage collector is trying to
    /// acquire this thread's lock. If it is, the collection is carried out and
    /// the guard is acquired again.
    ///
    /// If any other guards are currently held by this thread, this function
    /// does nothing.
    pub fn yield_to_collector<V: AnyValue>(
        &mut self,
        thread: &mut ThreadPool,
        global: &mut GlobalCollector<V>,
        times: CollectionTimes,
    )
        requires
            old(global).wf(),
            old(self).valid(old(global)@),
            old(thread).guard_depth == 1 && old(global)@.info.reader_state.collecting ==> old(
                global,
            )@.info.reader_state.readers == 1,
        ensures
            final(global).wf(),
            *final(self) == *old(self),
            final(self).valid(final(global)@),
            *final(thread) == *old(thread),
            final(global)@ == (if old(thread).guard_depth == 1
                && old(global)@.info.reader_state.collecting {
                with_readers(after_collection(with_readers(old(global)@, 0), times), 1)
            } else {
                old(global)@
            }),
            final(global).commands@ == old(global).commands@,
            final(global).info.all_threads.no_more_slabs(old(global).info.all_threads),
    {
        proof {
            let unlocked = with_readers(global@, 0);
            assert(commands_ok(unlocked, global.commands@));
            lemma_collection_ok(unlocked, global.commands@, times);
            assert(with_handles(unlocked.info.handles).contains(self.id().id as u64));
        }
        let collect_and_wait = |
            yielder: Yielder,
            yielding: &mut ThreadPool,
            unlocked: &mut GlobalCollector<V>,
        | -> (complete: YieldComplete)
            requires
                unlocked.wf(),
                unlocked@.info.reader_state.readers == 0,
                yielding.guard_depth == 0,
            ensures
                final(unlocked).wf(),
                final(unlocked)@ == with_readers(after_collection(old(unlocked)@, times), 1),
                final(unlocked).commands@ == old(unlocked).commands@,
                final(unlocked).info.all_threads.no_more_slabs(old(unlocked).info.all_threads),
                *final(yielding) == (ThreadPool { guard_depth: 1, ..*old(yielding) })
        {
            unlocked.collect_and_notify(times);
            yielder.wait(yielding, unlocked)
        };
        self.coordinated_yield(thread, global, collect_and_wait);
    }

    /// Begins to yield, if the garbage collector is trying to acquire this
    /// thread's lock and no other guard is held by the current thread.
    ///
    /// Until [`Yielder::wait()`] the guard does not count as held.
    pub fn begin_yield<V: AnyValue>(&mut self, thread: &mut ThreadPool, global: &mut GlobalCollector<V>) -> (pending:
        Option<Yielder>)
        requires
            old(global).wf(),
            old(self).valid(old(global)@),
        ensures
            final(global).wf(),
            *final(self) == *old(self),
            match pending {
                Some(yielder) => {
                    &&& old(thread).guard_depth == 1
                    &&& old(global)@.info.reader_state.collecting
                    &&& *final(thread) == (ThreadPool { guard_depth: 0, ..*old(thread) })
                    &&& yielder.wakes_collector() == (old(global)@.info.reader_state.readers == 1)
                    &&& differs_in_readers(
                        *old(global),
                        *final(global),
                        old(global)@.info.reader_state.readers - 1,
                    )
                },
                None => {
                    &&& !(old(thread).guard_depth == 1 && old(global)@.info.reader_state.collecting)
                    &&& *final(thread) == *old(thread)
                    &&& final(global)@ == old(global)@
                    &&& final(global).commands@ == old(global).commands@
                    &&& final(global).info.all_threads == old(global).info.all_threads
                },
            },
    {
        // Only the outermost guard attempts to yield.
        if thread.current_depth() != 1 {
            return None;
        }
        let unpark: bool = match self.collector.release_reader_if_collecting(&mut global.info) {
            ReleaseReadResult::CollectAndUnpark => true,
            ReleaseReadResult::Collect => false,
            ReleaseReadResult::Noop => return None,
        };
        thread.release_guard();
        Some(Yielder { collector: CollectorReadGuard {  }, unpark })
    }

    /// Perform a coordinated yield to the collector, if needed.
    ///
    /// This function is useful if the code yielding has held locks that the
    /// garbage collector might need during the tracing process.
    ///
    /// If this function detects that it should yield to the collector,
    /// `yielder` will be invoked. The function can do whatever else is needed
    /// before waiting for the collector to finish, and then invoke
    /// [`Yielder::wait()`]. Until then this guard does not count as held by the
    /// thread that is handed to `yielder`.
    ///
    /// If this function does not yield, `yielder` is not invoked.
    ///
    /// This function will not yield unless the garbage collector is trying to
    /// acquire this thread's lock. If any other guards are currently held by
    /// this thread, this function does nothing.
    pub fn coordinated_yield<V: AnyValue, F: FnOnce(
        Yielder,
        &mut ThreadPool,
        &mut GlobalCollector<V>,
    ) -> YieldComplete>(
        &mut self,
        thread: &mut ThreadPool,
        global: &mut GlobalCollector<V>,
        yielder: F,
    ) -> (yielded: bool)
        requires
            old(global).wf(),
            old(self).valid(old(global)@),
            old(thread).guard_depth == 1 && old(global)@.info.reader_state.collecting ==> forall|
                pending: Yielder,
                yielding: &mut ThreadPool,
                unlocked: &mut GlobalCollector<V>,
            |
                #![trigger yielder.requires((pending, yielding, unlocked))]
                unlocked.wf() && pending.wakes_collector() == (old(global)@.info.reader_state.readers == 1)
                    && *yielding == (ThreadPool { guard_depth: 0, ..*old(thread) })
                    && differs_in_readers(
                    *old(global),
                    *unlocked,
                    old(global)@.info.reader_state.readers - 1,
                ) ==> yielder.requires((pending, yielding, unlocked)),
        ensures
            *final(self) == *old(self),
            yielded == (old(thread).guard_depth == 1 && old(global)@.info.reader_state.collecting),
            if yielded {
                exists|
                    pending: Yielder,
                    yielding: &mut ThreadPool,
                    unlocked: &mut GlobalCollector<V>,
                    complete: YieldComplete,
                |
                    {
                        &&& #[trigger] yielder.ensures((pending, yielding, unlocked), complete)
                        &&& unlocked.wf()
                        &&& pending.wakes_collector() == (old(global)@.info.reader_state.readers == 1)
                        &&& *yielding == (ThreadPool { guard_depth: 0, ..*old(thread) })
                        &&& differs_in_readers(
                            *old(global),
                            *unlocked,
                            old(global)@.info.reader_state.readers - 1,
                        )
                        &&& *final(thread) == *final(yielding)
                        &&& *final(global) == *final(unlocked)
                    }
            } else {
                &&& final(global).wf()
                &&& *final(thread) == *old(thread)
                &&& final(global)@ == old(global)@
                &&& final(global).commands@ == old(global).commands@
                &&& final(global).info.all_threads == old(global).info.all_threads
            },
    {
        match self.begin_yield(thread, global) {
            Some(pending) => {
                let complete: YieldComplete = yielder(pending, thread, global);
                true
            },
            None => false,
        }
    }

    /// Executes `unlocked` while this guard is temporarily released. It does not
    /// count as held by the thread that is handed to `unlocked`.
    ///
    /// No other guard may be held by the current thread.
    pub fn while_unlocked<V: AnyValue, R, F: FnOnce(&mut ThreadPool, &mut GlobalCollector<V>) -> R>(
        &mut self,
        thread: &mut ThreadPool,
        global: &mut GlobalCollector<V>,
        unlocked: F,
    ) -> (result: R)
        requires
            old(global).wf(),
            old(self).valid(old(global)@),
            old(thread).guard_depth == 1,
            forall|free: &mut ThreadPool, released: &mut GlobalCollector<V>|
                #![trigger unlocked.requires((free, released))]
                released.wf() && *free == (ThreadPool { guard_depth: 0, ..*old(thread) })
                    && differs_in_readers(
                    *old(global),
                    *released,
                    old(global)@.info.reader_state.readers - 1,
                ) ==> unlocked.requires((free, released)),
            forall|
                free: &mut ThreadPool,
                released: &mut GlobalCollector<V>,
                result: R,
            |
                #![trigger unlocked.ensures((free, released), result)]
                released.wf() && *free == (ThreadPool { guard_depth: 0, ..*old(thread) })
                    && differs_in_readers(
                    *old(global),
                    *released,
                    old(global)@.info.reader_state.readers - 1,
                ) && unlocked.ensures((free, released), result) ==> {
                    &&& final(released).wf()
                    &&& !final(released)@.info.reader_state.collecting
                    &&& final(released)@.info.reader_state.readers < MAX_READERS
                    &&& handle_count(final(released)@, old(self).id()) > 0
                    &&& final(free).guard_depth < usize::MAX
                },
        ensures
            final(global).wf(),
            *final(self) == *old(self),
            final(self).valid(final(global)@),
            exists|free: &mut ThreadPool, released: &mut GlobalCollector<V>|
                {
                    &&& #[trigger] unlocked.ensures((free, released), result)
                    &&& released.wf()
                    &&& *free == (ThreadPool { guard_depth: 0, ..*old(thread) })
                    &&& differs_in_readers(
                        *old(global),
                        *released,
                        old(global)@.info.reader_state.readers - 1,
                    )
                    &&& *final(thread) == (ThreadPool {
                        guard_depth: (final(free).guard_depth + 1) as usize,
                        ..*final(free)
                    })
                    &&& differs_in_readers(
                        *final(released),
                        *final(global),
                        final(released)@.info.reader_state.readers as int + 1,
                    )
                },
    {
        self.try_while_unlocked(thread, global, unlocked).unwrap()
    }

    /// Executes `unlocked` while this guard is temporarily released, unless
    /// another guard is held by the current thread.
    pub fn try_while_unlocked<
        V: AnyValue,
        R,
        F: FnOnce(&mut ThreadPool, &mut GlobalCollector<V>) -> R,
    >(&mut self, thread: &mut ThreadPool, global: &mut GlobalCollector<V>, unlocked: F) -> (result:
        Result<R, WouldDeadlock>)
        requires
            old(global).wf(),
            old(self).valid(old(global)@),
            old(thread).guard_depth == 1 ==> forall|
                free: &mut ThreadPool,
                released: &mut GlobalCollector<V>,
            |
                #![trigger unlocked.requires((free, released))]
                released.wf() && *free == (ThreadPool { guard_depth: 0, ..*old(thread) })
                    && differs_in_readers(
                    *old(global),
                    *released,
                    old(global)@.info.reader_state.readers - 1,
                ) ==> unlocked.requires((free, released)),
            old(thread).guard_depth == 1 ==> forall|
                free: &mut ThreadPool,
                released: &mut GlobalCollector<V>,
                result: R,
            |
                #![trigger unlocked.ensures((free, released), result)]
                released.wf() && *free == (ThreadPool { guard_depth: 0, ..*old(thread) })
                    && differs_in_readers(
                    *old(global),
                    *released,
                    old(global)@.info.reader_state.readers - 1,
                ) && unlocked.ensures((free, released), result) ==> {
                    &&& final(released).wf()
                    &&& !final(released)@.info.reader_state.collecting
                    &&& final(released)@.info.reader_state.readers < MAX_READERS
                    &&& handle_count(final(released)@, old(self).id()) > 0
                    &&& final(free).guard_depth < usize::MAX
                },
        ensures
            final(global).wf(),
            *final(self) == *old(self),
            final(self).valid(final(global)@),
            result is Ok <==> old(thread).guard_depth == 1,
            match result {
                Ok(_) => exists|free: &mut ThreadPool, released: &mut GlobalCollector<V>, value: R|
                {
                    &&& result == Ok::<R, WouldDeadlock>(value)
                    &&& #[trigger] unlocked.ensures((free, released), value)
                    &&& released.wf()
                    &&& *free == (ThreadPool { guard_depth: 0, ..*old(thread) })
                    &&& differs_in_readers(
                        *old(global),
                        *released,
                        old(global)@.info.reader_state.readers - 1,
                    )
                    &&& *final(thread) == (ThreadPool {
                        guard_depth: (final(free).guard_depth + 1) as usize,
                        ..*final(free)
                    })
                    &&& differs_in_readers(
                        *final(released),
                        *final(global),
                        final(released)@.info.reader_state.readers as int + 1,
                    )
                },
                Err(_) => {
                    &&& *final(thread) == *old(thread)
                    &&& final(global)@ == old(global)@
                    &&& final(global).commands@ == old(global).commands@
                    &&& final(global).info.all_threads == old(global).info.all_threads
                },
            },
    {
        if let Err(error) = self.unlock(thread, global) {
            return Err(error);
        }
        let result = unlocked(thread, global);
        self.relock(thread, global);
        Ok(result)
    }

    /// Releases this guard. Returns true if the collector has to be woken up.
    pub fn release<V: AnyValue>(self, thread: &mut ThreadPool, global: &mut GlobalCollector<V>) -> (unpark:
        bool)
        requires
            old(global).wf(),
            self.valid(old(global)@),
            old(thread).guard_depth > 0,
        ensures
            final(global).wf(),
            *final(thread) == (ThreadPool {
                guard_depth: (old(thread).guard_depth - 1) as usize,
                ..*old(thread)
            }),
            unpark == (old(global)@.info.reader_state.collecting
                && old(global)@.info.reader_state.readers == 1),
            ({
                let state = with_readers(
                    old(global)@,
                    old(global)@.info.reader_state.readers - 1,
                );
                let handles = handle_count(old(global)@, self.id());
                &&& final(global)@ == (if self.thread is Thread {
                    with_handle_count(state, self.id(), handles - 1)
                } else {
                    state
                })
                &&& final(global).commands@ == (if self.thread is Thread && handles == 1 {
                    old(global).commands@.push(CollectorCommand::ThreadShutdown(self.id()))
                } else {
                    old(global).commands@
                })
            }),
            final(global).info.all_threads.same_slabs(old(global).info.all_threads),
    {
        thread.release_guard();
        let unpark: bool = self.collector.release_reader(&mut global.info);
        match self.thread {
            Guarded::Thread(pool) => pool.release(global),
            Guarded::Local(_) => {},
        }
        unpark
    }
}

impl LocalPool {
    /// Acquires a collection guard for this pool.
    ///
    /// The thread's first guard can only be acquired while the collector is not
    /// trying to collect.
    pub fn enter<'a, V: AnyValue>(&'a self, thread: &mut ThreadPool, global: &mut GlobalCollector<V>) -> (guard:
        CollectionGuard<'a>)
        requires
            old(global).wf(),
            self.valid(old(global)@),
            old(thread).guard_depth == 0 ==> !old(global)@.info.reader_state.collecting,
            old(thread).guard_depth < usize::MAX,
            old(global)@.info.reader_state.readers < MAX_READERS,
        ensures
            final(global).wf(),
            *final(thread) == (ThreadPool {
                guard_depth: (old(thread).guard_depth + 1) as usize,
                ..*old(thread)
            }),
            guard.id() == self.thread_id,
            guard.thread is Local,
            guard.valid(final(global)@),
            differs_in_readers(
                *old(global),
                *final(global),
                old(global)@.info.reader_state.readers as int + 1,
            ),
    {
        let depth: usize = thread.push_guard();
        let collector = if depth == 0 {
            CollectorReadGuard::acquire(&mut global.info)
        } else {
            CollectorReadGuard::acquire_recursive(&mut global.info)
        };
        CollectionGuard { collector, thread: Guarded::Local(self) }
    }
}

/// Invokes the garbage collector.
///
/// No guard may be held and not yielding by the current thread, nor, while the
/// collector waits for it, by another one.
pub fn collect<V: AnyValue>(
    thread: &ThreadPool,
    global: &mut GlobalCollector<V>,
    now: u64,
    times: CollectionTimes,
)
    requires
        old(global).wf(),
        thread.guard_depth == 0,
        old(global)@.info.reader_state.readers == 0,
        now <= times.gc_finish,
    ensures
        final(global).wf(),
        final(global).commands@ == Seq::<CollectorCommand>::empty(),
        final(global)@ == after_request(old(global)@, old(global).commands@, now, times),
        final(global)@.info.last_run >= now,
        !final(global)@.info.reader_state.collecting,
        final(global)@.info.reader_state.readers == 0,
        final(global).info.all_threads.no_more_slabs(old(global).info.all_threads),
        forall|id: u64| #[trigger]
            with_handles(old(global)@.info.handles).contains(id) ==> with_handles(
                final(global)@.info.handles,
            ).contains(id) && final(global)@.info.handles[id] == old(global)@.info.handles[id],
{
    let result = try_collect(thread, global, now, times);
    assert(result is Ok);
}

/// Invokes the garbage collector, unless any guard is held and not yielding by
/// the current thread.
pub fn try_collect<V: AnyValue>(
    thread: &ThreadPool,
    global: &mut GlobalCollector<V>,
    now: u64,
    times: CollectionTimes,
) -> (result: Result<(), WouldDeadlock>)
    requires
        old(global).wf(),
        thread.guard_depth == 0 ==> old(global)@.info.reader_state.readers == 0,
        now <= times.gc_finish,
    ensures
        final(global).wf(),
        result == (if thread.guard_depth > 0 {
            Err::<(), WouldDeadlock>(WouldDeadlock)
        } else {
            Ok::<(), WouldDeadlock>(())
        }),
        match result {
            Ok(_) => {
                &&& final(global).commands@ == Seq::<CollectorCommand>::empty()
                &&& final(global)@ == after_request(old(global)@, old(global).commands@, now, times)
                &&& final(global)@.info.last_run >= now
                &&& !final(global)@.info.reader_state.collecting
                &&& final(global)@.info.reader_state.readers == 0
                &&& final(global).info.all_threads.no_more_slabs(old(global).info.all_threads)
                &&& forall|id: u64| #[trigger]
                    with_handles(old(global)@.info.handles).contains(id) ==> with_handles(
                        final(global)@.info.handles,
                    ).contains(id) && final(global)@.info.handles[id] == old(global)@.info.handles[id]
            },
            Err(_) => {
                &&& final(global).commands@ == old(global).commands@
                &&& final(global)@ == old(global)@
                &&& final(global).info.all_threads == old(global).info.all_threads
            },
        },
{
    if let Err(error) = thread.may_collect() {
        return Err(error);
    }
    global.collect_unchecked(now, times);
    Ok(())
}

/// The state after a guard was released, a collection was requested and the
/// guard was acquired again.
pub open spec fn collected_unlocked<V: AnyValue>(
    state: GlobalView<V>,
    commands: Seq<CollectorCommand>,
    now: u64,
    times: CollectionTimes,
) -> GlobalView<V> {
    with_readers(after_request(with_readers(state, 0), commands, now, times), 1)
}

} // verus!
