//! The parts that the collector is made of.

use refuse::any_ref::{CollectorThreadId, TypeIndex};
use refuse::bin::Bin;
use refuse::bin_id::BinId;
use refuse::collector::{CollectResult, CollectionTimes, Collector, LockStatus};
use refuse::command::CollectorCommand;
use refuse::global::{GlobalCollector, NextCommand};
use refuse::guard::ThreadPool;
use refuse::keyed_store::KeyedStore;
use refuse::pool::PooledString;
use refuse::reader_state::{ReaderState, ReleaseReadResult};
use refuse::slab::{Rooted, Slab, Slabs};
use refuse::slot_state::{SlotState, SlotSweepStatus};
use refuse::trace::{Trace, Tracer};
use refuse::type_index::TypeIndexes;
use std::collections::{BTreeMap, HashMap, VecDeque};

#[test]
fn bin_ids() {
    assert!(BinId { raw: 0 }.invalid());
    assert_eq!(BinId::first().raw, 256);
    assert!(!BinId::first().invalid());
    let id = BinId::new(3, 7);
    assert_eq!(id.raw, 1031);
    assert_eq!(id.slab(), 3);
    assert_eq!(id.slot(), 7);
    let last = BinId::new(0xFF_FFFE, 255);
    assert_eq!(last.raw, u32::MAX);
    assert_eq!(last.slab(), 0xFF_FFFE);
}

#[test]
fn slot_states() {
    let mut state = SlotState::new();
    assert_eq!(state.generation(), None);
    assert_eq!(state.allocate(), 1);
    assert_eq!(state.generation(), Some(1));
    assert!(state.allocated_with_generation(1));
    assert!(!state.allocated_with_generation(0));
    assert_eq!(state.try_allocate(), None);
    assert!(!state.mark(5, 0));
    assert!(state.mark(5, 1));
    assert!(!state.mark(5, 1));
    assert_eq!(state.sweep(5), SlotSweepStatus::Allocated);
    assert_eq!(state.sweep(6), SlotSweepStatus::Swept);
    assert_eq!(state.sweep(6), SlotSweepStatus::NotAllocated);
    assert_eq!(state.generation(), None);
    assert_eq!(state.try_allocate(), Some(2));
    let first = SlotState::new_allocated();
    assert_eq!(first.generation(), Some(0));
}

#[test]
fn generations_wrap() {
    let mut state = SlotState { bits: u32::MAX as u64 };
    assert_eq!(state.try_allocate(), Some(0));
}

#[test]
fn a_slab_fills_up() {
    let mut slab: Slab<u32> = Slab::new(Rooted::reference(0));
    for index in 1..256 {
        match slab.try_adopt(Rooted::reference(index), 0) {
            Ok(adopted) => {
                assert_eq!(adopted.bin_id, BinId::new(0, index as u8));
                assert_eq!(adopted.generation, 1);
                assert_eq!(adopted.slab_filled, index == 255);
            }
            Err(_) => panic!("there is room"),
        }
    }
    match slab.try_adopt(Rooted::root(256), 0) {
        Ok(_) => panic!("there is no room"),
        Err(returned) => {
            assert_eq!(*returned.value, 256);
            assert_eq!(returned.roots, 1);
        }
    }
}

#[test]
fn slabs_grow() {
    let mut slabs: Slabs<u32> = Slabs::new(Rooted::reference(0));
    for index in 1..600_u32 {
        let adopted = slabs.adopt(Rooted::reference(index));
        assert_eq!(adopted.bin_id.raw, 256 + index);
        assert_eq!(adopted.generation, if index % 256 == 0 { 0 } else { 1 });
    }
    assert!(slabs.get(2).is_some());
    assert!(slabs.get(3).is_none());
    assert!(!slabs.is_full());
}

#[test]
fn a_bin_reuses_what_was_freed() {
    let text = || Rooted::reference(PooledString::new(0, String::new()));
    let mut bin = Bin::new(text(), TypeIndex { index: 0 }, CollectorThreadId { id: 0 });
    assert_eq!(bin.sweep(1), 0);
    let reused = bin.adopt(text());
    assert_eq!((reused.bin_id.raw, reused.generation), (256, 1));
    let next = bin.adopt(text());
    assert_eq!((next.bin_id.raw, next.generation), (257, 1));
    assert!(bin.load(BinId { raw: 256 }, 0).is_none());
    assert!(bin.load(BinId { raw: 256 }, 1).is_some());
}

#[test]
fn readers_and_the_collector() {
    let mut state = ReaderState::new();
    assert!(state.read());
    state.read_recursive();
    assert_eq!(state.readers(), 2);
    assert_eq!(state.release_read_if_collecting(), ReleaseReadResult::Noop);
    assert!(!state.write());
    assert!(state.collecting());
    assert!(!state.read());
    assert_eq!(state.release_read_if_collecting(), ReleaseReadResult::Collect);
    assert_eq!(state.readers(), 1);
    state.read_recursive();
    assert!(!state.release_read());
    assert_eq!(state.release_read_if_collecting(), ReleaseReadResult::CollectAndUnpark);
    assert_eq!(state.readers(), 0);
    state.release_write();
    assert!(!state.collecting());
    assert!(state.write());
    assert!(!state.write());
    state.read_recursive();
    assert!(state.release_read());
}

#[test]
fn keyed_values() {
    let mut store: KeyedStore<u32> = KeyedStore::new();
    assert!(store.is_empty());
    assert_eq!(store.insert(7, 70), None);
    assert_eq!(store.insert(3, 30), None);
    assert_eq!(store.insert(7, 71), Some(70));
    assert_eq!(store.len(), 2);
    assert_eq!(store.get(7), Some(&71));
    assert_eq!(store.get(8), None);
    assert_eq!(store.keys(), vec![3, 7]);
    if let Some(value) = store.get_mut(3) {
        *value = 31;
    }
    assert_eq!(store.remove(3), Some(31));
    assert_eq!(store.remove(3), None);
    assert_eq!(store.insert(1, 10), None);
    assert_eq!(store.keys(), vec![1, 7]);
    store.clear();
    assert!(store.is_empty());
    assert_eq!(store.len(), 0);
}

#[test]
fn types_are_numbered() {
    let mut types = TypeIndexes::new();
    assert_eq!(types.of_key(50), TypeIndex { index: 0 });
    assert_eq!(types.of_key(10), TypeIndex { index: 1 });
    assert_eq!(types.of_key(50), TypeIndex { index: 0 });
    assert!(types.can_number(30));
    assert_eq!(types.of_key(30), TypeIndex { index: 2 });
    assert!(types.can_number(30));
}

#[test]
fn scheduling() {
    let mut collector = Collector::new();
    collector.schedule_gc(500);
    assert_eq!(collector.next_gc, Some(500));
    collector.schedule_gc(900);
    assert_eq!(collector.next_gc, Some(500));
    collector.schedule_gc(400);
    assert_eq!(collector.next_gc, Some(400));
}

fn known(global: &mut GlobalCollector<PooledString>) -> ThreadPool {
    let thread = ThreadPool::new(global);
    global.run(CollectionTimes { gc_start: 0, lock_start: 0, locked: 0, gc_finish: 0 });
    thread
}

#[test]
fn waiting_for_exclusive_access() {
    let mut global: GlobalCollector<PooledString> = GlobalCollector::new(0);
    let _thread = known(&mut global);
    global.info.reader_state.read();
    // The first two attempts wait for three and six times the average.
    for (failures, deadline) in [(0_u8, 3_000_010_u64), (1, 6_000_010)] {
        assert_eq!(global.collector.pause_failures, failures);
        global.collector.begin_collection(&mut global.info);
        assert_eq!(
            global.collector.poll_locks(&global.info, 10, 10),
            LockStatus::Park(Some(deadline as u128))
        );
        assert_eq!(
            global.collector.poll_locks(&global.info, 10, deadline),
            LockStatus::Park(Some(deadline as u128))
        );
        assert_eq!(
            global.collector.poll_locks(&global.info, 10, deadline + 1),
            LockStatus::GaveUp
        );
        global.collector.give_up(&mut global.info);
        assert!(!global.info.reader_state.collecting());
        global.collector.finish_collection(
            &mut global.info,
            CollectResult::CouldntRun,
            10,
            deadline + 1,
        );
        assert_eq!(global.info.last_run, 0);
        assert_eq!(global.collector.next_gc, Some(deadline as u128 + 1 + 1_000_000));
    }
    // After that the collector waits indefinitely.
    global.collector.begin_collection(&mut global.info);
    assert_eq!(
        global.collector.poll_locks(&global.info, 10, u64::MAX),
        LockStatus::Park(None)
    );
    assert!(global.info.reader_state.release_read());
    assert_eq!(global.collector.poll_locks(&global.info, 10, 11), LockStatus::Acquired);
    global.collector.collect(&mut global.info, 10, 40);
    assert_eq!(global.collector.pause_failures, 0);
    assert_eq!(global.collector.mark_bits, 3);
    assert_eq!(global.collector.average_collection_locking, 666_676);
    global.collector.finish_collection(
        &mut global.info,
        CollectResult::Collected,
        10,
        100,
    );
    assert_eq!(global.info.last_run, 100);
    assert_eq!(global.collector.average_collection, 666_696);
    assert_eq!(global.collector.next_gc, Some(100 + 100_000_000));
}

#[test]
fn a_request_is_waited_for_past_failed_attempts() {
    let mut global: GlobalCollector<PooledString> = GlobalCollector::new(5);
    let mut thread = ThreadPool::new(&mut global);
    let guard = refuse::guard::CollectionGuard::acquire(&mut thread, &mut global);
    assert!(!global.info.wait_for_collection(5));
    assert!(global.info.wait_for_collection(6));
    for attempt in 0..2_u64 {
        global.collector.begin_collection(&mut global.info);
        let far = 1_000_000_000_000;
        assert_eq!(
            global.collector.poll_locks(&global.info, 10, far),
            LockStatus::GaveUp
        );
        global.collector.give_up(&mut global.info);
        global.collector.finish_collection(
            &mut global.info,
            CollectResult::CouldntRun,
            10 + attempt,
            20 + attempt,
        );
        assert_eq!(global.info.last_run, 5);
        assert!(global.info.wait_for_collection(6));
    }
    // Now the collector waits for the guard however long that takes.
    global.collector.begin_collection(&mut global.info);
    assert_eq!(global.collector.poll_locks(&global.info, 10, u64::MAX), LockStatus::Park(None));
    guard.release(&mut thread, &mut global);
    assert_eq!(global.collector.poll_locks(&global.info, 10, 30), LockStatus::Acquired);
    global.collect_and_notify(CollectionTimes {
        gc_start: 30,
        lock_start: 30,
        locked: 31,
        gc_finish: 32,
    });
    assert!(!global.info.wait_for_collection(6));
    assert!(!global.info.wait_for_collection(32));
    assert!(global.info.wait_for_collection(33));
}

#[test]
fn long_collections_are_far_apart() {
    let mut global: GlobalCollector<PooledString> = GlobalCollector::new(0);
    let _thread = known(&mut global);
    global.collect_and_notify(CollectionTimes {
        gc_start: 0,
        lock_start: 0,
        locked: 0,
        gc_finish: 10_000_000,
    });
    assert_eq!(global.collector.average_collection, 4_000_000);
    assert_eq!(global.collector.next_gc, Some(410_000_000));
}

#[test]
fn no_pause_without_pools() {
    let mut global: GlobalCollector<PooledString> = GlobalCollector::new(0);
    global.collect_and_notify(CollectionTimes {
        gc_start: 5,
        lock_start: 5,
        locked: 5,
        gc_finish: 4,
    });
    assert_eq!(global.collector.next_gc, None);
    assert_eq!(global.collector.average_collection, 666_666);
    assert_eq!(global.collector.mark_bits, 1);
}

#[test]
fn marks_skip_zero() {
    let mut global: GlobalCollector<PooledString> = GlobalCollector::new(0);
    let times = CollectionTimes { gc_start: 0, lock_start: 0, locked: 0, gc_finish: 0 };
    for mark in 1..=255_u8 {
        global.collect_and_notify(times);
        assert_eq!(global.collector.mark_bits, mark);
    }
    global.collect_and_notify(times);
    assert_eq!(global.collector.mark_bits, 1);
}

#[test]
fn commands_come_first() {
    let mut global: GlobalCollector<PooledString> = GlobalCollector::new(0);
    assert_eq!(global.next_command(0), NextCommand::Wait(None));
    let thread = ThreadPool::new(&mut global);
    let id = CollectorThreadId { id: 0 };
    assert_eq!(thread.pool.thread_id, id);
    global.schedule_collect_if_needed();
    global.schedule_collect_if_needed();
    assert_eq!(global.commands.len(), 2);
    assert_eq!(
        global.next_command(0),
        NextCommand::Command(CollectorCommand::NewThread(id))
    );
    assert!(!global.accept(CollectorCommand::NewThread(id), 0));
    assert_eq!(global.collector.active_threads, 1);
    assert_eq!(
        global.next_command(0),
        NextCommand::Command(CollectorCommand::ScheduleCollect)
    );
    assert!(!global.accept(CollectorCommand::ScheduleCollect, 7));
    assert_eq!(global.next_command(0), NextCommand::Wait(Some(5_000_007)));
    assert_eq!(global.next_command(5_000_006), NextCommand::Wait(Some(5_000_007)));
    assert_eq!(global.next_command(5_000_007), NextCommand::Collect);
}

#[test]
fn requests_older_than_the_last_run_are_served() {
    let mut global: GlobalCollector<PooledString> = GlobalCollector::new(10);
    assert!(!global.info.wait_for_collection(10));
    assert!(global.info.wait_for_collection(11));
    assert!(!global.accept(CollectorCommand::Collect(10), 20));
    assert!(global.accept(CollectorCommand::Collect(11), 20));
}

#[test]
fn containers_trace_their_items() {
    let pooled = |raw: u32| refuse::any_ref::AnyRef {
        bin_id: BinId { raw },
        creating_thread: CollectorThreadId { id: 0 },
        type_index: TypeIndex { index: 0 },
        slot_generation: 0,
    };
    let mut tracer = Tracer::new(CollectorThreadId { id: 0 });
    vec![pooled(1), pooled(2)].trace(&mut tracer);
    assert_eq!(tracer.requests, vec![pooled(1), pooled(2)]);

    let mut tracer = Tracer::new(CollectorThreadId { id: 0 });
    let mut deque = VecDeque::new();
    deque.push_back(pooled(1));
    deque.push_front(pooled(2));
    deque.trace(&mut tracer);
    assert_eq!(tracer.requests, vec![pooled(2), pooled(1)]);

    let mut tracer = Tracer::new(CollectorThreadId { id: 0 });
    [pooled(4), pooled(5)].trace(&mut tracer);
    assert_eq!(tracer.requests, vec![pooled(4), pooled(5)]);

    let mut tracer = Tracer::new(CollectorThreadId { id: 0 });
    BTreeMap::from([(2_u64, pooled(8)), (1, pooled(7))]).trace(&mut tracer);
    assert_eq!(tracer.requests, vec![pooled(7), pooled(8)]);

    let mut tracer = Tracer::new(CollectorThreadId { id: 0 });
    HashMap::from([(2_u64, pooled(8)), (1, pooled(7))]).trace(&mut tracer);
    tracer.requests.sort();
    assert_eq!(tracer.requests, vec![pooled(7), pooled(8)]);

    let mut tracer = Tracer::new(CollectorThreadId { id: 0 });
    vec![1_u32, 2].trace(&mut tracer);
    assert!(tracer.requests.is_empty());
    assert!(!<Vec<u32> as Trace>::MAY_CONTAIN_REFERENCES);
    assert!(<Vec<refuse::any_ref::AnyRef> as Trace>::MAY_CONTAIN_REFERENCES);
}
