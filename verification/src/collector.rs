//! When the collector runs and what a collection does.

use vstd::prelude::*;
use vstd::set_lib::set_int_range;

use crate::any_ref::{Addr, AnyRef, CollectorThreadId, TypeIndex};
use crate::bin_id::BinId;
use crate::heap::{addresses_of, swept_layouts, BinAddr, Heap};
use crate::info::{CollectorInfo, InfoView};
use crate::keyed_store::KeyedStore;
use crate::layout::Layout;
use crate::mark::mark_reachable;
use crate::reach::{reachable, rooted};
use crate::reader_state::ReaderStateView;
use crate::slab::Cell;
use crate::trace::{AnyValue, Tracer};

verus! {

/// The pause between collections is at least this many nanoseconds.
pub const MIN_PAUSE: u128 = 100_000_000;

/// The average durations that a collector starts with, in nanoseconds.
pub const INITIAL_AVERAGE: u128 = 1_000_000;

/// After this many failures in a row to get exclusive access, the collector
/// waits for it indefinitely.
pub const FORCE_AFTER: u8 = 2;

/// A pool that the collector knows of.
pub struct ThreadBins {
    pub alive: bool,
}

/// The times at which the phases of a collection happen, in nanoseconds.
#[derive(Clone, Copy)]
pub struct CollectionTimes {
    /// The collection begins.
    pub gc_start: u64,
    /// The collector begins to wait for exclusive access.
    pub lock_start: u64,
    /// The collector has exclusive access.
    pub locked: u64,
    /// The collection is over.
    pub gc_finish: u64,
}

/// What has become of an attempt to get exclusive access.
#[derive(Clone, Copy, PartialEq, Eq, Structural, Debug)]
pub enum LockStatus {
    /// There are no readers left.
    Acquired,
    /// Wait until a reader leaves, or until the given time.
    Park(Option<u128>),
    /// The deadline has passed.
    GaveUp,
}

/// What has become of a collection.
#[derive(Clone, Copy, PartialEq, Eq, Structural, Debug)]
pub enum CollectResult {
    Collected,
    CouldntRun,
}

/// The collector's own state.
pub struct Collector {
    pub thread_bins: KeyedStore<ThreadBins>,
    pub active_threads: u64,
    pub mark_bits: u8,
    pub next_gc: Option<u128>,
    pub pause_failures: u8,
    pub average_collection: u128,
    pub average_collection_locking: u128,
}

/// The duration between two times, zero if the clock went backwards.
pub open spec fn elapsed(from: u64, to: u64) -> u128 {
    if to > from {
        (to - from) as u128
    } else {
        0
    }
}

/// A moving average, weighted towards its previous value.
pub open spec fn next_average(average: u128, duration: u128) -> u128 {
    ((duration + 2 * average) / 3) as u128
}

/// The mark after `mark_bits`; zero is left out.
pub open spec fn next_mark(mark_bits: u8) -> u8 {
    if mark_bits == 255 {
        1
    } else {
        (mark_bits + 1) as u8
    }
}

/// The mark before `mark_bits`; before the first collection it is zero.
pub open spec fn previous_mark(mark_bits: u8) -> u8 {
    if mark_bits == 0 {
        0
    } else if mark_bits == 1 {
        255
    } else {
        (mark_bits - 1) as u8
    }
}

/// The mark of the last collection that ran, before `failures` that did not.
pub open spec fn last_mark(mark_bits: u8, failures: u8) -> u8 {
    if failures == 0 {
        mark_bits
    } else if failures == 1 {
        previous_mark(mark_bits)
    } else {
        previous_mark(previous_mark(mark_bits))
    }
}

/// The earlier of a time that may be scheduled and `target`.
pub open spec fn scheduled(next_gc: Option<u128>, target: u128) -> Option<u128> {
    match next_gc {
        Some(time) => if target < time {
            Some(target)
        } else {
            next_gc
        },
        None => Some(target),
    }
}

/// What a collection leaves: the reachable values, marked.
pub open spec fn collected<V: AnyValue>(cells: Map<Addr, Cell<V>>, mark_bits: u8) -> Map<
    Addr,
    Cell<V>,
> {
    Map::new(
        |addr: Addr| cells.dom().contains(addr) && reachable(cells, addr),
        |addr: Addr| Cell { mark: mark_bits, ..cells[addr] },
    )
}

/// There is a value in the pool.
pub open spec fn occupied<V>(cells: Map<Addr, Cell<V>>, pool: u64) -> bool {
    exists|addr: Addr| addr.thread == pool && #[trigger] cells.dom().contains(addr)
}

/// Drops every unmarked value and returns the pools that are empty then.
pub fn sweep_pools<V: AnyValue>(heap: &mut Heap<V>, mark_bits: u8) -> (emptied: Vec<u64>)
    requires
        old(heap).wf(),
    ensures
        final(heap).wf(),
        final(heap).handles() == old(heap).handles(),
        final(heap).generations() == old(heap).generations(),
        final(heap).layouts() == swept_layouts(
            old(heap).layouts(),
            old(heap).cells().dom(),
            final(heap).cells().dom(),
        ),
        final(heap).same_slabs(*old(heap)),
        final(heap).cells() == old(heap).cells().restrict(
            Set::new(|addr: Addr| old(heap).cells()[addr].mark == mark_bits),
        ),
        emptied@.no_duplicates(),
        forall|id: u64| #[trigger]
            emptied@.contains(id) <==> old(heap).handles().dom().contains(id) && !occupied(
                final(heap).cells(),
                id,
            ),
{
    let ghost start = heap.cells();
    let ghost layouts = heap.layouts();
    let ghost ids = heap.handles().dom();
    let keys: Vec<u64> = heap.pools.keys();
    let mut emptied: Vec<u64> = Vec::new();
    let mut i: usize = 0;
    proof {
        assert(start =~= start.restrict(Set::new(|addr: Addr| kept(start, keys@, 0, mark_bits, addr))));
        assert(layouts =~= swept_first(layouts, start.dom(), start.dom(), keys@, 0));
    }
    while i < keys.len()
        invariant
            heap.wf(),
            heap.handles() == old(heap).handles(),
            heap.generations() == old(heap).generations(),
            heap.same_slabs(*old(heap)),
            start == old(heap).cells(),
            layouts == old(heap).layouts(),
            heap.layouts() == swept_first(
                layouts,
                start.dom(),
                heap.cells().dom(),
                keys@,
                i as int,
            ),
            ids == old(heap).handles().dom(),
            i <= keys@.len(),
            forall|a: int, b: int| 0 <= a < b < keys@.len() ==> keys@[a] < keys@[b],
            forall|key: u64| #[trigger] keys@.contains(key) <==> ids.contains(key),
            forall|key: u64| #[trigger] keys@.contains(key) ==> key <= u32::MAX,
            heap.cells() == start.restrict(
                Set::new(|addr: Addr| kept(start, keys@, i as int, mark_bits, addr)),
            ),
            emptied@.no_duplicates(),
            forall|id: u64| #[trigger]
                emptied@.contains(id) <==> (exists|j: int| 0 <= j < i && #[trigger] keys@[j] == id)
                    && !occupied(heap.cells(), id),
        decreases keys@.len() - i,
    {
        let ghost before = heap.cells();
        let ghost emptied_before = emptied@;
        let key: u64 = keys[i];
        assert(keys@.contains(key));
        let thread = CollectorThreadId { id: key as u32 };
        let pool_occupied: bool = heap.sweep(thread, mark_bits);
        proof {
            let after = heap.cells();
            assert forall|addr: Addr|
                kept(start, keys@, i + 1, mark_bits, addr) == (kept(
                    start,
                    keys@,
                    i as int,
                    mark_bits,
                    addr,
                ) && (addr.thread == thread.id ==> start[addr].mark == mark_bits)) by {
                if addr.thread == thread.id {
                    assert(keys@[i as int] == addr.thread);
                }
            }
            assert(after =~= start.restrict(
                Set::new(|addr: Addr| kept(start, keys@, i + 1, mark_bits, addr)),
            ));
            assert forall|id: u64| id != key implies occupied(after, id) == occupied(before, id) by {
                if occupied(before, id) {
                    let addr = choose|addr: Addr|
                        addr.thread == id && #[trigger] before.dom().contains(addr);
                    assert(after.dom().contains(addr));
                }
                if occupied(after, id) {
                    let addr = choose|addr: Addr|
                        addr.thread == id && #[trigger] after.dom().contains(addr);
                    assert(before.dom().contains(addr));
                }
            }
            assert(heap.layouts() =~= swept_first(
                layouts,
                start.dom(),
                after.dom(),
                keys@,
                i + 1,
            )) by {
                assert forall|bin: BinAddr| #[trigger] layouts.dom().contains(bin) implies heap.layouts()[bin]
                    == swept_first(layouts, start.dom(), after.dom(), keys@, i + 1)[bin] by {
                    lemma_first_next(keys@, i as int, bin.thread);
                    if bin.thread == thread.id {
                        assert(!among_first(keys@, i as int, bin.thread));
                        assert(addresses_of(before.dom(), bin) =~= addresses_of(start.dom(), bin)) by {
                            assert forall|raw: u32|
                                addresses_of(before.dom(), bin).contains(raw) == addresses_of(
                                    start.dom(),
                                    bin,
                                ).contains(raw) by {
                                let addr = Addr {
                                    thread: bin.thread,
                                    type_index: bin.type_index,
                                    raw,
                                };
                                assert(kept(start, keys@, i as int, mark_bits, addr));
                            }
                        }
                    } else {
                        assert(addresses_of(after.dom(), bin) =~= addresses_of(before.dom(), bin));
                    }
                }
            }
            assert(pool_occupied == occupied(after, key));
            if emptied_before.contains(key) {
                let j = choose|j: int| 0 <= j < i && #[trigger] keys@[j] == key;
                assert(false);
            }
        }
        if !pool_occupied {
            emptied.push(key);
        }
        proof {
            assert forall|id: u64| #[trigger]
                emptied@.contains(id) <==> (exists|j: int| 0 <= j < i + 1 && #[trigger] keys@[j] == id)
                    && !occupied(heap.cells(), id) by {
                if emptied@.contains(id) {
                    let k = choose|k: int| 0 <= k < emptied@.len() && emptied@[k] == id;
                    if k < emptied_before.len() {
                        assert(emptied_before[k] == id);
                        assert(emptied_before.contains(id));
                    }
                }
                if emptied_before.contains(id) {
                    let k = choose|k: int| 0 <= k < emptied_before.len() && emptied_before[k] == id;
                    assert(emptied@[k] == id);
                }
                if id == key {
                    assert(keys@[i as int] == id);
                    if !pool_occupied {
                        assert(emptied@.last() == id);
                    }
                }
            }
        }
        i = i + 1;
    }
    proof {
        assert forall|addr: Addr| #[trigger] start.dom().contains(addr) implies kept(
            start,
            keys@,
            keys@.len() as int,
            mark_bits,
            addr,
        ) == (start[addr].mark == mark_bits) by {
            assert(old(heap).handles().dom().contains(addr.thread as u64));
            assert(keys@.contains(addr.thread as u64));
        }
        assert(heap.cells() =~= start.restrict(
            Set::new(|addr: Addr| start[addr].mark == mark_bits),
        ));
        assert forall|bin: BinAddr| #[trigger] layouts.dom().contains(bin) implies among_first(
            keys@,
            keys@.len() as int,
            bin.thread,
        ) by {
            assert(old(heap).handles().dom().contains(bin.thread as u64));
            assert(keys@.contains(bin.thread as u64));
        }
        assert(heap.layouts() =~= swept_layouts(layouts, start.dom(), heap.cells().dom()));
        assert forall|id: u64| #[trigger] emptied@.contains(id) <==> ids.contains(id) && !occupied(
            heap.cells(),
            id,
        ) by {
            if ids.contains(id) {
                assert(keys@.contains(id));
            }
            if exists|j: int| 0 <= j < keys@.len() && #[trigger] keys@[j] == id {
                assert(keys@.contains(id));
            }
        }
    }
    emptied
}

/// The pool is among the first `count`.
spec fn among_first(keys: Seq<u64>, count: int, thread: u32) -> bool {
    exists|j: int| 0 <= j < count && #[trigger] keys[j] == thread
}

/// One more pool is among the first ones.
proof fn lemma_first_next(keys: Seq<u64>, count: int, thread: u32)
    requires
        0 <= count < keys.len(),
        forall|a: int, b: int| 0 <= a < b < keys.len() ==> keys[a] < keys[b],
    ensures
        among_first(keys, count + 1, thread) == (among_first(keys, count, thread) || keys[count]
            == thread),
        keys[count] == thread ==> !among_first(keys, count, thread),
{
    if keys[count] == thread {
        assert(among_first(keys, count + 1, thread));
    }
}

/// The layouts once the first `count` pools are swept and the values at `kept` are
/// left of those at `held`.
spec fn swept_first(
    layouts: Map<BinAddr, Layout>,
    held: Set<Addr>,
    kept: Set<Addr>,
    keys: Seq<u64>,
    count: int,
) -> Map<BinAddr, Layout> {
    Map::new(
        |bin: BinAddr| layouts.dom().contains(bin),
        |bin: BinAddr|
            if among_first(keys, count, bin.thread) {
                layouts[bin].swept(addresses_of(held, bin), addresses_of(kept, bin))
            } else {
                layouts[bin]
            },
    )
}

/// The value stays when the first `count` pools are swept.
spec fn kept<V>(
    cells: Map<Addr, Cell<V>>,
    keys: Seq<u64>,
    count: int,
    mark_bits: u8,
    addr: Addr,
) -> bool {
    among_first(keys, count, addr.thread) ==> cells[addr].mark == mark_bits
}

/// Everything about a [`Collector`].
#[verifier::ext_equal]
pub ghost struct CollectorView {
    /// The known pools, and whether each has a handle.
    pub threads: Map<u64, bool>,
    pub active_threads: nat,
    pub mark_bits: u8,
    pub next_gc: Option<u128>,
    pub pause_failures: u8,
    pub average_collection: u128,
    pub average_collection_locking: u128,
}

impl View for Collector {
    type V = CollectorView;

    open spec fn view(&self) -> CollectorView {
        CollectorView {
            threads: Map::new(
                |id: u64| self.thread_bins@.dom().contains(id),
                |id: u64| self.thread_bins@[id].alive,
            ),
            active_threads: self.active_threads as nat,
            mark_bits: self.mark_bits,
            next_gc: self.next_gc,
            pause_failures: self.pause_failures,
            average_collection: self.average_collection,
            average_collection_locking: self.average_collection_locking,
        }
    }
}

/// The pools that have a handle.
pub open spec fn alive_of(threads: Map<u64, bool>) -> Set<u64> {
    Set::new(|id: u64| threads.dom().contains(id) && threads[id])
}

/// Every value is unmarked or was marked by the last collection that ran.
pub open spec fn marks_ok<V>(cells: Map<Addr, Cell<V>>, collector: CollectorView) -> bool {
    forall|addr: Addr| #[trigger]
        cells.dom().contains(addr) ==> cells[addr].mark == 0 || cells[addr].mark == last_mark(
            collector.mark_bits,
            collector.pause_failures,
        )
}

/// The time until which the collector waits for exclusive access.
pub open spec fn lock_deadline(collector: CollectorView, lock_start: u64) -> u128 {
    (lock_start + collector.average_collection_locking * (collector.pause_failures + 1) * 3) as u128
}

/// The pause after a collection.
pub open spec fn pause_after(average_collection: u128) -> u128 {
    if average_collection * 100 > MIN_PAUSE {
        (average_collection * 100) as u128
    } else {
        MIN_PAUSE
    }
}

impl Collector {
    pub open spec fn wf(self) -> bool {
        &&& self.thread_bins.wf()
        &&& forall|id: u64| #[trigger] self@.threads.dom().contains(id) ==> id <= u32::MAX
        &&& alive_of(self@.threads).finite()
        &&& alive_of(self@.threads).len() == self.active_threads
        &&& self.pause_failures <= FORCE_AFTER
        &&& self.average_collection <= u64::MAX
        &&& self.average_collection_locking <= u64::MAX
    }

    /// Returns a collector that knows no pools.
    pub fn new() -> (collector: Self)
        ensures
            collector.wf(),
            collector@ == (CollectorView {
                threads: Map::empty(),
                active_threads: 0,
                mark_bits: 0,
                next_gc: None,
                pause_failures: 0,
                average_collection: INITIAL_AVERAGE,
                average_collection_locking: INITIAL_AVERAGE,
            }),
    {
        let collector = Collector {
            thread_bins: KeyedStore::new(),
            active_threads: 0,
            mark_bits: 0,
            next_gc: None,
            pause_failures: 0,
            average_collection: INITIAL_AVERAGE,
            average_collection_locking: INITIAL_AVERAGE,
        };
        assert(collector@.threads =~= Map::<u64, bool>::empty());
        assert(alive_of(collector@.threads) =~= Set::<u64>::empty());
        collector
    }

    /// Schedules a collection at `target`, unless one is scheduled earlier.
    pub fn schedule_gc(&mut self, target: u128)
        requires
            old(self).wf(),
        ensures
            final(self).wf(),
            final(self)@ == (CollectorView {
                next_gc: scheduled(old(self)@.next_gc, target),
                ..old(self)@
            }),
    {
        let earlier: bool = match self.next_gc {
            Some(next_gc) => target < next_gc,
            None => true,
        };
        if earlier {
            self.next_gc = Some(target);
        }
    }

    /// Takes notice of a new pool.
    pub fn new_thread(&mut self, thread: CollectorThreadId)
        requires
            old(self).wf(),
            !old(self)@.threads.dom().contains(thread.id as u64),
        ensures
            final(self).wf(),
            final(self)@ == (CollectorView {
                threads: old(self)@.threads.insert(thread.id as u64, true),
                active_threads: old(self)@.active_threads + 1,
                ..old(self)@
            }),
    {
        let ghost before = self@;
        let id: u64 = thread.id as u64;
        proof {
            lemma_few_ids(alive_of(before.threads));
        }
        self.thread_bins.insert(id, ThreadBins { alive: true });
        self.active_threads = self.active_threads + 1;
        proof {
            assert(self@.threads =~= before.threads.insert(id, true));
            assert(alive_of(self@.threads) =~= alive_of(before.threads).insert(id));
        }
    }

    /// Takes notice that the last handle to a pool is gone.
    ///
    /// Once no known pool has a handle, no value of any pool has a root and there
    /// are no readers, all values of the known pools are dropped and these pools
    /// are forgotten.
    pub fn thread_shutdown<V: AnyValue>(&mut self, info: &mut CollectorInfo<V>, thread: CollectorThreadId)
        requires
            old(self).wf(),
            old(info).wf(),
            marks_ok(old(info).cells(), old(self)@),
            alive_of(old(self)@.threads).contains(thread.id as u64),
        ensures
            final(self).wf(),
            final(info).wf(),
            marks_ok(final(info).cells(), final(self)@),
            final(info)@ == old(info)@,
            ({
                let pools = old(self)@.threads.dom();
                let cells = old(info).cells();
                let forget = old(self)@.active_threads == 1 && old(info)@.reader_state.readers == 0 && (
                forall|addr: Addr| !(#[trigger] rooted(cells, addr)));
                &&& final(self)@ == (CollectorView {
                    threads: if forget {
                        Map::empty()
                    } else {
                        old(self)@.threads.insert(thread.id as u64, false)
                    },
                    active_threads: (old(self)@.active_threads - 1) as nat,
                    ..old(self)@
                })
                &&& final(info).cells() == (if forget {
                    cells.restrict(Set::new(|addr: Addr| !pools.contains(addr.thread as u64)))
                } else {
                    cells
                })
                &&& final(info).generations() == (if forget {
                    old(info).generations().restrict(
                        Set::new(|addr: Addr| !pools.contains(addr.thread as u64)),
                    )
                } else {
                    old(info).generations()
                })
                &&& final(info).layouts() == (if forget {
                    old(info).layouts().restrict(
                        Set::new(|bin: BinAddr| !pools.contains(bin.thread as u64)),
                    )
                } else {
                    old(info).layouts()
                })
            }),
    {
        let ghost before = self@;
        let ghost cells = info.cells();
        let ghost generations = info.generations();
        let ghost layouts = info.layouts();
        let id: u64 = thread.id as u64;
        self.thread_bins.insert(id, ThreadBins { alive: false });
        proof {
            assert(self@.threads =~= before.threads.insert(id, false));
            assert(alive_of(self@.threads) =~= alive_of(before.threads).remove(id));
            assert(self@.threads.dom() =~= before.threads.dom());
            assert(alive_of(before.threads).len() > 0);
        }
        self.active_threads = self.active_threads - 1;
        if self.active_threads == 0 && info.reader_state.readers() == 0 && !any_rooted(
            &info.all_threads,
        ) {
            let keys: Vec<u64> = self.thread_bins.keys();
            let mut i: usize = 0;
            proof {
                assert(cells =~= cells.restrict(Set::new(|addr: Addr| !among_first(keys@, 0, addr.thread))));
                assert(generations =~= generations.restrict(
                    Set::new(|addr: Addr| !among_first(keys@, 0, addr.thread)),
                ));
                assert(layouts =~= layouts.restrict(
                    Set::new(|bin: BinAddr| !among_first(keys@, 0, bin.thread)),
                ));
            }
            while i < keys.len()
                invariant
                    self.wf(),
                    info.all_threads.wf(),
                    info.type_indexes.wf(),
                    info@ == old(info)@,
                    i <= keys@.len(),
                    forall|key: u64| #[trigger]
                        keys@.contains(key) <==> self.thread_bins@.dom().contains(key),
                    info.cells() == cells.restrict(
                        Set::new(|addr: Addr| !among_first(keys@, i as int, addr.thread)),
                    ),
                    info.generations() == generations.restrict(
                        Set::new(|addr: Addr| !among_first(keys@, i as int, addr.thread)),
                    ),
                    info.layouts() == layouts.restrict(
                        Set::new(|bin: BinAddr| !among_first(keys@, i as int, bin.thread)),
                    ),
                decreases keys@.len() - i,
            {
                let ghost info_before = info@;
                let key: u64 = keys[i];
                assert(keys@.contains(key));
                assert(self@.threads.dom().contains(key));
                info.all_threads.clear_pool(CollectorThreadId { id: key as u32 });
                proof {
                    assert(info@ =~= info_before);
                    assert forall|id: u32| among_first(keys@, i + 1, id) == (among_first(
                        keys@,
                        i as int,
                        id,
                    ) || id == key) by {
                        if id == key {
                            assert(keys@[i as int] == id);
                        }
                    }
                    assert(info.cells() =~= cells.restrict(
                        Set::new(|addr: Addr| !among_first(keys@, i + 1, addr.thread)),
                    ));
                    assert(info.generations() =~= generations.restrict(
                        Set::new(|addr: Addr| !among_first(keys@, i + 1, addr.thread)),
                    ));
                    assert(info.layouts() =~= layouts.restrict(
                        Set::new(|bin: BinAddr| !among_first(keys@, i + 1, bin.thread)),
                    ));
                }
                i = i + 1;
            }
            self.thread_bins.clear();
            proof {
                assert(self@.threads =~= Map::<u64, bool>::empty());
                assert(alive_of(self@.threads) =~= Set::<u64>::empty());
                assert forall|id: u32|
                    among_first(keys@, keys@.len() as int, id) == before.threads.dom().contains(
                        id as u64,
                    ) by {
                    if before.threads.dom().contains(id as u64) {
                        assert(keys@.contains(id as u64));
                    }
                    if among_first(keys@, keys@.len() as int, id) {
                        assert(keys@.contains(id as u64));
                    }
                }
                assert(info.cells() =~= cells.restrict(
                    Set::new(|addr: Addr| !before.threads.dom().contains(addr.thread as u64)),
                ));
                assert(info.generations() =~= generations.restrict(
                    Set::new(|addr: Addr| !before.threads.dom().contains(addr.thread as u64)),
                ));
                assert(info.layouts() =~= layouts.restrict(
                    Set::new(|bin: BinAddr| !before.threads.dom().contains(bin.thread as u64)),
                ));
            }
        }
    }
}

/// Returns true if any value has a root.
fn any_rooted<V: AnyValue>(heap: &Heap<V>) -> (result: bool)
    requires
        heap.wf(),
    ensures
        result == (exists|addr: Addr| #[trigger] rooted(heap.cells(), addr)),
{
    let ghost cells = heap.cells();
    let keys: Vec<u64> = heap.pools.keys();
    let mut i: usize = 0;
    while i < keys.len()
        invariant
            heap.wf(),
            cells == heap.cells(),
            i <= keys@.len(),
            forall|key: u64| #[trigger] keys@.contains(key) <==> heap.pools@.dom().contains(key),
            forall|addr: Addr, j: int|
                0 <= j < i && #[trigger] keys@[j] == addr.thread && #[trigger] cells.dom().contains(
                    addr,
                ) ==> cells[addr].roots == 0,
        decreases keys@.len() - i,
    {
        let key: u64 = keys[i];
        assert(keys@.contains(key));
        let mut tracer = Tracer::new(CollectorThreadId { id: key as u32 });
        heap.trace(&mut tracer);
        proof {
            assert(tracer.requests@.skip(0) =~= tracer.requests@);
        }
        if tracer.requests.len() > 0 {
            proof {
                let any = tracer.requests@[0];
                assert(tracer.requests@.to_set().contains(any));
                assert(rooted(cells, any.addr()));
            }
            return true;
        }
        proof {
            assert(tracer.requests@.to_set() =~= Set::<AnyRef>::empty());
            assert forall|addr: Addr| keys@[i as int] == addr.thread && #[trigger] cells.dom().contains(
                addr,
            ) implies cells[addr].roots == 0 by {
                let any = AnyRef {
                    bin_id: BinId { raw: addr.raw },
                    creating_thread: CollectorThreadId { id: addr.thread },
                    type_index: TypeIndex { index: addr.type_index },
                    slot_generation: cells[addr].generation,
                };
                assert(any.addr() == addr);
                assert(!heap.roots(CollectorThreadId { id: key as u32 }).contains(any));
            }
        }
        i = i + 1;
    }
    proof {
        assert forall|addr: Addr| !(#[trigger] rooted(cells, addr)) by {
            if rooted(cells, addr) {
                assert(keys@.contains(addr.thread as u64));
            }
        }
    }
    false
}

/// The known pools that stay after a collection that left `cells`: those that
/// have a handle or a value.
pub open spec fn kept_threads<V>(threads: Map<u64, bool>, cells: Map<Addr, Cell<V>>) -> Map<u64, bool> {
    threads.restrict(Set::new(|id: u64| threads[id] || occupied(cells, id)))
}

/// The handles after a collection that left `cells`.
pub open spec fn kept_handles<V>(
    handles: Map<u64, u64>,
    threads: Map<u64, bool>,
    cells: Map<Addr, Cell<V>>,
) -> Map<u64, u64> {
    handles.restrict(
        Set::new(|id: u64| threads.dom().contains(id) ==> threads[id] || occupied(cells, id)),
    )
}

/// The slots after a collection that left `cells`: those of the pools that stay.
pub open spec fn kept_generations<V>(
    generations: Map<Addr, u32>,
    threads: Map<u64, bool>,
    cells: Map<Addr, Cell<V>>,
) -> Map<Addr, u32> {
    generations.restrict(
        Set::new(
            |addr: Addr|
                threads.dom().contains(addr.thread as u64) ==> threads[addr.thread as u64]
                    || occupied(cells, addr.thread as u64),
        ),
    )
}

/// How the slots are used after a collection that left `after` of `before`: the
/// bins of the pools that stay are swept.
pub open spec fn kept_layouts<V>(
    layouts: Map<BinAddr, Layout>,
    threads: Map<u64, bool>,
    before: Map<Addr, Cell<V>>,
    after: Map<Addr, Cell<V>>,
) -> Map<BinAddr, Layout> {
    swept_layouts(layouts, before.dom(), after.dom()).restrict(
        Set::new(
            |bin: BinAddr|
                threads.dom().contains(bin.thread as u64) ==> threads[bin.thread as u64]
                    || occupied(after, bin.thread as u64),
        ),
    )
}

/// The collector after it finished a collection, or an attempt at one.
pub open spec fn finished(
    collector: CollectorView,
    result: CollectResult,
    gc_start: u64,
    gc_finish: u64,
) -> CollectorView {
    match result {
        CollectResult::Collected => {
            let average_collection = next_average(
                collector.average_collection,
                elapsed(gc_start, gc_finish),
            );
            CollectorView {
                average_collection,
                next_gc: if collector.threads == Map::<u64, bool>::empty() {
                    collector.next_gc
                } else {
                    scheduled(
                        collector.next_gc,
                        (gc_finish + pause_after(average_collection)) as u128,
                    )
                },
                ..collector
            }
        },
        CollectResult::CouldntRun => CollectorView {
            next_gc: scheduled(
                collector.next_gc,
                (gc_finish + collector.average_collection) as u128,
            ),
            ..collector
        },
    }
}

/// What the threads see after a collection, or an attempt at one: readers are let
/// in, and only a collection that ran counts as a run.
pub open spec fn info_finished(info: InfoView, result: CollectResult, gc_finish: u64) -> InfoView {
    InfoView {
        reader_state: ReaderStateView { collecting: false, ..info.reader_state },
        last_run: if result == CollectResult::Collected {
            gc_finish
        } else {
            info.last_run
        },
        signalled_collector: false,
        ..info
    }
}

/// The collector after a collection among `cells` that was not finished yet.
pub open spec fn after_collect<V: AnyValue>(
    collector: CollectorView,
    cells: Map<Addr, Cell<V>>,
    lock_start: u64,
    locked: u64,
) -> CollectorView {
    let mark_bits = next_mark(collector.mark_bits);
    CollectorView {
        threads: kept_threads(
            collector.threads,
            collected(cells, mark_bits),
        ),
        mark_bits,
        pause_failures: 0,
        average_collection_locking: next_average(
            collector.average_collection_locking,
            elapsed(lock_start, locked),
        ),
        ..collector
    }
}

/// Returns the duration between two times, zero if the clock went backwards.
fn duration_between(from: u64, to: u64) -> (duration: u128)
    ensures
        duration == elapsed(from, to),
        duration <= u64::MAX,
{
    to.saturating_sub(from) as u128
}

/// Returns the mark after `mark_bits`.
fn mark_after(mark_bits: u8) -> (mark: u8)
    ensures
        mark == next_mark(mark_bits),
{
    let mark: u8 = mark_bits.wrapping_add(1);
    if mark == 0 {
        1
    } else {
        mark
    }
}

impl Collector {
    /// Announces a collection to the readers. Exclusive access is there once
    /// [`poll_locks`](Self::poll_locks) says so.
    pub fn begin_collection<V>(&mut self, info: &mut CollectorInfo<V>)
        requires
            old(self).wf(),
        ensures
            final(self).wf(),
            final(self)@ == (CollectorView { next_gc: None, ..old(self)@ }),
            final(info)@ == (InfoView {
                reader_state: ReaderStateView { collecting: true, ..old(info)@.reader_state },
                ..old(info)@
            }),
            final(info).cells() == old(info).cells(),
            final(info).all_threads == old(info).all_threads,
            final(info).type_indexes == old(info).type_indexes,
    {
        self.next_gc = None;
        info.reader_state.write();
    }

    /// Decides what to do about exclusive access, which was first asked for at
    /// `lock_start`.
    ///
    /// The collector waits for a multiple of the time that it usually takes,
    /// and for a larger one after failures. After several failures in a row it
    /// waits indefinitely.
    pub fn poll_locks<V>(&self, info: &CollectorInfo<V>, lock_start: u64, now: u64) -> (status: LockStatus)
        requires
            self.wf(),
        ensures
            status == (if info@.reader_state.readers == 0 {
                LockStatus::Acquired
            } else if self@.pause_failures >= FORCE_AFTER {
                LockStatus::Park(None)
            } else if now > lock_deadline(self@, lock_start) {
                LockStatus::GaveUp
            } else {
                LockStatus::Park(Some(lock_deadline(self@, lock_start)))
            }),
    {
        if info.reader_state.readers() == 0 {
            return LockStatus::Acquired;
        }
        let force_gc: bool = self.pause_failures >= FORCE_AFTER;
        if force_gc {
            return LockStatus::Park(None);
        }
        let factor: u128 = (self.pause_failures + 1) as u128;
        assert(self.average_collection_locking * factor <= u64::MAX * 3) by (nonlinear_arith)
            requires
                self.average_collection_locking <= u64::MAX,
                0 <= factor <= 3,
        ;
        let lock_wait: u128 = self.average_collection_locking * factor * 3;
        let long_lock_deadline: u128 = lock_start as u128 + lock_wait;
        if now as u128 > long_lock_deadline {
            LockStatus::GaveUp
        } else {
            LockStatus::Park(Some(long_lock_deadline))
        }
    }

    /// Gives up on exclusive access: readers can be acquired again.
    pub fn give_up<V>(&mut self, info: &mut CollectorInfo<V>)
        requires
            old(self).wf(),
            old(self)@.pause_failures < FORCE_AFTER,
            marks_ok(old(info).cells(), old(self)@),
        ensures
            final(self).wf(),
            marks_ok(final(info).cells(), final(self)@),
            final(self)@ == (CollectorView {
                mark_bits: next_mark(old(self)@.mark_bits),
                pause_failures: (old(self)@.pause_failures + 1) as u8,
                ..old(self)@
            }),
            final(info)@ == (InfoView {
                reader_state: ReaderStateView { collecting: false, ..old(info)@.reader_state },
                ..old(info)@
            }),
            final(info).cells() == old(info).cells(),
            final(info).all_threads == old(info).all_threads,
            final(info).type_indexes == old(info).type_indexes,
    {
        self.mark_bits = mark_after(self.mark_bits);
        self.pause_failures = self.pause_failures + 1;
        info.reader_state.release_write();
    }

    /// Collects: marks every value that can be reached from a root and drops
    /// all other values. Known pools without a handle and without a value are
    /// forgotten.
    pub fn collect<V: AnyValue>(&mut self, info: &mut CollectorInfo<V>, lock_start: u64, locked: u64)
        requires
            old(self).wf(),
            old(info).wf(),
            old(info)@.reader_state.readers == 0,
            old(self)@.threads.dom().subset_of(old(info)@.handles.dom()),
            marks_ok(old(info).cells(), old(self)@),
        ensures
            final(self).wf(),
            final(info).wf(),
            final(self)@.threads.dom().subset_of(final(info)@.handles.dom()),
            marks_ok(final(info).cells(), final(self)@),
            final(info).cells() == collected(
                old(info).cells(),
                next_mark(old(self)@.mark_bits),
            ),
            final(self)@ == after_collect(old(self)@, old(info).cells(), lock_start, locked),
            final(info)@ == (InfoView {
                handles: kept_handles(
                    old(info)@.handles,
                    old(self)@.threads,
                    final(info).cells(),
                ),
                ..old(info)@
            }),
            final(info).generations() == kept_generations(
                old(info).generations(),
                old(self)@.threads,
                final(info).cells(),
            ),
            final(info).layouts() == kept_layouts(
                old(info).layouts(),
                old(self)@.threads,
                old(info).cells(),
                final(info).cells(),
            ),
            forall|thread: u32, type_index: u32|
                final(info)@.handles.dom().contains(thread as u64)
                    ==> #[trigger] final(info).all_threads.slab_count(thread, type_index) == old(
                    info,
                ).all_threads.slab_count(thread, type_index),
    {
        let ghost before = self@;
        let ghost start = info.cells();
        let ghost ids = info@.handles.dom();
        self.mark_bits = mark_after(self.mark_bits);
        let locking_time: u128 = duration_between(lock_start, locked);
        self.average_collection_locking = (locking_time + self.average_collection_locking * 2) / 3;
        self.pause_failures = 0;
        mark_reachable(&mut info.all_threads, self.mark_bits);
        assert(info.cells().dom() =~= start.dom());
        let threads_to_remove: Vec<u64> = sweep_pools(&mut info.all_threads, self.mark_bits);
        let ghost after = info.cells();
        let ghost slabs = info.all_threads;
        let ghost generations = old(info).generations();
        let ghost layouts = swept_layouts(old(info).layouts(), start.dom(), after.dom());
        proof {
            assert forall|addr: Addr| #[trigger] start.dom().contains(addr) implies start[addr].mark
                != self.mark_bits by {}
            assert(after =~= collected(start, self.mark_bits));
            assert(info@ =~= old(info)@);
            assert(before.threads =~= before.threads.restrict(
                Set::new(|id: u64| !removed_by(before.threads, threads_to_remove@, 0, id)),
            ));
            assert(old(info)@.handles =~= old(info)@.handles.restrict(
                Set::new(|id: u64| !removed_by(before.threads, threads_to_remove@, 0, id)),
            ));
            assert(generations =~= generations.restrict(
                Set::new(
                    |addr: Addr|
                        !removed_by(before.threads, threads_to_remove@, 0, addr.thread as u64),
                ),
            ));
            assert(layouts =~= layouts.restrict(
                Set::new(
                    |bin: BinAddr|
                        !removed_by(before.threads, threads_to_remove@, 0, bin.thread as u64),
                ),
            ));
        }
        let mut i: usize = 0;
        while i < threads_to_remove.len()
            invariant
                self.wf(),
                info.all_threads.wf(),
                info.type_indexes.wf(),
                info.cells() == after,
                generations == old(info).generations(),
                info.generations() == generations.restrict(
                    Set::new(
                        |addr: Addr|
                            !removed_by(
                                before.threads,
                                threads_to_remove@,
                                i as int,
                                addr.thread as u64,
                            ),
                    ),
                ),
                info.layouts() == layouts.restrict(
                    Set::new(
                        |bin: BinAddr|
                            !removed_by(
                                before.threads,
                                threads_to_remove@,
                                i as int,
                                bin.thread as u64,
                            ),
                    ),
                ),
                i <= threads_to_remove@.len(),
                threads_to_remove@.no_duplicates(),
                forall|id: u64| #[trigger]
                    threads_to_remove@.contains(id) <==> ids.contains(id) && !occupied(after, id),
                forall|id: u64| #[trigger] ids.contains(id) ==> id <= u32::MAX,
                alive_of(self@.threads) == alive_of(before.threads),
                self@ == (CollectorView {
                    threads: before.threads.restrict(
                        Set::new(
                            |id: u64| !removed_by(before.threads, threads_to_remove@, i as int, id),
                        ),
                    ),
                    ..self@
                }),
                self@.active_threads == before.active_threads,
                self@.mark_bits == next_mark(before.mark_bits),
                self@.next_gc == before.next_gc,
                self@.pause_failures == 0,
                self@.average_collection == before.average_collection,
                self@.average_collection_locking == next_average(
                    before.average_collection_locking,
                    elapsed(lock_start, locked),
                ),
                info@ == (InfoView {
                    handles: old(info)@.handles.restrict(
                        Set::new(
                            |id: u64| !removed_by(before.threads, threads_to_remove@, i as int, id),
                        ),
                    ),
                    ..old(info)@
                }),
                forall|thread: u32, type_index: u32|
                    info@.handles.dom().contains(thread as u64)
                        ==> #[trigger] info.all_threads.slab_count(thread, type_index)
                        == slabs.slab_count(thread, type_index),
            decreases threads_to_remove@.len() - i,
        {
            let ghost self_before = self@;
            let ghost info_before = info@;
            let id: u64 = threads_to_remove[i];
            proof {
                assert(threads_to_remove@.contains(id));
                assert forall|other: u64|
                    removed_by(before.threads, threads_to_remove@, i + 1, other) == (removed_by(
                        before.threads,
                        threads_to_remove@,
                        i as int,
                        other,
                    ) || (other == id && before.threads.dom().contains(id) && !before.threads[id])) by {
                    if other == id && before.threads.dom().contains(id) && !before.threads[id] {
                        assert(threads_to_remove@[i as int] == other);
                    }
                }
                assert(!removed_by(before.threads, threads_to_remove@, i as int, id)) by {
                    if removed_by(before.threads, threads_to_remove@, i as int, id) {
                        let j = choose|j: int|
                            0 <= j < i && #[trigger] threads_to_remove@[j] == id;
                        assert(false);
                    }
                }
            }
            let alive: bool = match self.thread_bins.get(id) {
                Some(bins) => bins.alive,
                None => true,
            };
            if !alive {
                self.thread_bins.remove(id);
                info.all_threads.remove_pool(CollectorThreadId { id: id as u32 });
            }
            proof {
                let next = Set::new(
                    |other: u64| !removed_by(before.threads, threads_to_remove@, i + 1, other),
                );
                assert(self_before.threads.dom().contains(id) == before.threads.dom().contains(id));
                assert(alive == (before.threads.dom().contains(id) ==> self_before.threads[id]));
                assert(self@.threads =~= if alive {
                    self_before.threads
                } else {
                    self_before.threads.remove(id)
                });
                assert(info@.handles =~= if alive {
                    info_before.handles
                } else {
                    info_before.handles.remove(id)
                });
                assert(self@.threads =~= before.threads.restrict(next));
                assert(info@.handles =~= old(info)@.handles.restrict(next));
                assert(info.generations() =~= generations.restrict(
                    Set::new(
                        |addr: Addr|
                            !removed_by(
                                before.threads,
                                threads_to_remove@,
                                i + 1,
                                addr.thread as u64,
                            ),
                    ),
                ));
                assert(info.layouts() =~= layouts.restrict(
                    Set::new(
                        |bin: BinAddr|
                            !removed_by(
                                before.threads,
                                threads_to_remove@,
                                i + 1,
                                bin.thread as u64,
                            ),
                    ),
                ));
                assert(alive_of(self@.threads) =~= alive_of(before.threads));
                assert(info.cells() =~= after) by {
                    assert forall|addr: Addr| #[trigger] after.dom().contains(addr) implies addr.thread
                        != id by {
                        if addr.thread == id {
                            assert(occupied(after, id));
                        }
                    }
                }
            }
            i = i + 1;
        }
        proof {
            assert forall|id: u64| before.threads.dom().contains(id) implies removed_by(
                before.threads,
                threads_to_remove@,
                threads_to_remove@.len() as int,
                id,
            ) == !(before.threads[id] || occupied(after, id)) by {
                if !occupied(after, id) {
                    assert(threads_to_remove@.contains(id));
                }
                if removed_by(before.threads, threads_to_remove@, threads_to_remove@.len() as int, id) {
                    assert(threads_to_remove@.contains(id));
                }
            }
            assert(self@.threads =~= kept_threads(before.threads, after));
            assert(info@.handles =~= kept_handles(old(info)@.handles, before.threads, after));
            assert(info.generations() =~= kept_generations(generations, before.threads, after));
            assert(info.layouts() =~= kept_layouts(
                old(info).layouts(),
                before.threads,
                start,
                after,
            ));
        }
    }

    /// Notes how long a collection took, schedules the next one and lets
    /// readers in again.
    pub fn finish_collection<V>(
        &mut self,
        info: &mut CollectorInfo<V>,
        result: CollectResult,
        gc_start: u64,
        gc_finish: u64,
    )
        requires
            old(self).wf(),
        ensures
            final(self).wf(),
            final(self)@ == finished(old(self)@, result, gc_start, gc_finish),
            final(info)@ == info_finished(old(info)@, result, gc_finish),
            final(info).cells() == old(info).cells(),
            final(info).all_threads == old(info).all_threads,
            final(info).type_indexes == old(info).type_indexes,
    {
        let gc_pause: Option<u128> = match result {
            CollectResult::Collected => {
                let time: u128 = duration_between(gc_start, gc_finish);
                self.average_collection = (time + self.average_collection * 2) / 3;
                info.last_run = gc_finish;
                let ghost bins = self.thread_bins@;
                proof {
                    if bins == Map::<u64, ThreadBins>::empty() {
                        assert(self@.threads =~= Map::<u64, bool>::empty());
                    }
                    if self@.threads == Map::<u64, bool>::empty() {
                        assert forall|id: u64| !bins.dom().contains(id) by {
                            assert(self@.threads.dom().contains(id) == bins.dom().contains(id));
                        }
                        assert(bins =~= Map::<u64, ThreadBins>::empty());
                    }
                }
                if self.thread_bins.is_empty() {
                    None
                } else if self.average_collection * 100 > MIN_PAUSE {
                    Some(self.average_collection * 100)
                } else {
                    Some(MIN_PAUSE)
                }
            },
            CollectResult::CouldntRun => Some(self.average_collection),
        };
        if let Some(pause) = gc_pause {
            self.schedule_gc(gc_finish as u128 + pause);
        }
        info.reader_state.release_write();
        info.signalled_collector = false;
    }

    /// Runs a collection while there are no readers.
    pub fn collect_and_notify<V: AnyValue>(&mut self, info: &mut CollectorInfo<V>, times: CollectionTimes)
        requires
            old(self).wf(),
            old(info).wf(),
            old(info)@.reader_state.readers == 0,
            old(self)@.threads.dom().subset_of(old(info)@.handles.dom()),
            marks_ok(old(info).cells(), old(self)@),
        ensures
            final(self).wf(),
            final(info).wf(),
            final(self)@.threads.dom().subset_of(final(info)@.handles.dom()),
            marks_ok(final(info).cells(), final(self)@),
            final(info).cells() == collected(
                old(info).cells(),
                next_mark(old(self)@.mark_bits),
            ),
            final(self)@ == finished(
                after_collect(
                    CollectorView { next_gc: None, ..old(self)@ },
                    old(info).cells(),
                    times.lock_start,
                    times.locked,
                ),
                CollectResult::Collected,
                times.gc_start,
                times.gc_finish,
            ),
            final(info)@ == (InfoView {
                reader_state: ReaderStateView { collecting: false, readers: 0 },
                last_run: times.gc_finish,
                signalled_collector: false,
                handles: kept_handles(
                    old(info)@.handles,
                    old(self)@.threads,
                    final(info).cells(),
                ),
                ..old(info)@
            }),
            final(info).generations() == kept_generations(
                old(info).generations(),
                old(self)@.threads,
                final(info).cells(),
            ),
            final(info).layouts() == kept_layouts(
                old(info).layouts(),
                old(self)@.threads,
                old(info).cells(),
                final(info).cells(),
            ),
            forall|thread: u32, type_index: u32|
                final(info)@.handles.dom().contains(thread as u64)
                    ==> #[trigger] final(info).all_threads.slab_count(thread, type_index) == old(
                    info,
                ).all_threads.slab_count(thread, type_index),
    {
        self.begin_collection(info);
        self.collect(info, times.lock_start, times.locked);
        self.finish_collection(
            info,
            CollectResult::Collected,
            times.gc_start,
            times.gc_finish,
        );
    }
}

/// The pool is among the first `count` pools to remove, is known and has no
/// handle.
spec fn removed_by(threads: Map<u64, bool>, removed: Seq<u64>, count: int, id: u64) -> bool {
    &&& threads.dom().contains(id)
    &&& !threads[id]
    &&& exists|j: int| 0 <= j < count && #[trigger] removed[j] == id
}

/// There are no more pools than thread ids.
proof fn lemma_few_ids(ids: Set<u64>)
    requires
        forall|id: u64| #[trigger] ids.contains(id) ==> id <= u32::MAX,
        ids.finite(),
    ensures
        ids.len() <= u32::MAX + 1,
{
    let all = set_int_range(0, u32::MAX + 1);
    vstd::set_lib::lemma_int_range(0, u32::MAX + 1);
    let image = ids.map(|id: u64| id as int);
    ids.lemma_map_finite(|id: u64| id as int);
    vstd::set_lib::lemma_map_size(ids, image, |id: u64| id as int);
    assert(image.subset_of(all));
    vstd::set_lib::lemma_len_subset(image, all);
}

} // verus!
