//! Finding the values that are in use.

use vstd::prelude::*;

use crate::any_ref::{Addr, AnyRef, CollectorThreadId};
use crate::heap::{names, Heap};
use crate::reach::{
    lemma_addresses_finite, lemma_reachable_least, lemma_reachable_step, lemma_rooted_reachable,
    points_to, reachable, rooted, same_but_marks,
};
use crate::slab::Cell;
use crate::trace::{AnyValue, Tracer};

verus! {

/// The values, with `mark_bits` on those that are reachable.
pub open spec fn with_reachable_marked<V: AnyValue>(
    cells: Map<Addr, Cell<V>>,
    mark_bits: u8,
) -> Map<Addr, Cell<V>> {
    Map::new(
        |addr: Addr| cells.dom().contains(addr),
        |addr: Addr|
            if reachable(cells, addr) {
                Cell { mark: mark_bits, ..cells[addr] }
            } else {
                cells[addr]
            },
    )
}

/// No value carries `mark_bits`.
pub open spec fn unmarked<V>(cells: Map<Addr, Cell<V>>, mark_bits: u8) -> bool {
    forall|addr: Addr| #[trigger] cells.dom().contains(addr) ==> cells[addr].mark != mark_bits
}

/// The value carries `mark_bits`.
spec fn is_marked<V>(
    cells: Map<Addr, Cell<V>>,
    mark_bits: u8,
    addr: Addr,
) -> bool {
    &&& cells.dom().contains(addr)
    &&& cells[addr].mark == mark_bits
}

/// What holds while values are being marked: only reachable values are marked
/// or waiting, and whatever a root or a marked value refers to is one of the
/// two.
spec fn marking<V: AnyValue>(
    start: Map<Addr, Cell<V>>,
    now: Map<Addr, Cell<V>>,
    mark_bits: u8,
    waiting: Set<AnyRef>,
) -> bool {
    &&& same_but_marks(start, now)
    &&& forall|addr: Addr| #[trigger]
        now.dom().contains(addr) ==> now[addr].mark == start[addr].mark || (now[addr].mark
            == mark_bits && reachable(start, addr))
    &&& forall|any: AnyRef| #[trigger]
        waiting.contains(any) && names(start, any) ==> reachable(start, any.addr())
    &&& forall|addr: Addr| #[trigger]
        rooted(start, addr) ==> is_marked(now, mark_bits, addr) || (exists|any: AnyRef| #[trigger]
            waiting.contains(any) && names(start, any) && any.addr() == addr)
    &&& forall|addr: Addr, any: AnyRef|
        is_marked(now, mark_bits, addr) && #[trigger] start[addr].value.any_references().contains(any)
            && names(start, any) ==> is_marked(now, mark_bits, any.addr())
            || waiting.contains(any)
}

/// Once nothing waits, exactly the reachable values are marked.
proof fn lemma_marking_done<V: AnyValue>(
    start: Map<Addr, Cell<V>>,
    now: Map<Addr, Cell<V>>,
    mark_bits: u8,
)
    requires
        marking(start, now, mark_bits, Set::empty()),
        unmarked(start, mark_bits),
    ensures
        now == with_reachable_marked(start, mark_bits),
{
    let marked = Set::new(|addr: Addr| is_marked(now, mark_bits, addr));
    let expected = with_reachable_marked(start, mark_bits);
    assert forall|addr: Addr| now.dom().contains(addr) implies #[trigger] now[addr] == expected[addr] by {
        if reachable(start, addr) {
            assert forall|a: Addr| #[trigger] rooted(start, a) implies marked.contains(a) by {}
            assert forall|a: Addr, b: Addr|
                marked.contains(a) && #[trigger] points_to(start, a, b) implies marked.contains(b) by {
                let any = choose|any: AnyRef| #[trigger]
                    start[a].value.any_references().contains(any) && names(start, any)
                        && any.addr() == b;
                assert(is_marked(now, mark_bits, a));
            }
            lemma_reachable_least(start, marked, addr);
            assert(is_marked(now, mark_bits, addr));
        }
    }
    assert(now =~= expected);
}

/// Handling one waiting reference keeps what holds while marking.
proof fn lemma_marking_step<V: AnyValue>(
    start: Map<Addr, Cell<V>>,
    before: Map<Addr, Cell<V>>,
    after: Map<Addr, Cell<V>>,
    mark_bits: u8,
    waiting: Set<AnyRef>,
    any: AnyRef,
    added: Set<AnyRef>,
)
    requires
        marking(start, before, mark_bits, waiting),
        waiting.contains(any),
        names(start, any) ==> {
            if before[any.addr()].mark != mark_bits {
                &&& after == before.insert(
                    any.addr(),
                    Cell { mark: mark_bits, ..before[any.addr()] },
                )
                &&& added == start[any.addr()].value.any_references()
            } else {
                &&& after == before
                &&& added == Set::<AnyRef>::empty()
            }
        },
        !names(start, any) ==> after == before && added == Set::<AnyRef>::empty(),
    ensures
        forall|rest: Set<AnyRef>|
            (forall|other: AnyRef| #[trigger]
                rest.contains(other) ==> waiting.contains(other) || added.contains(other)) && (forall|
                other: AnyRef,
            |
                waiting.contains(other) && other != any || added.contains(other)
                    ==> #[trigger] rest.contains(other)) ==> #[trigger] marking(
                start,
                after,
                mark_bits,
                rest,
            ),
{
    let target = any.addr();
    let handled = names(start, any);
    if handled {
        assert(reachable(start, target));
        assert(before.dom().contains(target));
        assert(is_marked(after, mark_bits, target));
    }
    assert(after.dom() =~= start.dom());
    assert forall|addr: Addr| #[trigger] after.dom().contains(addr) implies after[addr] == (Cell {
        mark: after[addr].mark,
        ..start[addr]
    }) by {
        assert(before.dom().contains(addr));
    }
    assert forall|rest: Set<AnyRef>|
        (forall|other: AnyRef| #[trigger]
            rest.contains(other) ==> waiting.contains(other) || added.contains(other)) && (forall|
            other: AnyRef,
        |
            waiting.contains(other) && other != any || added.contains(other)
                ==> #[trigger] rest.contains(other)) implies #[trigger] marking(
        start,
        after,
        mark_bits,
        rest,
    ) by {
        assert forall|addr: Addr| is_marked(before, mark_bits, addr) implies is_marked(
            after,
            mark_bits,
            addr,
        ) by {}
        assert(same_but_marks(start, after));
        assert forall|other: AnyRef| #[trigger]
            rest.contains(other) && names(start, other) implies reachable(
            start,
            other.addr(),
        ) by {
            if !waiting.contains(other) {
                assert(added.contains(other));
                assert(points_to(start, target, other.addr()));
                lemma_reachable_step(start, target, other.addr());
            }
        }
        assert forall|addr: Addr| #[trigger] rooted(start, addr) implies is_marked(
            after,
            mark_bits,
            addr,
        ) || (exists|other: AnyRef| #[trigger]
            rest.contains(other) && names(start, other) && other.addr() == addr) by {
            if !is_marked(before, mark_bits, addr) {
                let other = choose|other: AnyRef| #[trigger]
                    waiting.contains(other) && names(start, other) && other.addr() == addr;
                if other != any {
                    assert(rest.contains(other));
                }
            }
        }
        assert forall|addr: Addr, other: AnyRef|
            is_marked(after, mark_bits, addr) && #[trigger] start[addr].value.any_references().contains(other) && names(start, other) implies is_marked(
            after,
            mark_bits,
            other.addr(),
        ) || rest.contains(other) by {
            if is_marked(before, mark_bits, addr) {
                if !is_marked(before, mark_bits, other.addr()) {
                    assert(waiting.contains(other));
                    if other != any {
                        assert(rest.contains(other));
                    }
                }
            } else {
                assert(addr == target);
                assert(added.contains(other));
                assert(rest.contains(other));
            }
        }
    }
}

/// The references of `requests` from which marking starts: one to each rooted
/// value of the first `count` pools.
spec fn starting<V>(
    cells: Map<Addr, Cell<V>>,
    keys: Seq<u64>,
    count: int,
    requests: Seq<AnyRef>,
) -> bool {
    forall|any: AnyRef| #[trigger]
        requests.contains(any) <==> {
            &&& names(cells, any)
            &&& cells[any.addr()].roots > 0
            &&& exists|i: int| 0 <= i < count && #[trigger] keys[i] == any.creating_thread.id
        }
}

/// Marks every value of any pool that can be reached from a root.
///
/// References that name no value are not followed.
pub fn mark_reachable<V: AnyValue>(heap: &mut Heap<V>, mark_bits: u8)
    requires
        old(heap).wf(),
        unmarked(old(heap).cells(), mark_bits),
    ensures
        final(heap).wf(),
        final(heap).handles() == old(heap).handles(),
        final(heap).generations() == old(heap).generations(),
        final(heap).layouts() == old(heap).layouts(),
        final(heap).same_slabs(*old(heap)),
        final(heap).cells() == with_reachable_marked(old(heap).cells(), mark_bits),
{
    let ghost start = heap.cells();
    let keys: Vec<u64> = heap.pools.keys();
    let mut tracer = Tracer::new(CollectorThreadId { id: 0 });
    let mut i: usize = 0;
    while i < keys.len()
        invariant
            *heap == *old(heap),
            heap.wf(),
            start == heap.cells(),
            i <= keys@.len(),
            forall|key: u64| #[trigger] keys@.contains(key) <==> heap.pools@.dom().contains(key),
            starting(start, keys@, i as int, tracer.requests@),
        decreases keys@.len() - i,
    {
        let key: u64 = keys[i];
        assert(keys@.contains(key));
        let ghost before = tracer.requests@;
        tracer.tracing_thread = CollectorThreadId { id: key as u32 };
        heap.trace(&mut tracer);
        proof {
            let n = before.len() as int;
            let all = tracer.requests@;
            let added = heap.roots(tracer.tracing_thread);
            assert forall|any: AnyRef| #[trigger]
                all.contains(any) <==> before.contains(any) || added.contains(any) by {
                assert(all =~= all.take(n) + all.skip(n));
                if all.contains(any) {
                    let j = choose|j: int| 0 <= j < all.len() && all[j] == any;
                    if j < n {
                        assert(before[j] == any);
                    } else {
                        assert(all.skip(n)[j - n] == any);
                        assert(all.skip(n).to_set().contains(any));
                    }
                }
                if before.contains(any) {
                    let j = choose|j: int| 0 <= j < before.len() && before[j] == any;
                    assert(all.take(n)[j] == any);
                    assert(all[j] == any);
                }
                if added.contains(any) {
                    assert(all.skip(n).to_set().contains(any));
                    let j = choose|j: int| 0 <= j < all.skip(n).len() && all.skip(n)[j] == any;
                    assert(all[n + j] == any);
                }
            }
            assert(starting(start, keys@, i + 1, all)) by {
                assert forall|any: AnyRef| #[trigger]
                    all.contains(any) <==> {
                        &&& names(start, any)
                        &&& start[any.addr()].roots > 0
                        &&& exists|j: int|
                            0 <= j < i + 1 && #[trigger] keys@[j] == any.creating_thread.id
                    } by {
                    if added.contains(any) {
                        assert(keys@[i as int] == any.creating_thread.id);
                    }
                }
            }
        }
        i = i + 1;
    }
    proof {
        let waiting = tracer.requests@.to_set();
        assert forall|any: AnyRef| #[trigger]
            waiting.contains(any) && names(start, any) implies reachable(
            start,
            any.addr(),
        ) by {
            assert(tracer.requests@.contains(any));
            lemma_rooted_reachable(start, any.addr());
        }
        assert forall|addr: Addr| #[trigger] rooted(start, addr) implies exists|any: AnyRef| #[trigger]
            waiting.contains(any) && names(start, any) && any.addr() == addr by {
            let any = AnyRef {
                bin_id: crate::bin_id::BinId { raw: addr.raw },
                creating_thread: CollectorThreadId { id: addr.thread },
                type_index: crate::any_ref::TypeIndex { index: addr.type_index },
                slot_generation: start[addr].generation,
            };
            assert(any.addr() == addr);
            assert(keys@.contains(addr.thread as u64));
            assert(tracer.requests@.contains(any));
            assert(waiting.contains(any));
        }
        assert(marking(start, heap.cells(), mark_bits, waiting));
    }
    loop
        invariant
            heap.wf(),
            heap.handles() == old(heap).handles(),
            heap.generations() == old(heap).generations(),
            heap.layouts() == old(heap).layouts(),
            heap.same_slabs(*old(heap)),
            marking(start, heap.cells(), mark_bits, tracer.requests@.to_set()),
        ensures
            tracer.requests@.len() == 0,
        decreases
                heap.cells().dom().filter(|addr: Addr| heap.cells()[addr].mark != mark_bits).len(),
                tracer.requests@.len(),
    {
        let ghost before = heap.cells();
        let ghost waiting = tracer.requests@;
        let ghost unmarked_before = before.dom().filter(|addr: Addr| before[addr].mark != mark_bits);
        let any: AnyRef = match tracer.requests.pop() {
            Some(any) => any,
            None => break ,
        };
        let ghost rest = tracer.requests@;
        let ghost mut added = Set::<AnyRef>::empty();
        proof {
            assert(waiting.contains(any));
            assert(names(before, any) == names(start, any));
            assert(rest.to_set() =~= rest.to_set().union(added));
        }
        if heap.mark_one(mark_bits, any) {
            tracer.tracing_thread = any.creating_thread;
            heap.trace_one(any, &mut tracer);
            proof {
                added = start[any.addr()].value.any_references();
                lemma_requests_added(rest, tracer.requests@, added);
            }
        }
        proof {
            let after = heap.cells();
            let now = tracer.requests@.to_set();
            let unmarked_after = after.dom().filter(|addr: Addr| after[addr].mark != mark_bits);
            lemma_addresses_finite(unmarked_before);
            if names(start, any) {
                start[any.addr()].value.lemma_any_references();
            }
            if after == before {
                assert(unmarked_after =~= unmarked_before);
            } else {
                assert(unmarked_after =~= unmarked_before.remove(any.addr()));
                assert(unmarked_before.contains(any.addr()));
                if added == Set::<AnyRef>::empty() {
                    assert(start[any.addr()].value.any_references() =~= Set::<AnyRef>::empty() || added
                        == start[any.addr()].value.any_references());
                }
            }
            lemma_marking_step(
                start,
                before,
                after,
                mark_bits,
                waiting.to_set(),
                any,
                added,
            );
            assert(now =~= rest.to_set().union(added));
            assert forall|other: AnyRef| #[trigger] now.contains(other) implies waiting.to_set().contains(
                other,
            ) || added.contains(other) by {
                if rest.contains(other) {
                    let j = choose|j: int| 0 <= j < rest.len() && rest[j] == other;
                    assert(waiting[j] == other);
                }
            }
            assert forall|other: AnyRef|
                waiting.to_set().contains(other) && other != any || added.contains(other) implies #[trigger] now.contains(
                other,
            ) by {
                if waiting.contains(other) && other != any {
                    let j = choose|j: int| 0 <= j < waiting.len() && waiting[j] == other;
                    assert(rest[j] == other);
                }
            }
        }
    }
    proof {
        assert(tracer.requests@.to_set() =~= Set::<AnyRef>::empty());
        lemma_marking_done(start, heap.cells(), mark_bits);
    }
}

/// Requests that extend others by `added` name those and `added`.
proof fn lemma_requests_added(before: Seq<AnyRef>, after: Seq<AnyRef>, added: Set<AnyRef>)
    requires
        before.len() <= after.len(),
        after.take(before.len() as int) == before,
        after.skip(before.len() as int).to_set() == added,
    ensures
        after.to_set() == before.to_set().union(added),
{
    let n = before.len() as int;
    assert forall|any: AnyRef| after.to_set().contains(any) == before.to_set().union(added).contains(any) by {
        if after.contains(any) {
            let j = choose|j: int| 0 <= j < after.len() && after[j] == any;
            if j < n {
                assert(after.take(n)[j] == any);
                assert(before.contains(any));
            } else {
                assert(after.skip(n)[j - n] == any);
                assert(after.skip(n).to_set().contains(any));
            }
        }
        if before.contains(any) {
            let j = choose|j: int| 0 <= j < before.len() && before[j] == any;
            assert(after.take(n)[j] == any);
            assert(after[j] == any);
        }
        if added.contains(any) {
            assert(after.skip(n).to_set().contains(any));
            let j = choose|j: int| 0 <= j < after.skip(n).len() && after.skip(n)[j] == any;
            assert(after[n + j] == any);
        }
    }
    assert(after.to_set() =~= before.to_set().union(added));
}

} // verus!
