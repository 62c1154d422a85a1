//! What tracing a value requests.

use std::collections::{BTreeMap, HashMap, VecDeque};
use vstd::prelude::*;

use crate::any_ref::{Addr, AnyRef};
use crate::collector::CollectionTimes;
use crate::global::{after_collection, GlobalView};
use crate::heap::names;
use crate::laws::{law_collection_keeps_reachable, law_held_references_are_reachable};
use crate::pool::{PooledString, RefString, RootString};
use crate::reference::{Ref, Root};
use crate::trace::{AnyValue, Collectable, ContainsNoRefs, Trace, Tracer};

verus! {

/// What tracing a value adds to the requests: the earlier requests stay where they
/// are, every reference that the value holds is requested, and nothing else is.
pub proof fn law_tracing_requests_what_is_held<T: Trace>(value: T, before: Tracer, after: Tracer)
    requires
        after.extends(before.requests@, value.references()),
    ensures
        before.requests@.len() <= after.requests@.len(),
        forall|k: int|
            0 <= k < before.requests@.len() ==> #[trigger] after.requests@[k] == before.requests@[k],
        forall|r: AnyRef| #[trigger]
            value.references().contains(r) ==> exists|k: int|
                before.requests@.len() <= k < after.requests@.len() && #[trigger] after.requests@[k]
                    == r,
        forall|k: int|
            before.requests@.len() <= k < after.requests@.len() ==> value.references().contains(
                #[trigger] after.requests@[k],
            ),
{
    let n = before.requests@.len() as int;
    let tail = after.requests@.skip(n);
    assert forall|k: int| 0 <= k < n implies #[trigger] after.requests@[k] == before.requests@[k] by {
        assert(after.requests@.take(n)[k] == after.requests@[k]);
    }
    assert forall|r: AnyRef| #[trigger] value.references().contains(r) implies exists|k: int|
        n <= k < after.requests@.len() && #[trigger] after.requests@[k] == r by {
        assert(tail.to_set().contains(r));
        let i = choose|i: int| 0 <= i < tail.len() && tail[i] == r;
        assert(after.requests@[n + i] == r);
    }
    assert forall|k: int| n <= k < after.requests@.len() implies value.references().contains(
        #[trigger] after.requests@[k],
    ) by {
        assert(tail[k - n] == after.requests@[k]);
        assert(tail.contains(after.requests@[k]));
        assert(tail.to_set().contains(after.requests@[k]));
    }
}

/// A vector holds exactly the references that its items hold, whichever items
/// these are.
pub proof fn law_vec_holds_what_its_items_hold<T: Trace>(items: Vec<T>, r: AnyRef)
    ensures
        items.references().contains(r) <==> exists|i: int|
            0 <= i < items@.len() && (#[trigger] items@[i]).references().contains(r),
{
}

/// A double-ended queue holds exactly the references that its items hold.
pub proof fn law_deque_holds_what_its_items_hold<T: Trace>(items: VecDeque<T>, r: AnyRef)
    ensures
        items.references().contains(r) <==> exists|i: int|
            0 <= i < items@.len() && (#[trigger] items@[i]).references().contains(r),
{
}

/// An array holds exactly the references that its items hold.
pub proof fn law_array_holds_what_its_items_hold<T: Trace, const N: usize>(items: [T; N], r: AnyRef)
    ensures
        items.references().contains(r) <==> exists|i: int|
            0 <= i < N && (#[trigger] items@[i]).references().contains(r),
{
}

/// An ordered map holds exactly the references that its values hold.
pub proof fn law_btree_map_holds_what_its_values_hold<T: Trace>(items: BTreeMap<u64, T>, r: AnyRef)
    ensures
        items.references().contains(r) <==> exists|key: u64|
            items@.dom().contains(key) && (#[trigger] items@[key]).references().contains(r),
{
}

/// A hash map holds exactly the references that its values hold.
pub proof fn law_hash_map_holds_what_its_values_hold<T: Trace>(items: HashMap<u64, T>, r: AnyRef)
    ensures
        items.references().contains(r) <==> exists|key: u64|
            items@.dom().contains(key) && (#[trigger] items@[key]).references().contains(r),
{
}

/// A reference holds itself and nothing else; a root keeps its value by being a
/// root, and a type without references holds none.
pub proof fn law_references_hold_themselves<
    T: Send + Sync + 'static,
    V: Send + Sync + 'static,
    N: ContainsNoRefs,
>(any: AnyRef, reference: Ref<T>, root: Root<T, V>, none: N, r: AnyRef)
    ensures
        any.references().contains(r) <==> r == any,
        reference.references().contains(r) <==> r == reference.any,
        !root.references().contains(r),
        !none.references().contains(r),
{
}

/// A reference to a string holds itself, and a root string nothing.
pub proof fn law_string_references_hold_themselves<V: Send + Sync + 'static>(
    reference: RefString,
    root: RootString<V>,
    r: AnyRef,
)
    ensures
        reference.references().contains(r) <==> r == reference.reference.any,
        !root.references().contains(r),
{
}

/// Tracing a vector of references requests the reference at every index.
pub proof fn law_tracing_a_vec_requests_every_item<T: Send + Sync + 'static>(
    items: Vec<Ref<T>>,
    before: Tracer,
    after: Tracer,
)
    requires
        after.extends(before.requests@, items.references()),
    ensures
        forall|i: int|
            0 <= i < items@.len() ==> after.requests@.contains((#[trigger] items@[i]).any),
{
    law_tracing_requests_what_is_held(items, before, after);
    assert forall|i: int| 0 <= i < items@.len() implies after.requests@.contains(
        (#[trigger] items@[i]).any,
    ) by {
        assert(items@[i].references().contains(items@[i].any));
        assert(items.references().contains(items@[i].any));
    }
}

/// Every request that tracing a vector of references adds is for one of its items.
pub proof fn law_tracing_a_vec_requests_only_items<T: Send + Sync + 'static>(
    items: Vec<Ref<T>>,
    before: Tracer,
    after: Tracer,
    k: int,
) -> (i: int)
    requires
        after.extends(before.requests@, items.references()),
        before.requests@.len() <= k < after.requests@.len(),
    ensures
        0 <= i < items@.len(),
        items@[i].any == after.requests@[k],
{
    law_tracing_requests_what_is_held(items, before, after);
    let r = after.requests@[k];
    assert(items.references().contains(r));
    choose|i: int| 0 <= i < items@.len() && (#[trigger] items@[i]).references().contains(r)
}

/// Every item of a vector of references that is rooted or can be reached survives
/// a collection, at whatever index it is.
pub proof fn law_collection_keeps_every_item<T: Send + Sync + 'static, V: AnyValue>(
    state: GlobalView<V>,
    times: CollectionTimes,
    from: Addr,
    items: Vec<Ref<T>>,
    i: int,
) where Vec<Ref<T>>: Collectable<V>
    requires
        state.cells.dom().contains(from),
        state.cells[from].roots > 0,
        state.cells[from].value == items.erased(),
        0 <= i < items@.len(),
        names(state.cells, items@[i].any),
    ensures
        names(after_collection(state, times).cells, items@[i].any),
        after_collection(state, times).cells[items@[i].any.addr()].value
            == state.cells[items@[i].any.addr()].value,
        after_collection(state, times).cells[items@[i].any.addr()].roots
            == state.cells[items@[i].any.addr()].roots,
{
    let held = items@[i].any;
    assert(items@[i].references().contains(held));
    law_held_references_are_reachable(state.cells, from, items, held);
    law_collection_keeps_reachable(state, times, held.addr());
}

/// A pooled string holds no references.
pub proof fn law_pooled_strings_hold_nothing(p: PooledString, r: AnyRef)
    ensures
        !p.references().contains(r),
{
}

} // verus!
