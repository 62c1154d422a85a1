//! What holds of interned strings as a whole.

use std::cmp::Ordering;
use vstd::prelude::*;
use vstd::std_specs::cmp::{PartialEqSpec, PartialOrdSpec};

use crate::any_ref::{Addr, AnyRef, CollectorThreadId};
use crate::collector::{alive_of, CollectionTimes};
use crate::command::{lemma_command_added, CollectorCommand};
use crate::global::{
    after_collection, after_commands, after_request, commands_ok, lemma_after_commands_ok,
    lemma_collection_ok, state_ok, with_handles, GlobalCollector, GlobalView,
};
use crate::heap::names;
use crate::laws::{
    age, law_collector_only_drops, law_generations_stay, law_request_keeps_generations,
    law_reachable_values_survive, law_request_keeps_reachable_values, law_request_only_drops,
    law_spent_reference_names_nothing, lemma_age_grows, only_drops, spent,
};
use crate::order::law_equal_texts_are_ordered_equally;
use crate::pool::{
    found_root, found_text, interned, is_text, lemma_pool_roots_some, pool_roots, pooled,
    string_released, PooledString, RootString, StringPool,
};
use crate::reach::lemma_rooted_reachable;
use crate::reference::{is_next_ref, names_a, roots_of, stored};
use crate::slab::Cell;
use crate::trace::{AnyValue, Collectable};

verus! {

/// The text of the string that the reference names.
pub open spec fn text_of<V: AnyValue>(state: GlobalView<V>, any: AnyRef) -> Seq<char> where
    PooledString: Collectable<V>,
 {
    pooled::<V>(state.cells[any.addr()].value).string@
}

/// Every string that was not freed has the hash that `hasher` gives its text, and
/// is known under it.
pub open spec fn hashed_by<V: AnyValue>(
    pool: StringPool<V>,
    state: GlobalView<V>,
    hasher: spec_fn(Seq<char>) -> u64,
) -> bool where PooledString: Collectable<V> {
    forall|i: int|
        0 <= i < pool.entries@.len() && names_a::<PooledString, V>(
            state,
            (#[trigger] pool.entries@[i]).any(),
        ) ==> {
            let any = pool.entries@[i].any();
            &&& pool.entries@[i].hash_of() == hasher(text_of(state, any))
            &&& pooled::<V>(state.cells[any.addr()].value).hash == hasher(text_of(state, any))
        }
}

/// All strings with the same text that were not freed are the same allocation.
pub open spec fn each_text_once<V: AnyValue>(pool: StringPool<V>, state: GlobalView<V>) -> bool where
    PooledString: Collectable<V>,
 {
    forall|i: int, j: int|
        {
            let a = (#[trigger] pool.entries@[i]).any();
            let b = (#[trigger] pool.entries@[j]).any();
            &&& 0 <= i < pool.entries@.len()
            &&& 0 <= j < pool.entries@.len()
            &&& names_a::<PooledString, V>(state, a)
            &&& names_a::<PooledString, V>(state, b)
            &&& text_of(state, a) == text_of(state, b)
        } ==> pool.entries@[i].any() == pool.entries@[j].any()
}

/// The slots of the strings were not reused more than `uses` times since the pool
/// got to know the strings.
pub open spec fn young<V: AnyValue>(pool: StringPool<V>, state: GlobalView<V>, uses: int) -> bool where
    PooledString: Collectable<V>,
 {
    forall|i: int|
        0 <= i < pool.entries@.len() ==> state.generations.dom().contains(
            (#[trigger] pool.entries@[i]).any().addr(),
        ) && age(state.generations, pool.entries@[i].any()) <= uses
}

/// Strings are interned: all texts are hashed by the same function, and every
/// text in use is allocated only once.
pub open spec fn interning<V: AnyValue>(
    pool: StringPool<V>,
    state: GlobalView<V>,
    hasher: spec_fn(Seq<char>) -> u64,
    uses: int,
) -> bool where PooledString: Collectable<V> {
    &&& hashed_by(pool, state, hasher)
    &&& each_text_once(pool, state)
    &&& young(pool, state, uses)
}

/// The pool has an entry for the string.
pub open spec fn has_entry<V: AnyValue>(pool: StringPool<V>, any: AnyRef) -> bool where
    PooledString: Collectable<V>,
 {
    exists|i: int| 0 <= i < pool.entries@.len() && (#[trigger] pool.entries@[i]).any() == any
}

/// Without strings, strings are interned.
pub proof fn law_new_pool_interns<V: AnyValue>(
    pool: StringPool<V>,
    state: GlobalView<V>,
    hasher: spec_fn(Seq<char>) -> u64,
) where PooledString: Collectable<V>
    requires
        pool.entries@.len() == 0,
    ensures
        interning(pool, state, hasher, 0),
{
}

/// Two strings are equal exactly if their texts are, and exactly if they are
/// ordered equally. Equal strings have the same hash.
pub proof fn law_equal_strings_have_equal_texts<V: AnyValue>(
    pool: StringPool<V>,
    state: GlobalView<V>,
    x: RootString<V>,
    y: RootString<V>,
) where PooledString: Collectable<V>
    requires
        each_text_once(pool, state),
        x.root.valid(state),
        y.root.valid(state),
        has_entry(pool, x.root.reference.any),
        has_entry(pool, y.root.reference.any),
    ensures
        x.eq_spec(&y) <==> x.text() == y.text(),
        x.eq_spec(&y) <==> x.partial_cmp_spec(&y) == Some(Ordering::Equal),
        x.eq_spec(&y) ==> x.hash_of() == y.hash_of(),
{
    let i = choose|i: int|
        0 <= i < pool.entries@.len() && (#[trigger] pool.entries@[i]).any() == x.root.reference.any;
    let j = choose|j: int|
        0 <= j < pool.entries@.len() && (#[trigger] pool.entries@[j]).any() == y.root.reference.any;
    assert(names_a::<PooledString, V>(state, pool.entries@[i].any()));
    assert(names_a::<PooledString, V>(state, pool.entries@[j].any()));
    assert(text_of(state, pool.entries@[i].any()) == x.text());
    assert(text_of(state, pool.entries@[j].any()) == y.text());
    law_equal_texts_are_ordered_equally(x.text(), y.text());
}

/// Interning a text that is in use returns the allocation that is in use, and
/// every text stays allocated only once. What the pool has an entry for, it still
/// has an entry for.
///
/// The slots were reused fewer times than there are generations.
pub proof fn law_texts_are_interned<V: AnyValue>(
    before: StringPool<V>,
    global_before: GlobalCollector<V>,
    after: StringPool<V>,
    global_after: GlobalCollector<V>,
    text: Seq<char>,
    hasher: spec_fn(Seq<char>) -> u64,
    found: Option<usize>,
    position: usize,
    extra: int,
    uses: int,
) where PooledString: Collectable<V>
    requires
        interning(before, global_before@, hasher, uses),
        0 <= uses < u32::MAX,
        found_text(before, global_before@, text, hasher(text), found),
        interned(
            before,
            global_before,
            after,
            global_after,
            text,
            hasher(text),
            found,
            position,
            extra,
        ),
    ensures
        interning(after, global_after@, hasher, uses + 1),
        has_entry(after, after.entries@[position as int].any()),
        forall|any: AnyRef| has_entry(before, any) ==> #[trigger] has_entry(after, any),
        forall|i: int|
            0 <= i < before.entries@.len() && is_text(
                global_before@,
                (#[trigger] before.entries@[i]).any(),
                text,
            ) ==> after.entries@[position as int].any() == before.entries@[i].any(),
{
    let old_state = global_before@;
    let new_state = global_after@;
    let any = after.entries@[position as int].any();
    lemma_entries_stay(before, after, found, position);
    match found {
        Some(index) => {
            assert forall|i: int| 0 <= i < before.entries@.len() implies (
            #[trigger] after.entries@[i]).any() == before.entries@[i].any() && after.entries@[i].hash_of()
                == before.entries@[i].hash_of() by {}
            assert forall|r: AnyRef| #[trigger]
                names_a::<PooledString, V>(new_state, r) == names_a::<PooledString, V>(old_state, r) by {
                if r.addr() == any.addr() {
                    assert(names(old_state.cells, any));
                }
            }
            assert forall|r: AnyRef| names_a::<PooledString, V>(old_state, r) implies #[trigger] text_of(
                new_state,
                r,
            ) == text_of(old_state, r) by {}
            assert forall|i: int|
                0 <= i < before.entries@.len() && is_text(
                    old_state,
                    (#[trigger] before.entries@[i]).any(),
                    text,
                ) implies any == before.entries@[i].any() by {
                assert(before.entries@[index as int].any() == any);
            }
            assert(young(after, new_state, uses + 1)) by {
                assert forall|i: int| 0 <= i < after.entries@.len() implies new_state.generations.dom().contains(
                    (#[trigger] after.entries@[i]).any().addr(),
                ) && age(new_state.generations, after.entries@[i].any()) <= uses + 1 by {
                    assert(after.entries@[i].any() == before.entries@[i].any());
                }
            }
            assert(hashed_by(after, new_state, hasher)) by {
                assert forall|i: int|
                    0 <= i < after.entries@.len() && names_a::<PooledString, V>(
                        new_state,
                        (#[trigger] after.entries@[i]).any(),
                    ) implies after.entries@[i].hash_of() == hasher(
                    text_of(new_state, after.entries@[i].any()),
                ) by {
                    assert(names_a::<PooledString, V>(old_state, before.entries@[i].any()));
                }
            }
            assert(each_text_once(after, new_state)) by {
                assert forall|i: int, j: int|
                    {
                        let a = (#[trigger] after.entries@[i]).any();
                        let b = (#[trigger] after.entries@[j]).any();
                        &&& 0 <= i < after.entries@.len()
                        &&& 0 <= j < after.entries@.len()
                        &&& names_a::<PooledString, V>(new_state, a)
                        &&& names_a::<PooledString, V>(new_state, b)
                        &&& text_of(new_state, a) == text_of(new_state, b)
                    } implies after.entries@[i].any() == after.entries@[j].any() by {
                    assert(names_a::<PooledString, V>(old_state, before.entries@[i].any()));
                    assert(names_a::<PooledString, V>(old_state, before.entries@[j].any()));
                }
            }
        },
        None => {
            let count = before.entries@.len();
            assert forall|i: int| 0 <= i < count implies #[trigger] after.entries@[i]
                == before.entries@[i] by {}
            assert forall|i: int| 0 <= i < count implies (#[trigger] before.entries@[i]).any() != any
                && age(new_state.generations, before.entries@[i].any()) <= uses + 1 by {
                lemma_age_grows(old_state.generations, any, before.entries@[i].any());
            }
            assert(young(after, new_state, uses + 1));
            assert forall|i: int| 0 <= i < count implies names_a::<PooledString, V>(
                new_state,
                (#[trigger] before.entries@[i]).any(),
            ) == names_a::<PooledString, V>(old_state, before.entries@[i].any()) by {
                let r = before.entries@[i].any();
                if r.addr() == any.addr() {
                    assert(r.slot_generation != any.slot_generation) by {
                        if r.slot_generation == any.slot_generation {
                            assert(r == any);
                        }
                    }
                }
            }
            assert forall|i: int|
                0 <= i < count && names_a::<PooledString, V>(
                    old_state,
                    (#[trigger] before.entries@[i]).any(),
                ) implies text_of(new_state, before.entries@[i].any()) == text_of(
                old_state,
                before.entries@[i].any(),
            ) && text_of(old_state, before.entries@[i].any()) != text by {
                assert(before.entries@[i].hash_of() == hasher(
                    text_of(old_state, before.entries@[i].any()),
                ));
            }
            assert(hashed_by(after, new_state, hasher)) by {
                assert forall|i: int|
                    0 <= i < after.entries@.len() && names_a::<PooledString, V>(
                        new_state,
                        (#[trigger] after.entries@[i]).any(),
                    ) implies after.entries@[i].hash_of() == hasher(
                    text_of(new_state, after.entries@[i].any()),
                ) by {
                    if i < count {
                        assert(names_a::<PooledString, V>(old_state, before.entries@[i].any()));
                    }
                }
            }
            assert(each_text_once(after, new_state)) by {
                assert forall|i: int, j: int|
                    {
                        let a = (#[trigger] after.entries@[i]).any();
                        let b = (#[trigger] after.entries@[j]).any();
                        &&& 0 <= i < after.entries@.len()
                        &&& 0 <= j < after.entries@.len()
                        &&& names_a::<PooledString, V>(new_state, a)
                        &&& names_a::<PooledString, V>(new_state, b)
                        &&& text_of(new_state, a) == text_of(new_state, b)
                    } implies after.entries@[i].any() == after.entries@[j].any() by {
                    if i < count {
                        assert(names_a::<PooledString, V>(old_state, before.entries@[i].any()));
                    }
                    if j < count {
                        assert(names_a::<PooledString, V>(old_state, before.entries@[j].any()));
                    }
                }
            }
        },
    }
}

/// A reference to a freed string does not name a string that is interned later,
/// even if that has the same text or reuses the slot.
///
/// The slot was reused fewer times than there are generations, and if the string
/// was in the pool's own allocator, its slot is still there.
pub proof fn law_freed_string_is_not_named<V: AnyValue>(
    before: StringPool<V>,
    global_before: GlobalCollector<V>,
    after: StringPool<V>,
    global_after: GlobalCollector<V>,
    text: Seq<char>,
    hash: u64,
    found: Option<usize>,
    position: usize,
    extra: int,
    freed: AnyRef,
    uses: int,
) where PooledString: Collectable<V>
    requires
        found_text(before, global_before@, text, hash, found),
        interned(
            before,
            global_before,
            after,
            global_after,
            text,
            hash,
            found,
            position,
            extra,
        ),
        spent(global_before@, freed, uses),
        freed.creating_thread == before.allocator.thread_id
            ==> global_before@.generations.dom().contains(freed.addr()),
        0 <= uses < u32::MAX,
    ensures
        spent(global_after@, freed, uses + 1),
        global_before@.generations.dom().contains(freed.addr())
            ==> global_after@.generations.dom().contains(freed.addr()),
{
    let any = after.entries@[position as int].any();
    match found {
        Some(_) => {
            assert(names(global_before@.cells, any));
        },
        None => {
            law_spent_reference_names_nothing(
                global_before,
                before.allocator.thread_id,
                PooledString::key(),
                any,
                global_after@.cells[any.addr()],
                freed,
                uses,
            );
        },
    }
}

/// Interning leaves the entries where they are.
proof fn lemma_entries_stay<V: AnyValue>(
    before: StringPool<V>,
    after: StringPool<V>,
    found: Option<usize>,
    position: usize,
) where PooledString: Collectable<V>
    requires
        position < after.entries@.len(),
        match found {
            Some(_) => {
                &&& position < before.entries@.len()
                &&& after.entries@[position as int].any() == before.entries@[position as int].any()
                &&& after.entries@ == before.entries@.update(
                    position as int,
                    after.entries@[position as int],
                )
            },
            None => after.entries@ == before.entries@.push(after.entries@[position as int]),
        },
    ensures
        forall|any: AnyRef| has_entry(before, any) ==> #[trigger] has_entry(after, any),
        has_entry(after, after.entries@[position as int].any()),
{
    assert forall|any: AnyRef| has_entry(before, any) implies #[trigger] has_entry(after, any) by {
        let i = choose|i: int|
            0 <= i < before.entries@.len() && (#[trigger] before.entries@[i]).any() == any;
        assert(after.entries@[i].any() == any);
    }
}

/// Dropping values and keeping generations keeps strings interned.
proof fn lemma_drops_keep_interning<V: AnyValue>(
    pool: StringPool<V>,
    before: GlobalView<V>,
    after: GlobalView<V>,
    hasher: spec_fn(Seq<char>) -> u64,
    uses: int,
) where PooledString: Collectable<V>
    requires
        interning(pool, before, hasher, uses),
        only_drops(before, after),
        forall|i: int|
            0 <= i < pool.entries@.len() ==> after.generations.dom().contains(
                (#[trigger] pool.entries@[i]).any().addr(),
            ) && after.generations[pool.entries@[i].any().addr()]
                == before.generations[pool.entries@[i].any().addr()],
    ensures
        interning(pool, after, hasher, uses),
{
    assert forall|r: AnyRef| #[trigger] names_a::<PooledString, V>(after, r) implies names_a::<
        PooledString,
        V,
    >(before, r) && text_of(after, r) == text_of(before, r) && after.cells[r.addr()].value
        == before.cells[r.addr()].value by {
        assert(after.cells.dom().contains(r.addr()));
    }
}

/// Keeping all that has a root keeps the pool well-formed.
proof fn lemma_drops_keep_pool<V: AnyValue>(
    pool: StringPool<V>,
    before: GlobalView<V>,
    after: GlobalView<V>,
) where PooledString: Collectable<V>
    requires
        pool.wf(before),
        only_drops(before, after),
        pool.allocator.valid(after),
        forall|addr: Addr|
            before.cells.dom().contains(addr) && before.cells[addr].roots > 0
                ==> #[trigger] after.cells.dom().contains(addr),
        forall|i: int|
            0 <= i < pool.entries@.len() ==> after.generations.dom().contains(
                (#[trigger] pool.entries@[i]).any().addr(),
            ),
    ensures
        pool.wf(after),
{
    assert forall|i: int| 0 <= i < pool.entries@.len() implies (#[trigger] pool.entries@[i]).valid(
        after,
    ) by {
        assert(pool.entries@[i].valid(before));
        assert(pool.entries@[i] is Rooted ==> after.cells.dom().contains(
            pool.entries@[i].any().addr(),
        ));
    }
    assert forall|any: AnyRef| pool_roots(pool.entries@, any) > 0 implies #[trigger] pool_roots(
        pool.entries@,
        any,
    ) <= roots_of(after, any) by {
        lemma_pool_roots_some(pool.entries@, any);
        let i = choose|i: int|
            0 <= i < pool.entries@.len() && (#[trigger] pool.entries@[i]) is Rooted
                && pool.entries@[i].any() == any;
        assert(pool.entries@[i].valid(before));
        assert(after.cells.dom().contains(any.addr()));
    }
}

/// Strings stay interned while the collector runs: it may free strings, but
/// every text stays allocated only once, and the pool stays well-formed.
pub proof fn law_collector_keeps_interning<V: AnyValue>(
    pool: StringPool<V>,
    state: GlobalView<V>,
    commands: Seq<CollectorCommand>,
    times: CollectionTimes,
    hasher: spec_fn(Seq<char>) -> u64,
    uses: int,
) where PooledString: Collectable<V>
    requires
        state_ok(state),
        commands_ok(state, commands),
        pool.wf(state),
        interning(pool, state, hasher, uses),
    ensures
        pool.wf(after_commands(state, commands, times)),
        interning(pool, after_commands(state, commands, times), hasher, uses),
{
    law_collector_only_drops(state, commands, times);
    lemma_after_commands_ok(state, commands, times);
    let end = after_commands(state, commands, times);
    let id = pool.allocator.thread_id.id as u64;
    assert(with_handles(state.info.handles).contains(id));
    assert forall|i: int| 0 <= i < pool.entries@.len() implies end.generations.dom().contains(
        (#[trigger] pool.entries@[i]).any().addr(),
    ) && end.generations[pool.entries@[i].any().addr()]
        == state.generations[pool.entries@[i].any().addr()] by {
        law_generations_stay(state, commands, times, pool.entries@[i].any().addr());
    }
    assert forall|addr: Addr|
        state.cells.dom().contains(addr) && state.cells[addr].roots > 0 implies #[trigger] end.cells.dom().contains(
        addr,
    ) by {
        lemma_rooted_reachable(state.cells, addr);
        law_reachable_values_survive(state, commands, times, addr);
    }
    lemma_drops_keep_interning(pool, state, end, hasher, uses);
    lemma_drops_keep_pool(pool, state, end);
}

/// Strings stay interned and the pool stays well-formed when a requested
/// collection runs.
pub proof fn law_request_keeps_interning<V: AnyValue>(
    pool: StringPool<V>,
    state: GlobalView<V>,
    commands: Seq<CollectorCommand>,
    now: u64,
    times: CollectionTimes,
    hasher: spec_fn(Seq<char>) -> u64,
    uses: int,
) where PooledString: Collectable<V>
    requires
        state_ok(state),
        commands_ok(state, commands),
        pool.wf(state),
        interning(pool, state, hasher, uses),
    ensures
        pool.wf(after_request(state, commands, now, times)),
        interning(pool, after_request(state, commands, now, times), hasher, uses),
{
    law_request_only_drops(state, commands, now, times);
    let end = after_request(state, commands, now, times);
    let id = pool.allocator.thread_id.id as u64;
    assert(with_handles(state.info.handles).contains(id));
    let ready = if state.info.reader_state.collecting {
        after_collection(state, times)
    } else {
        state
    };
    if state.info.reader_state.collecting {
        lemma_collection_ok(state, commands, times);
    }
    assert(with_handles(ready.info.handles).contains(id));
    let command = CollectorCommand::Collect(now);
    lemma_command_added(
        alive_of(ready.collector.threads),
        ready.collector.threads.dom(),
        commands,
        command,
    );
    lemma_after_commands_ok(ready, commands.push(command), times);
    assert forall|i: int| 0 <= i < pool.entries@.len() implies end.generations.dom().contains(
        (#[trigger] pool.entries@[i]).any().addr(),
    ) && end.generations[pool.entries@[i].any().addr()]
        == state.generations[pool.entries@[i].any().addr()] by {
        law_request_keeps_generations(state, commands, now, times, pool.entries@[i].any().addr());
    }
    assert forall|addr: Addr|
        state.cells.dom().contains(addr) && state.cells[addr].roots > 0 implies #[trigger] end.cells.dom().contains(
        addr,
    ) by {
        lemma_rooted_reachable(state.cells, addr);
        law_request_keeps_reachable_values(state, commands, now, times, addr);
    }
    lemma_drops_keep_interning(pool, state, end, hasher, uses);
    lemma_drops_keep_pool(pool, state, end);
}

/// Storing other values keeps strings interned.
pub proof fn law_storing_keeps_interning<V: AnyValue>(
    pool: StringPool<V>,
    global: GlobalCollector<V>,
    thread: CollectorThreadId,
    key: u64,
    new: AnyRef,
    cell: Cell<V>,
    hasher: spec_fn(Seq<char>) -> u64,
    uses: int,
) where PooledString: Collectable<V>
    requires
        interning(pool, global@, hasher, uses),
        0 <= uses < u32::MAX,
        is_next_ref(global, thread, key, new),
        cell.generation == new.slot_generation,
    ensures
        interning(pool, stored(global, key, new, cell), hasher, uses + 1),
{
    let after = stored(global, key, new, cell);
    assert forall|i: int| 0 <= i < pool.entries@.len() implies (#[trigger] pool.entries@[i]).any() != new
        && after.generations.dom().contains(pool.entries@[i].any().addr()) && age(
        after.generations,
        pool.entries@[i].any(),
    ) <= uses + 1 && (names_a::<PooledString, V>(after, pool.entries@[i].any()) ==> names_a::<
        PooledString,
        V,
    >(global@, pool.entries@[i].any()) && after.cells[pool.entries@[i].any().addr()]
        == global@.cells[pool.entries@[i].any().addr()]) by {
        lemma_age_grows(global@.generations, new, pool.entries@[i].any());
    }
}

/// Giving up a string keeps strings interned.
pub proof fn law_release_keeps_interning<V: AnyValue>(
    before: StringPool<V>,
    global_before: GlobalCollector<V>,
    after: StringPool<V>,
    global_after: GlobalCollector<V>,
    any: AnyRef,
    found: Option<usize>,
    hasher: spec_fn(Seq<char>) -> u64,
    uses: int,
) where PooledString: Collectable<V>
    requires
        interning(before, global_before@, hasher, uses),
        names_a::<PooledString, V>(global_before@, any),
        found_root(before, any, found),
        string_released(before, global_before, after, global_after, any, found),
    ensures
        interning(after, global_after@, hasher, uses),
        forall|other: AnyRef| has_entry(before, other) ==> #[trigger] has_entry(after, other),
{
    let old_state = global_before@;
    let new_state = global_after@;
    assert forall|i: int| 0 <= i < before.entries@.len() implies (#[trigger] after.entries@[i]).any()
        == before.entries@[i].any() && after.entries@[i].hash_of() == before.entries@[i].hash_of() by {}
    assert forall|other: AnyRef| has_entry(before, other) implies #[trigger] has_entry(after, other) by {
        let i = choose|i: int|
            0 <= i < before.entries@.len() && (#[trigger] before.entries@[i]).any() == other;
        assert(after.entries@[i].any() == other);
    }
    assert forall|r: AnyRef| #[trigger] names_a::<PooledString, V>(new_state, r) implies names_a::<
        PooledString,
        V,
    >(old_state, r) && text_of(new_state, r) == text_of(old_state, r)
        && new_state.cells[r.addr()].value == old_state.cells[r.addr()].value by {
        if r.addr() == any.addr() {
            assert(names(old_state.cells, any));
        }
    }
    assert forall|i: int|
        0 <= i < after.entries@.len() && names_a::<PooledString, V>(
            new_state,
            (#[trigger] after.entries@[i]).any(),
        ) implies {
        let r = after.entries@[i].any();
        &&& after.entries@[i].hash_of() == hasher(text_of(new_state, r))
        &&& pooled::<V>(new_state.cells[r.addr()].value).hash == hasher(text_of(new_state, r))
    } by {
        assert(names_a::<PooledString, V>(old_state, before.entries@[i].any()));
    }
    assert forall|i: int, j: int|
        {
            let a = (#[trigger] after.entries@[i]).any();
            let b = (#[trigger] after.entries@[j]).any();
            &&& 0 <= i < after.entries@.len()
            &&& 0 <= j < after.entries@.len()
            &&& names_a::<PooledString, V>(new_state, a)
            &&& names_a::<PooledString, V>(new_state, b)
            &&& text_of(new_state, a) == text_of(new_state, b)
        } implies after.entries@[i].any() == after.entries@[j].any() by {
        assert(names_a::<PooledString, V>(old_state, before.entries@[i].any()));
        assert(names_a::<PooledString, V>(old_state, before.entries@[j].any()));
    }
}

/// When the last root to an interned string besides the pool's is given up, no
/// root is left, so that the string can be collected.
pub proof fn law_last_string_is_unrooted<V: AnyValue>(
    before: StringPool<V>,
    global_before: GlobalCollector<V>,
    after: StringPool<V>,
    global_after: GlobalCollector<V>,
    any: AnyRef,
    found: Option<usize>,
) where PooledString: Collectable<V>
    requires
        found_root(before, any, found),
        string_released(before, global_before, after, global_after, any, found),
        roots_of(global_before@, any) == 1 + (if pool_roots(before.entries@, any) > 0 {
            1int
        } else {
            0int
        }),
    ensures
        roots_of(global_after@, any) == 0,
        global_after@.info.signalled_collector,
{
    lemma_pool_roots_some(before.entries@, any);
}

} // verus!
