//! Every text is allocated once, whatever hash it is given.

use vstd::prelude::*;

use crate::any_ref::{Addr, AnyRef, CollectorThreadId};
use crate::collector::CollectionTimes;
use crate::command::CollectorCommand;
use crate::global::{
    after_commands, after_request, commands_ok, state_ok, GlobalCollector, GlobalView,
};
use crate::heap::names;
use crate::pool::{
    can_root, found_root, found_text, has_space, in_use, interned, is_string, is_text, knows,
    lemma_pooled, lemma_pool_roots_some, lemma_pool_roots_update, pool_roots, pooled, string_released, PoolEntry,
    PooledString, RootString, StringPool,
};
use crate::reference::{can_store, is_next_ref, names_a, roots_of, stored};
use crate::schedule_laws::{
    asks_once, law_filling_a_slab_asks_for_a_collection, takes_last_slot,
};
use crate::slab::Cell;
use crate::store_laws::same_elsewhere;
use crate::string_laws::{
    each_text_once, has_entry, hashed_by, law_collector_keeps_interning,
    law_release_keeps_interning, law_request_keeps_interning, law_storing_keeps_interning,
    law_texts_are_interned, text_of, young,
};
use crate::trace::{AnyValue, Collectable};

verus! {

/// The reference names the string `p`, and an entry for it is an entry for its text.
pub proof fn law_strings_have_their_text<V: AnyValue>(
    state: GlobalView<V>,
    entry: PoolEntry<V>,
    any: AnyRef,
    p: PooledString,
    text: Seq<char>,
    hash: u64,
) where PooledString: Collectable<V>
    requires
        names(state.cells, any),
        state.cells[any.addr()].value == p.erased(),
    ensures
        names_a::<PooledString, V>(state, any),
        text_of(state, any) == p.string@,
        is_text(state, any, text) <==> p.string@ == text,
        is_string(state, any, text, hash) <==> p.string@ == text && p.hash == hash,
        entry.any() == any ==> (entry.holds(state, text, hash) <==> p.string@ == text && p.hash
            == hash && entry.hash_of() == hash),
        entry is Rooted ==> entry.any() == entry->Rooted_0.root.reference.any && entry.hash_of()
            == entry->Rooted_1,
        entry is Weak ==> entry.any() == entry->Weak_0.reference.any && entry.hash_of()
            == entry->Weak_1,
{
    lemma_pooled::<V>(p);
    p.lemma_erased();
}

/// A root string has the text and the hash of what it is a root to.
pub proof fn law_root_strings_have_their_text<V: AnyValue>(
    string: RootString<V>,
    p: PooledString,
) where PooledString: Collectable<V>
    requires
        *string.root.data == p.erased(),
    ensures
        string.text() == p.string@,
        string.hash_of() == p.hash,
{
    lemma_pooled::<V>(p);
}

/// Every entry for a string that was not freed has the string's hash.
pub open spec fn hashes_agree<V: AnyValue>(pool: StringPool<V>, state: GlobalView<V>) -> bool where
    PooledString: Collectable<V>,
 {
    forall|i: int|
        0 <= i < pool.entries@.len() && names_a::<PooledString, V>(
            state,
            (#[trigger] pool.entries@[i]).any(),
        ) ==> pool.entries@[i].hash_of() == pooled::<V>(
            state.cells[pool.entries@[i].any().addr()].value,
        ).hash
}

/// Every text in use is allocated only once, whatever hashes the texts were given.
/// The slots of the strings were not reused more than `uses` times since the pool
/// got to know the strings.
pub open spec fn sharing<V: AnyValue>(pool: StringPool<V>, state: GlobalView<V>, uses: int) -> bool where
    PooledString: Collectable<V>,
 {
    &&& hashes_agree(pool, state)
    &&& each_text_once(pool, state)
    &&& young(pool, state, uses)
}

/// The entry names a string with the text.
spec fn live_with<V: AnyValue>(
    pool: StringPool<V>,
    state: GlobalView<V>,
    text: Seq<char>,
    i: int,
) -> bool where PooledString: Collectable<V> {
    &&& 0 <= i < pool.entries@.len()
    &&& names_a::<PooledString, V>(state, pool.entries@[i].any())
    &&& text_of(state, pool.entries@[i].any()) == text
}

/// The hash under which the pool knows a text, or `default`.
spec fn known_by<V: AnyValue>(
    pool: StringPool<V>,
    state: GlobalView<V>,
    default: u64,
) -> spec_fn(Seq<char>) -> u64 where PooledString: Collectable<V> {
    |text: Seq<char>|
        if exists|i: int| live_with(pool, state, text, i) {
            pool.entries@[choose|i: int| live_with(pool, state, text, i)].hash_of()
        } else {
            default
        }
}

/// If every text is allocated only once, some function gives each its hash.
proof fn lemma_known_by<V: AnyValue>(pool: StringPool<V>, state: GlobalView<V>, default: u64) where
    PooledString: Collectable<V>,

    requires
        hashes_agree(pool, state),
        each_text_once(pool, state),
    ensures
        hashed_by(pool, state, known_by(pool, state, default)),
{
    let hasher = known_by(pool, state, default);
    assert forall|i: int|
        0 <= i < pool.entries@.len() && names_a::<PooledString, V>(
            state,
            (#[trigger] pool.entries@[i]).any(),
        ) implies {
        let any = pool.entries@[i].any();
        &&& pool.entries@[i].hash_of() == hasher(text_of(state, any))
        &&& pooled::<V>(state.cells[any.addr()].value).hash == hasher(text_of(state, any))
    } by {
        let text = text_of(state, pool.entries@[i].any());
        assert(live_with(pool, state, text, i));
        let j = choose|j: int| live_with(pool, state, text, j);
        assert(pool.entries@[i].any() == pool.entries@[j].any());
    }
}

/// If some function gives each text its hash, the hashes agree.
proof fn lemma_hashes_agree<V: AnyValue>(
    pool: StringPool<V>,
    state: GlobalView<V>,
    hasher: spec_fn(Seq<char>) -> u64,
) where PooledString: Collectable<V>
    requires
        hashed_by(pool, state, hasher),
    ensures
        hashes_agree(pool, state),
{
}

/// A pool without strings has no text twice.
pub proof fn law_new_pool_shares<V: AnyValue>(pool: StringPool<V>, state: GlobalView<V>) where
    PooledString: Collectable<V>,

    requires
        pool.entries@.len() == 0,
    ensures
        sharing(pool, state, 0),
{
}

/// Making a string with a text that is in use gives the string that is in use and
/// adds no entry. Every text stays allocated only once, whatever hash the text was
/// given this time, and what the pool has an entry for it still has an entry for.
///
/// The slots were reused fewer times than there are generations.
pub proof fn law_new_strings_are_shared<V: AnyValue>(
    before: StringPool<V>,
    global_before: GlobalCollector<V>,
    after: StringPool<V>,
    global_after: GlobalCollector<V>,
    text: Seq<char>,
    hash: u64,
    found: Option<usize>,
    position: usize,
    extra: int,
    string: AnyRef,
    uses: int,
) where PooledString: Collectable<V>
    requires
        sharing(before, global_before@, uses),
        0 <= uses < u32::MAX,
        found_text(before, global_before@, text, hash, found),
        interned(
            before,
            global_before,
            after,
            global_after,
            text,
            hash,
            found,
            position,
            extra,
        ),
        after.entries@[position as int].any() == string,
        forall|i: int|
            0 <= i < before.entries@.len() && (#[trigger] before.entries@[i]).holds(
                global_before@,
                text,
                before.entries@[i].hash_of(),
            ) ==> after.entries@.len() == before.entries@.len(),
    ensures
        sharing(after, global_after@, uses + 1),
        is_text(global_after@, string, text),
        has_entry(after, string),
        forall|any: AnyRef| has_entry(before, any) ==> #[trigger] has_entry(after, any),
        forall|i: int|
            0 <= i < before.entries@.len() && names_a::<PooledString, V>(
                global_before@,
                (#[trigger] before.entries@[i]).any(),
            ) && text_of(global_before@, before.entries@[i].any()) == text ==> {
                &&& string == before.entries@[i].any()
                &&& after.entries@.len() == before.entries@.len()
            },
        (forall|i: int|
            0 <= i < before.entries@.len() && names_a::<PooledString, V>(
                global_before@,
                (#[trigger] before.entries@[i]).any(),
            ) ==> text_of(global_before@, before.entries@[i].any()) != text) ==> {
            &&& after.entries@.len() == before.entries@.len() + 1
            &&& !names(global_before@.cells, string)
        },
{
    let state = global_before@;
    let hasher = known_by(before, state, hash);
    lemma_known_by(before, state, hash);
    assert(hasher(text) == hash) by {
        if exists|i: int| live_with(before, state, text, i) {
            let i = choose|i: int| live_with(before, state, text, i);
            assert(before.entries@[i].holds(state, text, before.entries@[i].hash_of()));
            let index = found.unwrap() as int;
            assert(before.entries@[index].holds(state, text, hash));
            assert(before.entries@[i].any() == before.entries@[index].any());
        }
    }
    law_texts_are_interned(
        before,
        global_before,
        after,
        global_after,
        text,
        hasher,
        found,
        position,
        extra,
        uses,
    );
    lemma_hashes_agree(after, global_after@, hasher);
    assert forall|i: int|
        0 <= i < before.entries@.len() && names_a::<PooledString, V>(
            state,
            (#[trigger] before.entries@[i]).any(),
        ) && text_of(state, before.entries@[i].any()) == text implies string == before.entries@[i].any()
        && after.entries@.len() == before.entries@.len() by {
        assert(is_text(state, before.entries@[i].any(), text));
        assert(before.entries@[i].holds(state, text, before.entries@[i].hash_of()));
    }
    if forall|i: int|
        0 <= i < before.entries@.len() && names_a::<PooledString, V>(
            state,
            (#[trigger] before.entries@[i]).any(),
        ) ==> text_of(state, before.entries@[i].any()) != text {
        if let Some(index) = found {
            assert(is_text(state, before.entries@[index as int].any(), text));
        }
    }
}

/// Strings with the same text are the same: making a string, and then another with
/// the same text, gives the same string twice and adds at most one entry.
pub proof fn law_same_text_same_string<V: AnyValue>(
    first: StringPool<V>,
    global_first: GlobalCollector<V>,
    second: StringPool<V>,
    global_second: GlobalCollector<V>,
    third: StringPool<V>,
    global_third: GlobalCollector<V>,
    text: Seq<char>,
    hashes: (u64, u64),
    found: (Option<usize>, Option<usize>),
    positions: (usize, usize),
    extra: (int, int),
    strings: (AnyRef, AnyRef),
    uses: int,
) where PooledString: Collectable<V>
    requires
        sharing(first, global_first@, uses),
        0 <= uses < u32::MAX - 1,
        found_text(first, global_first@, text, hashes.0, found.0),
        interned(
            first,
            global_first,
            second,
            global_second,
            text,
            hashes.0,
            found.0,
            positions.0,
            extra.0,
        ),
        second.entries@[positions.0 as int].any() == strings.0,
        forall|i: int|
            0 <= i < first.entries@.len() && (#[trigger] first.entries@[i]).holds(
                global_first@,
                text,
                first.entries@[i].hash_of(),
            ) ==> second.entries@.len() == first.entries@.len(),
        found_text(second, global_second@, text, hashes.1, found.1),
        interned(
            second,
            global_second,
            third,
            global_third,
            text,
            hashes.1,
            found.1,
            positions.1,
            extra.1,
        ),
        third.entries@[positions.1 as int].any() == strings.1,
        forall|i: int|
            0 <= i < second.entries@.len() && (#[trigger] second.entries@[i]).holds(
                global_second@,
                text,
                second.entries@[i].hash_of(),
            ) ==> third.entries@.len() == second.entries@.len(),
    ensures
        strings.0 == strings.1,
        third.entries@.len() == second.entries@.len(),
        sharing(third, global_third@, uses + 2),
{
    law_new_strings_are_shared(
        first,
        global_first,
        second,
        global_second,
        text,
        hashes.0,
        found.0,
        positions.0,
        extra.0,
        strings.0,
        uses,
    );
    law_new_strings_are_shared(
        second,
        global_second,
        third,
        global_third,
        text,
        hashes.1,
        found.1,
        positions.1,
        extra.1,
        strings.1,
        uses + 1,
    );
    assert(names_a::<PooledString, V>(
        global_second@,
        second.entries@[positions.0 as int].any(),
    ));
}

/// Every text stays allocated only once while the collector runs.
pub proof fn law_collector_keeps_sharing<V: AnyValue>(
    pool: StringPool<V>,
    state: GlobalView<V>,
    commands: Seq<CollectorCommand>,
    times: CollectionTimes,
    uses: int,
) where PooledString: Collectable<V>
    requires
        state_ok(state),
        commands_ok(state, commands),
        pool.wf(state),
        sharing(pool, state, uses),
    ensures
        pool.wf(after_commands(state, commands, times)),
        sharing(pool, after_commands(state, commands, times), uses),
{
    let hasher = known_by(pool, state, 0);
    lemma_known_by(pool, state, 0);
    law_collector_keeps_interning(pool, state, commands, times, hasher, uses);
    lemma_hashes_agree(pool, after_commands(state, commands, times), hasher);
}

/// Every text stays allocated only once when a requested collection runs.
pub proof fn law_request_keeps_sharing<V: AnyValue>(
    pool: StringPool<V>,
    state: GlobalView<V>,
    commands: Seq<CollectorCommand>,
    now: u64,
    times: CollectionTimes,
    uses: int,
) where PooledString: Collectable<V>
    requires
        state_ok(state),
        commands_ok(state, commands),
        pool.wf(state),
        sharing(pool, state, uses),
    ensures
        pool.wf(after_request(state, commands, now, times)),
        sharing(pool, after_request(state, commands, now, times), uses),
{
    let hasher = known_by(pool, state, 0);
    lemma_known_by(pool, state, 0);
    law_request_keeps_interning(pool, state, commands, now, times, hasher, uses);
    lemma_hashes_agree(pool, after_request(state, commands, now, times), hasher);
}

/// Every text stays allocated only once when other values are stored.
pub proof fn law_storing_keeps_sharing<V: AnyValue>(
    pool: StringPool<V>,
    global: GlobalCollector<V>,
    thread: CollectorThreadId,
    key: u64,
    new: AnyRef,
    cell: Cell<V>,
    uses: int,
) where PooledString: Collectable<V>
    requires
        sharing(pool, global@, uses),
        0 <= uses < u32::MAX,
        is_next_ref(global, thread, key, new),
        cell.generation == new.slot_generation,
    ensures
        sharing(pool, stored(global, key, new, cell), uses + 1),
{
    let hasher = known_by(pool, global@, 0);
    lemma_known_by(pool, global@, 0);
    law_storing_keeps_interning(pool, global, thread, key, new, cell, hasher, uses);
    lemma_hashes_agree(pool, stored(global, key, new, cell), hasher);
}

/// Every text stays allocated only once whatever else changes, as long as the values
/// and the generations of the slots stay as they are.
pub proof fn law_other_changes_keep_sharing<V: AnyValue>(
    pool: StringPool<V>,
    before: GlobalView<V>,
    after: GlobalView<V>,
    uses: int,
) where PooledString: Collectable<V>
    requires
        sharing(pool, before, uses),
        after.generations == before.generations,
        forall|addr: Addr| #[trigger]
            after.cells.dom().contains(addr) ==> {
                &&& before.cells.dom().contains(addr)
                &&& after.cells[addr].generation == before.cells[addr].generation
                &&& after.cells[addr].value == before.cells[addr].value
            },
    ensures
        sharing(pool, after, uses),
{
    assert forall|r: AnyRef| #[trigger] names_a::<PooledString, V>(after, r) implies names_a::<
        PooledString,
        V,
    >(before, r) && text_of(after, r) == text_of(before, r) && after.cells[r.addr()].value
        == before.cells[r.addr()].value by {
        assert(after.cells.dom().contains(r.addr()));
    }
}

/// Every text stays allocated only once when a string is given up.
pub proof fn law_release_keeps_sharing<V: AnyValue>(
    before: StringPool<V>,
    global_before: GlobalCollector<V>,
    after: StringPool<V>,
    global_after: GlobalCollector<V>,
    any: AnyRef,
    found: Option<usize>,
    uses: int,
) where PooledString: Collectable<V>
    requires
        sharing(before, global_before@, uses),
        names_a::<PooledString, V>(global_before@, any),
        found_root(before, any, found),
        string_released(before, global_before, after, global_after, any, found),
    ensures
        sharing(after, global_after@, uses),
        forall|other: AnyRef| has_entry(before, other) ==> #[trigger] has_entry(after, other),
{
    let hasher = known_by(before, global_before@, 0);
    lemma_known_by(before, global_before@, 0);
    law_release_keeps_interning(
        before,
        global_before,
        after,
        global_after,
        any,
        found,
        hasher,
        uses,
    );
    lemma_hashes_agree(after, global_after@, hasher);
}

/// The roots to a string besides those of the pool.
pub open spec fn roots_outside<V: AnyValue>(
    pool: StringPool<V>,
    state: GlobalView<V>,
    any: AnyRef,
) -> int where PooledString: Collectable<V> {
    state.cells[any.addr()].roots - pool_roots(pool.entries@, any)
}

/// The roots that are handed out for a string are counted as roots besides those of
/// the pool, and the pool has a root to the string. Other values keep their roots.
pub proof fn law_string_roots_are_counted<V: AnyValue>(
    before: StringPool<V>,
    global_before: GlobalCollector<V>,
    after: StringPool<V>,
    global_after: GlobalCollector<V>,
    text: Seq<char>,
    hash: u64,
    found: Option<usize>,
    position: usize,
    extra: int,
    string: AnyRef,
) where PooledString: Collectable<V>
    requires
        before.wf(global_before@),
        can_root(before, global_before@),
        0 <= extra <= 1,
        found_text(before, global_before@, text, hash, found),
        interned(
            before,
            global_before,
            after,
            global_after,
            text,
            hash,
            found,
            position,
            extra,
        ),
        after.entries@[position as int].any() == string,
    ensures
        names(global_after@.cells, string),
        text_of(global_after@, string) == text,
        pool_roots(after.entries@, string) > 0,
        names(global_before@.cells, string) ==> roots_outside(after, global_after@, string)
            == roots_outside(before, global_before@, string) + extra,
        !names(global_before@.cells, string) ==> roots_outside(after, global_after@, string)
            == extra,
        same_elsewhere(global_before@.cells, global_after@.cells, string.addr()),
{
    lemma_pool_roots_some(after.entries@, string);
    match found {
        Some(index) => {
            let entry = before.entries@[index as int];
            assert(names(global_before@.cells, entry.any()));
            assert(roots_of(global_before@, entry.any()) < u64::MAX - 1);
            lemma_pool_roots_update(
                before.entries@,
                index as int,
                after.entries@[index as int],
                string,
            );
        },
        None => {
            lemma_pool_roots_some(before.entries@, string);
            if pool_roots(before.entries@, string) > 0 {
                let i = choose|i: int|
                    0 <= i < before.entries@.len() && (#[trigger] before.entries@[i]) is Rooted
                        && before.entries@[i].any() == string;
                assert(before.entries@[i].valid(global_before@));
            }
            assert(after.entries@.drop_last() =~= before.entries@);
        },
    }
}

/// A root to a string that is given up is not counted any more; no text and no other
/// value is touched. If no root besides those of the pool is left, a collection is
/// asked for as soon as the string has no root at all.
pub proof fn law_released_string_is_counted<V: AnyValue>(
    before: StringPool<V>,
    global_before: GlobalCollector<V>,
    after: StringPool<V>,
    global_after: GlobalCollector<V>,
    any: AnyRef,
    found: Option<usize>,
) where PooledString: Collectable<V>
    requires
        before.wf(global_before@),
        names(global_before@.cells, any),
        roots_of(global_before@, any) > pool_roots(before.entries@, any),
        found_root(before, any, found),
        string_released(before, global_before, after, global_after, any, found),
    ensures
        roots_outside(after, global_after@, any) == roots_outside(before, global_before@, any) - 1,
        names(global_after@.cells, any),
        global_after@.cells[any.addr()].value == global_before@.cells[any.addr()].value,
        same_elsewhere(global_before@.cells, global_after@.cells, any.addr()),
        after.entries@.len() == before.entries@.len(),
        forall|i: int|
            0 <= i < before.entries@.len() ==> (#[trigger] after.entries@[i]).any()
                == before.entries@[i].any() && after.entries@[i].hash_of()
                == before.entries@[i].hash_of(),
        roots_outside(before, global_before@, any) == 1 && pool_roots(before.entries@, any) <= 1
            ==> global_after@.cells[any.addr()].roots == 0,
        global_after@.info.signalled_collector <==> global_before@.info.signalled_collector
            || global_after@.cells[any.addr()].roots == 0,
        global_after@.info.signalled_collector && !global_before@.info.signalled_collector
            ==> asks_once(global_before.commands@, global_after.commands@),
        global_after@.info.signalled_collector == global_before@.info.signalled_collector
            ==> global_after.commands@ == global_before.commands@,
{
    lemma_pool_roots_some(before.entries@, any);
    if roots_of(global_before@, any) == 2 && found is Some {
        let position = found.unwrap() as int;
        lemma_pool_roots_update(before.entries@, position, after.entries@[position], any);
        assert(pool_roots(before.entries@, any) == 1) by {
            assert(before.entries@[position] is Rooted && before.entries@[position].any() == any);
        }
    }
}

/// The text of a string that was not freed is in use, and is known under the hash of
/// the entry for the string.
pub proof fn law_known_texts<V: AnyValue>(
    pool: StringPool<V>,
    state: GlobalView<V>,
    text: Seq<char>,
    hash: u64,
    i: int,
) where PooledString: Collectable<V>
    requires
        hashes_agree(pool, state),
        0 <= i < pool.entries@.len(),
        names_a::<PooledString, V>(state, pool.entries@[i].any()),
        text_of(state, pool.entries@[i].any()) == text,
    ensures
        in_use(pool, state, text),
        pool.entries@[i].hash_of() == hash ==> knows(pool, state, text, hash),
{
    assert(pool.entries@[i].holds(state, text, pool.entries@[i].hash_of()));
}

/// Making a string changes no guard, no handle and nothing of the collector. A
/// collection is asked for only if the string took the last slot of a slab.
pub proof fn law_interning_changes_nothing_else<V: AnyValue>(
    before: StringPool<V>,
    global_before: GlobalCollector<V>,
    after: StringPool<V>,
    global_after: GlobalCollector<V>,
    text: Seq<char>,
    hash: u64,
    found: Option<usize>,
    position: usize,
    extra: int,
    string: AnyRef,
) where PooledString: Collectable<V>
    requires
        global_before.wf(),
        before.wf(global_before@),
        found_text(before, global_before@, text, hash, found),
        interned(
            before,
            global_before,
            after,
            global_after,
            text,
            hash,
            found,
            position,
            extra,
        ),
        after.entries@[position as int].any() == string,
    ensures
        after.allocator == before.allocator,
        global_after@.collector == global_before@.collector,
        global_after@.info.reader_state == global_before@.info.reader_state,
        global_after@.info.last_run == global_before@.info.last_run,
        global_after@.info.handles == global_before@.info.handles,
        global_after@.info.next_thread_id == global_before@.info.next_thread_id,
        global_after@.info.signalled_collector <==> global_before@.info.signalled_collector
            || found is None && takes_last_slot(global_before@, string),
        global_after@.info.signalled_collector && !global_before@.info.signalled_collector
            ==> asks_once(global_before.commands@, global_after.commands@),
        global_after@.info.signalled_collector == global_before@.info.signalled_collector
            ==> global_after.commands@ == global_before.commands@,
        found is None ==> string.creating_thread == before.allocator.thread_id,
        found is Some ==> global_after@.generations == global_before@.generations
            && global_after@.layouts == global_before@.layouts && global_after@.info.types
            == global_before@.info.types,
        forall|i: int|
            0 <= i < before.entries@.len() && i != position ==> #[trigger] after.entries@[i]
                == before.entries@[i],
{
    if found is None {
        assert(global_before@.info.handles.dom().contains(before.allocator.thread_id.id as u64));
        law_filling_a_slab_asks_for_a_collection(
            global_before,
            global_after,
            before.allocator.thread_id,
            PooledString::key(),
            string,
            global_after@.cells[string.addr()],
        );
    }
}

/// There is room for roots exactly if no string of the pool has so many that two
/// more could not be counted, and for another string as for any value.
pub proof fn law_room_for_strings<V: AnyValue>(pool: StringPool<V>, global: GlobalCollector<V>) where
    PooledString: Collectable<V>,

    ensures
        can_root(pool, global@) <==> forall|i: int|
            0 <= i < pool.entries@.len() && names(
                global@.cells,
                (#[trigger] pool.entries@[i]).any(),
            ) ==> global@.cells[pool.entries@[i].any().addr()].roots + 2 <= u64::MAX,
        has_space(pool, global) <==> can_store(
            global,
            pool.allocator.thread_id,
            PooledString::key(),
        ),
{
}

} // verus!
