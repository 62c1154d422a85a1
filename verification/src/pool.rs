//! Garbage-collected "interned" strings.
//!
//! Interning is a process of making many equal things share the same underlying
//! resource. There are two types of interned strings:
//!
//! - [`RootString`]: A root-like type that ensures all instances of the same
//!   exact text refer to the same allocation.
//! - [`RefString`]: A reference to a [`RootString`].

use ahash::AHasher;
use std::hash::{Hash, Hasher};
use vstd::prelude::*;

use crate::any_ref::{Addr, AnyRef, TypeIndex};
use crate::command::CollectorCommand;
use crate::global::{signalled, GlobalCollector, GlobalView};
use crate::guard::{CollectionGuard, LocalPool, ThreadPool};
use crate::heap::names;
use crate::reader_state::MAX_READERS;
use crate::reference::{
    after_release, can_number, can_store, commands_after_store, is_next_ref, names_a, number_of,
    numbered, one_more, roots_changed, roots_of, slabs_after_store, stored, with_roots, AnyRoot,
    Ref, Root,
};
use crate::slab::Cell;
use crate::string_laws::has_entry;
use crate::string_table::{string_table_items, StringTable};
use crate::trace::{
    lemma_extends_nothing, AnyValue, Collectable, MapAs, MapTarget, NoMapping, Trace, Tracer,
};

verus! {

/// A string together with its hash.
pub struct PooledString {
    pub hash: u64,
    pub string: String,
}

impl PooledString {
    /// Returns `s` with its hash.
    pub fn new(hash: u64, s: String) -> (pooled: Self)
        ensures
            pooled == (PooledString { hash, string: s }),
    {
        PooledString { hash, string: s }
    }
}

impl Trace for PooledString {
    const MAY_CONTAIN_REFERENCES: bool = false;

    open spec fn references(&self) -> Set<AnyRef> {
        Set::empty()
    }

    proof fn lemma_references(&self) {
    }

    fn trace(&self, tracer: &mut Tracer) {
        proof {
            lemma_extends_nothing(*tracer);
        }
    }
}

impl NoMapping for PooledString {

}

/// A collector of nothing but pooled strings.
impl AnyValue for PooledString {
    open spec fn type_key(&self) -> u64 {
        0
    }

    open spec fn target_key(&self) -> u64 {
        0
    }

    open spec fn any_may_reference(&self) -> bool {
        false
    }

    open spec fn any_references(&self) -> Set<AnyRef> {
        Set::empty()
    }

    proof fn lemma_any_references(&self) {
    }

    fn any_type_key(&self) -> (key: u64) {
        0
    }

    fn any_may_contain_references(&self) -> (result: bool) {
        false
    }

    fn any_trace(&self, tracer: &mut Tracer) {
        self.trace(tracer);
    }
}

impl MapTarget<PooledString> for () {
    open spec fn key() -> u64 {
        0
    }

    proof fn lemma_image(value: &PooledString) {
    }

    open spec fn image(value: &PooledString) -> Option<&()> {
        Some(value.mapped())
    }

    fn map_any(value: &PooledString) -> (image: Option<&()>) {
        Some(value.map_as())
    }
}

impl Collectable<PooledString> for PooledString {
    open spec fn key() -> u64 {
        0
    }

    open spec fn erased(self) -> PooledString {
        self
    }

    proof fn lemma_erased(self) {
    }

    proof fn lemma_mapped(self) {
    }

    fn collectable_key() -> (key: u64) {
        0
    }

    fn erase(self) -> (value: PooledString) {
        self
    }

    fn downcast(value: &PooledString) -> (result: Option<&Self>) {
        Some(value)
    }
}

/// `ahash::AHasher`: the hash of a string.
///
/// The hasher's keys are chosen when the program runs, so nothing is said of
/// the hash of a given string.
#[verifier::external_body]
fn hash_str(s: &String) -> (hash: u64) {
    let mut hasher = AHasher::default();
    s.hash(&mut hasher);
    hasher.finish()
}

/// The pooled string that a value is.
pub open spec fn pooled<V: AnyValue>(value: V) -> PooledString where PooledString: Collectable<V> {
    choose|p: PooledString| #[trigger] p.erased() == value
}

/// A pooled string is found in its erased form.
pub proof fn lemma_pooled<V: AnyValue>(p: PooledString) where PooledString: Collectable<V>
    ensures
        pooled::<V>(p.erased()) == p,
{
    let found = choose|q: PooledString| #[trigger] q.erased() == p.erased();
    p.lemma_erased();
}

/// The reference names a pooled string with the text.
pub open spec fn is_text<V: AnyValue>(state: GlobalView<V>, any: AnyRef, text: Seq<char>) -> bool where
    PooledString: Collectable<V>,
 {
    &&& names_a::<PooledString, V>(state, any)
    &&& pooled::<V>(state.cells[any.addr()].value).string@ == text
}

/// The reference names a pooled string with the text and the hash.
pub open spec fn is_string<V: AnyValue>(
    state: GlobalView<V>,
    any: AnyRef,
    text: Seq<char>,
    hash: u64,
) -> bool where PooledString: Collectable<V> {
    &&& is_text(state, any, text)
    &&& pooled::<V>(state.cells[any.addr()].value).hash == hash
}

/// A "root" reference to a garbage collected, interned string.
///
/// This type is cheap to check equality because it ensures each unique string
/// is allocated only once, and references are reused automatically.
pub struct RootString<V> {
    pub root: Root<PooledString, V>,
}

/// A weak reference to a garbage collected, interned string.
pub struct RefString {
    pub reference: Ref<PooledString>,
}

impl Copy for RefString {

}

impl Clone for RefString {
    fn clone(&self) -> (copy: Self)
        ensures
            copy == *self,
    {
        *self
    }
}

/// A string that the pool knows, with or without a root, and its hash.
pub enum PoolEntry<V> {
    Rooted(RootString<V>, u64),
    Weak(RefString, u64),
}

impl<V: AnyValue> PoolEntry<V> where PooledString: Collectable<V> {
    /// The reference to the string.
    pub open spec fn any(self) -> AnyRef {
        match self {
            PoolEntry::Rooted(r, _) => r.root.reference.any,
            PoolEntry::Weak(r, _) => r.reference.any,
        }
    }

    /// The hash of the string.
    pub open spec fn hash_of(self) -> u64 {
        match self {
            PoolEntry::Rooted(_, hash) => hash,
            PoolEntry::Weak(_, hash) => hash,
        }
    }

    /// A root is one of the roots to its string, and is known under the hash of
    /// the string.
    pub open spec fn valid(self, state: GlobalView<V>) -> bool {
        match self {
            PoolEntry::Rooted(r, hash) => r.root.valid(state) && r.hash_of() == hash,
            PoolEntry::Weak(_, _) => true,
        }
    }

    /// This is the string with the text and the hash, and it was not freed.
    pub open spec fn holds(self, state: GlobalView<V>, text: Seq<char>, hash: u64) -> bool {
        &&& self.hash_of() == hash
        &&& is_string(state, self.any(), text, hash)
    }

    /// Returns true if this is the string `s` with the hash, and it was not
    /// freed.
    pub fn equals<'a>(
        &self,
        s: &String,
        hash: u64,
        guard: &CollectionGuard<'a>,
        global: &GlobalCollector<V>,
    ) -> (equal: bool)
        requires
            global.wf(),
            guard.valid(global@),
            self.valid(global@),
        ensures
            equal == self.holds(global@, s@, hash),
    {
        if self.hash() != hash {
            return false;
        }
        match self {
            PoolEntry::Rooted(r, _) => {
                let p: &PooledString = r.root.deref();
                proof {
                    lemma_pooled::<V>(*p);
                }
                p.string == *s
            },
            PoolEntry::Weak(r, _) => match r.reference.load(guard, global) {
                Some(p) => {
                    proof {
                        lemma_pooled::<V>(*p);
                    }
                    p.hash == hash && p.string == *s
                },
                None => false,
            },
        }
    }

    /// Returns the hash of the string.
    pub fn hash(&self) -> (hash: u64)
        ensures
            hash == self.hash_of(),
    {
        match self {
            PoolEntry::Rooted(_, hash) => *hash,
            PoolEntry::Weak(_, hash) => *hash,
        }
    }

    /// Returns the reference to the string.
    pub fn reference(&self) -> (any: AnyRef)
        ensures
            any == self.any(),
    {
        match self {
            PoolEntry::Rooted(string, _) => string.root.reference.any,
            PoolEntry::Weak(string, _) => string.reference.any,
        }
    }

    /// Returns the root, if there is one.
    pub fn rooted(&self) -> (root: Option<&RootString<V>>)
        ensures
            root == (match *self {
                PoolEntry::Rooted(string, _) => Some(&string),
                PoolEntry::Weak(_, _) => None,
            }),
    {
        match self {
            PoolEntry::Rooted(string, _) => Some(string),
            PoolEntry::Weak(_, _) => None,
        }
    }

    /// Returns true if this is a root to the string that `any` names.
    pub fn is_root_to(&self, any: AnyRef) -> (result: bool)
        ensures
            result == (self is Rooted && self.any() == any),
    {
        match self {
            PoolEntry::Rooted(r, _) => r.root.reference.any == any,
            PoolEntry::Weak(_, _) => false,
        }
    }
}

/// How many of the entries are roots to what `any` names.
pub open spec fn pool_roots<V: AnyValue>(entries: Seq<PoolEntry<V>>, any: AnyRef) -> nat where
    PooledString: Collectable<V>,

    decreases entries.len(),
{
    if entries.len() == 0 {
        0
    } else {
        pool_roots(entries.drop_last(), any) + (if entries.last() is Rooted && entries.last().any()
            == any {
            1nat
        } else {
            0nat
        })
    }
}

/// Replacing an entry changes the count by what the two entries count.
pub proof fn lemma_pool_roots_update<V: AnyValue>(
    entries: Seq<PoolEntry<V>>,
    position: int,
    entry: PoolEntry<V>,
    any: AnyRef,
) where PooledString: Collectable<V>
    requires
        0 <= position < entries.len(),
    ensures
        pool_roots(entries.update(position, entry), any) == pool_roots(entries, any) - (if entries[position] is Rooted
            && entries[position].any() == any {
            1int
        } else {
            0int
        }) + (if entry is Rooted && entry.any() == any {
            1int
        } else {
            0int
        }),
    decreases entries.len(),
{
    let updated = entries.update(position, entry);
    if position < entries.len() - 1 {
        assert(updated.drop_last() =~= entries.drop_last().update(position, entry));
        lemma_pool_roots_update(entries.drop_last(), position, entry, any);
    } else {
        assert(updated.drop_last() =~= entries.drop_last());
    }
}

/// What is counted is an entry, and a rooted entry is counted.
pub proof fn lemma_pool_roots_some<V: AnyValue>(entries: Seq<PoolEntry<V>>, any: AnyRef) where
    PooledString: Collectable<V>,

    ensures
        pool_roots(entries, any) > 0 <==> (exists|i: int|
            0 <= i < entries.len() && (#[trigger] entries[i]) is Rooted && entries[i].any() == any),
    decreases entries.len(),
{
    if entries.len() > 0 {
        let shorter = entries.drop_last();
        lemma_pool_roots_some(shorter, any);
        if pool_roots(shorter, any) > 0 {
            let i = choose|i: int|
                0 <= i < shorter.len() && (#[trigger] shorter[i]) is Rooted && shorter[i].any() == any;
            assert(entries[i] == shorter[i]);
        }
        if exists|i: int|
            0 <= i < entries.len() && (#[trigger] entries[i]) is Rooted && entries[i].any() == any {
            let i = choose|i: int|
                0 <= i < entries.len() && (#[trigger] entries[i]) is Rooted && entries[i].any() == any;
            if i < shorter.len() {
                assert(shorter[i] == entries[i]);
            }
        }
        if entries.last() is Rooted && entries.last().any() == any {
            assert(entries[entries.len() - 1] == entries.last());
        }
    }
}

/// The strings that are interned.
pub struct StringPool<V> {
    pub allocator: LocalPool,
    pub strings: StringTable,
    pub entries: Vec<PoolEntry<V>>,
}

impl<V: AnyValue> StringPool<V> where PooledString: Collectable<V> {
    /// The table knows exactly the entries, each under its hash, the pool's roots
    /// are counted as roots, and every entry names a slot of the allocator.
    pub open spec fn wf(self, state: GlobalView<V>) -> bool {
        &&& self.allocator.valid(state)
        &&& forall|any: AnyRef|
            pool_roots(self.entries@, any) > 0 ==> #[trigger] pool_roots(self.entries@, any)
                <= roots_of(state, any)
        &&& forall|i: int|
            0 <= i < self.entries@.len() ==> (#[trigger] self.entries@[i]).valid(state)
                && self.strings@.contains((self.entries@[i].hash_of(), i as usize))
        &&& forall|i: int|
            0 <= i < self.entries@.len() ==> (#[trigger] self.entries@[i]).any().creating_thread
                == self.allocator.thread_id && state.generations.dom().contains(
                self.entries@[i].any().addr(),
            )
        &&& forall|item: (u64, usize)| #[trigger]
            self.strings@.contains(item) ==> item.1 < self.entries@.len() && item.0
                == self.entries@[item.1 as int].hash_of()
    }

    /// Returns a pool without strings that allocates in `allocator`.
    pub fn new(allocator: LocalPool, global: &GlobalCollector<V>) -> (pool: Self)
        requires
            allocator.valid(global@),
        ensures
            pool.wf(global@),
            pool.allocator == allocator,
            pool.entries@ == Seq::<PoolEntry<V>>::empty(),
    {
        StringPool { allocator, strings: StringTable::new(), entries: Vec::new() }
    }

    /// Returns true if another string can be stored.
    pub fn has_room(&self, global: &mut GlobalCollector<V>) -> (room: bool)
        requires
            old(global).wf(),
            self.wf(old(global)@),
            can_number(old(global)@, PooledString::key()),
        ensures
            final(global).wf(),
            self.wf(final(global)@),
            final(global)@ == numbered(old(global)@, PooledString::key()),
            final(global).commands@ == old(global).commands@,
            final(global).info.all_threads == old(global).info.all_threads,
            room == has_space(*self, *old(global)),
            room == has_space(*self, *final(global)),
    {
        let index: TypeIndex = TypeIndex::of::<PooledString, V>(&mut global.info.type_indexes);
        !global.info.all_threads.is_full(self.allocator.thread_id, index)
    }

    /// Returns true if the strings have few enough roots for two more.
    pub fn can_add_roots(&self, global: &GlobalCollector<V>) -> (result: bool)
        requires
            global.wf(),
        ensures
            result == can_root(*self, global@),
    {
        let mut i: usize = 0;
        while i < self.entries.len()
            invariant
                global.wf(),
                i <= self.entries@.len(),
                forall|j: int|
                    0 <= j < i && names(global@.cells, (#[trigger] self.entries@[j]).any())
                        ==> roots_of(global@, self.entries@[j].any()) < u64::MAX - 1,
            decreases self.entries@.len() - i,
        {
            let any: AnyRef = self.entries[i].reference();
            if let Some(rooted) = global.info.all_threads.load(any) {
                if rooted.roots >= u64::MAX - 1 {
                    assert(names(global@.cells, self.entries@[i as int].any()));
                    return false;
                }
            }
            i = i + 1;
        }
        true
    }

    /// Looks for an entry with the text `key` and the hash.
    fn find<'a>(
        &self,
        key: &String,
        hash: u64,
        guard: &CollectionGuard<'a>,
        global: &GlobalCollector<V>,
    ) -> (found: Option<usize>)
        requires
            global.wf(),
            guard.valid(global@),
            self.wf(global@),
        ensures
            found_text(*self, global@, key@, hash, found),
    {
        let entries = &self.entries;
        let equals = |position: usize| -> (equal: bool)
            requires
                can_compare(entries, guard, global, position),
            ensures
                equal == entry_is(entries, global, position, key, hash)
        { entries[position].equals(key, hash, guard, global) };
        assert(self.strings@ == string_table_items(self.strings));
        let found: Option<usize> = self.strings.find(hash, equals);
        proof {
            if found is None {
                assert forall|i: int| 0 <= i < self.entries@.len() && (
                #[trigger] self.entries@[i]).holds(global@, key@, hash) implies false by {
                    assert(i <= self.entries.len());
                    assert(self.strings@.contains((self.entries@[i].hash_of(), i as usize)));
                }
            }
        }
        found
    }

    /// Returns the hash under which the text `key` is in use, or `hash` if it is not
    /// in use.
    ///
    /// A text that is in use is found even if `hash` is not the hash that it was
    /// given before, so that no text is allocated twice.
    fn known_hash<'a>(
        &self,
        key: &String,
        hash: u64,
        guard: &CollectionGuard<'a>,
        global: &GlobalCollector<V>,
    ) -> (known: u64)
        requires
            global.wf(),
            guard.valid(global@),
            self.wf(global@),
        ensures
            in_use(*self, global@, key@) ==> knows(*self, global@, key@, known),
            !in_use(*self, global@, key@) ==> known == hash,
    {
        if self.find(key, hash, guard, global).is_some() {
            return hash;
        }
        let mut i: usize = 0;
        while i < self.entries.len()
            invariant
                global.wf(),
                guard.valid(global@),
                i <= self.entries@.len(),
                forall|j: int|
                    0 <= j < self.entries@.len() ==> (#[trigger] self.entries@[j]).valid(global@),
                forall|j: int|
                    0 <= j < i ==> !(#[trigger] self.entries@[j]).holds(
                        global@,
                        key@,
                        self.entries@[j].hash_of(),
                    ),
            decreases self.entries@.len() - i,
        {
            let known: u64 = self.entries[i].hash();
            if self.entries[i].equals(key, known, guard, global) {
                return known;
            }
            i = i + 1;
        }
        hash
    }
}

/// The entry at the position can be compared with a text.
spec fn can_compare<'a, V: AnyValue>(
    entries: &Vec<PoolEntry<V>>,
    guard: &CollectionGuard<'a>,
    global: &GlobalCollector<V>,
    position: usize,
) -> bool where PooledString: Collectable<V> {
    &&& position < entries@.len()
    &&& global.wf()
    &&& guard.valid(global@)
    &&& entries@[position as int].valid(global@)
}

/// The entry at the position has the text `key` and the hash.
spec fn entry_is<V: AnyValue>(
    entries: &Vec<PoolEntry<V>>,
    global: &GlobalCollector<V>,
    position: usize,
    key: &String,
    hash: u64,
) -> bool where PooledString: Collectable<V> {
    entries@[position as int].holds(global@, key@, hash)
}

/// `found` is an entry with the text and the hash; there is none if nothing was
/// found.
pub open spec fn found_text<V: AnyValue>(
    pool: StringPool<V>,
    state: GlobalView<V>,
    text: Seq<char>,
    hash: u64,
    found: Option<usize>,
) -> bool where PooledString: Collectable<V> {
    match found {
        Some(position) => position < pool.entries@.len() && pool.entries@[position as int].holds(
            state,
            text,
            hash,
        ),
        None => !knows(pool, state, text, hash),
    }
}

/// An entry has the text and the hash.
pub open spec fn knows<V: AnyValue>(
    pool: StringPool<V>,
    state: GlobalView<V>,
    text: Seq<char>,
    hash: u64,
) -> bool where PooledString: Collectable<V> {
    exists|i: int|
        0 <= i < pool.entries@.len() && (#[trigger] pool.entries@[i]).holds(state, text, hash)
}

/// An entry has the text, and the string that it names was not freed.
pub open spec fn in_use<V: AnyValue>(
    pool: StringPool<V>,
    state: GlobalView<V>,
    text: Seq<char>,
) -> bool where PooledString: Collectable<V> {
    exists|i: int|
        0 <= i < pool.entries@.len() && (#[trigger] pool.entries@[i]).holds(
            state,
            text,
            pool.entries@[i].hash_of(),
        )
}

/// The pool and the global state after interning `text`, given what was found,
/// and after `extra` more roots to the string were handed out.
///
/// An entry with a root stays as it is. An entry without one gets a root. If
/// nothing was found, the string is stored and an entry is added for it.
pub open spec fn interned<V: AnyValue>(
    before: StringPool<V>,
    global_before: GlobalCollector<V>,
    after: StringPool<V>,
    global_after: GlobalCollector<V>,
    text: Seq<char>,
    hash: u64,
    found: Option<usize>,
    position: usize,
    extra: int,
) -> bool where PooledString: Collectable<V> {
    let entry = after.entries@[position as int];
    let any = entry.any();
    &&& after.allocator == before.allocator
    &&& position < after.entries@.len()
    &&& entry is Rooted
    &&& entry.hash_of() == hash
    &&& is_string(global_after@, any, text, hash)
    &&& match found {
        Some(index) => {
            let entry_before = before.entries@[index as int];
            let added = extra + (if entry_before is Rooted {
                0int
            } else {
                1int
            });
            &&& position == index
            &&& any == entry_before.any()
            &&& entry_before is Rooted ==> entry == entry_before
            &&& after.entries@ == before.entries@.update(position as int, entry)
            &&& global_after@ == with_roots(
                global_before@,
                any,
                (roots_of(global_before@, any) + added) as u64,
            )
            &&& global_after.commands@ == global_before.commands@
            &&& global_after.info.all_threads.same_slabs(global_before.info.all_threads)
        },
        None => {
            let value = global_after@.cells[any.addr()].value;
            &&& position == before.entries@.len()
            &&& after.entries@ == before.entries@.push(entry)
            &&& is_next_ref(
                global_before,
                before.allocator.thread_id,
                PooledString::key(),
                any,
            )
            &&& global_after@ == stored(
                global_before,
                PooledString::key(),
                any,
                Cell {
                    generation: any.slot_generation,
                    mark: 0,
                    roots: (1 + extra) as u64,
                    value,
                },
            )
            &&& global_after.commands@ == commands_after_store(global_before, any)
            &&& slabs_after_store(global_before, global_after, any)
        },
    }
}

/// Strings can be interned: a guard is held that keeps the collector from running.
pub open spec fn can_intern<'a, V: AnyValue>(
    pool: StringPool<V>,
    guard: CollectionGuard<'a>,
    thread: ThreadPool,
    global: GlobalCollector<V>,
) -> bool where PooledString: Collectable<V> {
    &&& global.wf()
    &&& guard.valid(global@)
    &&& pool.wf(global@)
    &&& 0 < thread.guard_depth < usize::MAX
    &&& global@.info.reader_state.readers < MAX_READERS
}

/// There is room for another string.
pub open spec fn has_space<V: AnyValue>(pool: StringPool<V>, global: GlobalCollector<V>) -> bool where
    PooledString: Collectable<V>,
 {
    can_store(global, pool.allocator.thread_id, PooledString::key())
}

/// The strings of the pool have few enough roots for two more.
pub open spec fn can_root<V: AnyValue>(pool: StringPool<V>, state: GlobalView<V>) -> bool where
    PooledString: Collectable<V>,
 {
    forall|i: int|
        0 <= i < pool.entries@.len() && names(state.cells, (#[trigger] pool.entries@[i]).any())
            ==> roots_of(state, pool.entries@[i].any()) < u64::MAX - 1
}

impl<V: AnyValue> StringPool<V> where PooledString: Collectable<V> {
    /// Makes sure that the found entry has a root.
    fn root_entry<'a>(
        &mut self,
        index: usize,
        text: Ghost<Seq<char>>,
        hash: u64,
        guard: &CollectionGuard<'a>,
        global: &mut GlobalCollector<V>,
    )
        requires
            old(global).wf(),
            guard.valid(old(global)@),
            old(self).wf(old(global)@),
            found_text(*old(self), old(global)@, text@, hash, Some(index)),
            can_root(*old(self), old(global)@),
        ensures
            final(global).wf(),
            guard.valid(final(global)@),
            final(self).wf(final(global)@),
            interned(
                *old(self),
                *old(global),
                *final(self),
                *final(global),
                text@,
                hash,
                Some(index),
                index,
                0,
            ),
    {
        let ghost before = *self;
        let ghost global_before = *global;
        let ghost any = before.entries@[index as int].any();
        proof {
            assert(before.entries@ =~= before.entries@.update(
                index as int,
                before.entries@[index as int],
            ));
            assert(with_roots(global@, any, roots_of(global@, any)).cells =~= global@.cells);
        }
        let weak: RefString = match &self.entries[index] {
            PoolEntry::Rooted(_, _) => return ,
            PoolEntry::Weak(weak, _) => *weak,
        };
        if let Some(upgraded) = weak.reference.as_root(guard, global) {
            self.entries.set(index, PoolEntry::Rooted(RootString { root: upgraded }, hash));
            proof {
                lemma_still_valid(before, global_before@, global@);
                assert(pool_roots(before.entries@, any) > 0 ==> pool_roots(before.entries@, any)
                    <= roots_of(global_before@, any));
                lemma_entry_replaced(before, *self, global@, index as int);
            }
        }
    }

    /// Stores `key` and adds an entry for it.
    fn add_entry<'a>(
        &mut self,
        key: String,
        hash: u64,
        guard: &CollectionGuard<'a>,
        thread: &mut ThreadPool,
        global: &mut GlobalCollector<V>,
    ) -> (position: usize)
        requires
            can_intern(*old(self), *guard, *old(thread), *old(global)),
            has_space(*old(self), *old(global)),
        ensures
            final(global).wf(),
            guard.valid(final(global)@),
            final(self).wf(final(global)@),
            *final(thread) == *old(thread),
            interned(
                *old(self),
                *old(global),
                *final(self),
                *final(global),
                key@,
                hash,
                None,
                position,
                0,
            ),
    {
        let ghost before = *self;
        let ghost global_before = *global;
        let position: usize = self.entries.len();
        let inner = self.allocator.enter(thread, global);
        let pooled_string = PooledString::new(hash, key);
        proof {
            lemma_pooled::<V>(pooled_string);
        }
        let root = Root::new(pooled_string, &inner, global);
        inner.release(thread, global);
        self.entries.push(PoolEntry::Rooted(RootString { root }, hash));
        self.strings.insert(hash, position);
        proof {
            lemma_still_valid(before, global_before@, global@);
            let any = root.reference.any;
            if pool_roots(before.entries@, any) > 0 {
                lemma_rooted_named(before, global_before@, any);
            }
            assert(self.entries@.drop_last() =~= before.entries@);
            lemma_entry_added(before, *self, global@);
        }
        position
    }

    /// Makes the found entry a rooted one, or adds an entry for `key`.
    pub fn intern_found<'a>(
        &mut self,
        found: Option<usize>,
        key: String,
        hash: u64,
        guard: &CollectionGuard<'a>,
        thread: &mut ThreadPool,
        global: &mut GlobalCollector<V>,
    ) -> (position: usize)
        requires
            can_intern(*old(self), *guard, *old(thread), *old(global)),
            found_text(*old(self), old(global)@, key@, hash, found),
            found is None ==> has_space(*old(self), *old(global)),
            can_root(*old(self), old(global)@),
        ensures
            final(global).wf(),
            guard.valid(final(global)@),
            final(self).wf(final(global)@),
            *final(thread) == *old(thread),
            interned(
                *old(self),
                *old(global),
                *final(self),
                *final(global),
                key@,
                hash,
                found,
                position,
                0,
            ),
    {
        match found {
            Some(index) => {
                self.root_entry(index, Ghost(key@), hash, guard, global);
                index
            },
            None => self.add_entry(key, hash, guard, thread, global),
        }
    }
}

impl<V: AnyValue> StringPool<V> where PooledString: Collectable<V> {
    /// Makes sure that there is an entry with a root for `key`, and returns its
    /// position.
    pub fn intern<'a>(
        &mut self,
        key: String,
        hash: u64,
        guard: &CollectionGuard<'a>,
        thread: &mut ThreadPool,
        global: &mut GlobalCollector<V>,
    ) -> (position: usize)
        requires
            can_intern(*old(self), *guard, *old(thread), *old(global)),
            knows(*old(self), old(global)@, key@, hash) || has_space(*old(self), *old(global)),
            can_root(*old(self), old(global)@),
        ensures
            final(global).wf(),
            guard.valid(final(global)@),
            final(self).wf(final(global)@),
            *final(thread) == *old(thread),
            exists|found: Option<usize>|
                {
                    &&& #[trigger] found_text(*old(self), old(global)@, key@, hash, found)
                    &&& interned(
                        *old(self),
                        *old(global),
                        *final(self),
                        *final(global),
                        key@,
                        hash,
                        found,
                        position,
                        0,
                    )
                },
    {
        let found: Option<usize> = self.find(&key, hash, guard, global);
        self.intern_found(found, key, hash, guard, thread, global)
    }

    /// Returns the position of an entry that is a root to the string that `any`
    /// names and that has the hash.
    fn find_root(&self, any: AnyRef, hash: u64) -> (found: Option<usize>)
        requires
            forall|i: int|
                0 <= i < self.entries@.len() && (#[trigger] self.entries@[i]) is Rooted
                    && self.entries@[i].any() == any ==> self.entries@[i].hash_of() == hash,
            forall|item: (u64, usize)| #[trigger]
                self.strings@.contains(item) ==> item.1 < self.entries@.len(),
            forall|i: int|
                0 <= i < self.entries@.len() ==> self.strings@.contains(
                    ((#[trigger] self.entries@[i]).hash_of(), i as usize),
                ),
        ensures
            found_root(*self, any, found),
    {
        let entries = &self.entries;
        let is_root = |position: usize| -> (result: bool)
            requires
                position < entries@.len(),
            ensures
                result == entry_is_root(entries, position, any)
        { entries[position].is_root_to(any) };
        assert(self.strings@ == string_table_items(self.strings));
        let found: Option<usize> = self.strings.find(hash, is_root);
        proof {
            lemma_pool_roots_some(self.entries@, any);
            if found is None {
                assert forall|i: int| 0 <= i < self.entries@.len() implies !((
                #[trigger] self.entries@[i]) is Rooted && self.entries@[i].any() == any) by {
                    assert(i <= self.entries.len());
                    assert(self.strings@.contains((self.entries@[i].hash_of(), i as usize)));
                }
            }
        }
        found
    }
}

/// The entry at the position is a root to what `any` names.
spec fn entry_is_root<V: AnyValue>(entries: &Vec<PoolEntry<V>>, position: usize, any: AnyRef) -> bool where
    PooledString: Collectable<V>,
 {
    entries@[position as int] is Rooted && entries@[position as int].any() == any
}

/// `found` is a rooted entry for what `any` names; there is none if nothing was
/// found.
pub open spec fn found_root<V: AnyValue>(
    pool: StringPool<V>,
    any: AnyRef,
    found: Option<usize>,
) -> bool where PooledString: Collectable<V> {
    match found {
        Some(position) => {
            &&& position < pool.entries@.len()
            &&& pool.entries@[position as int] is Rooted
            &&& pool.entries@[position as int].any() == any
        },
        None => pool_roots(pool.entries@, any) == 0,
    }
}

/// Every value of the one state is in the other, where it has at least as many
/// roots.
pub open spec fn keeps_roots<V>(before: GlobalView<V>, after: GlobalView<V>) -> bool {
    forall|addr: Addr| #[trigger]
        before.cells.dom().contains(addr) ==> {
            &&& after.cells.dom().contains(addr)
            &&& after.cells[addr].generation == before.cells[addr].generation
            &&& after.cells[addr].value == before.cells[addr].value
            &&& after.cells[addr].roots >= before.cells[addr].roots
        }
}

/// The pool's roots stay roots.
proof fn lemma_still_valid<V: AnyValue>(
    pool: StringPool<V>,
    before: GlobalView<V>,
    after: GlobalView<V>,
) where PooledString: Collectable<V>
    requires
        pool.wf(before),
        keeps_roots(before, after),
        before.generations.dom().subset_of(after.generations.dom()),
        pool.allocator.valid(after),
    ensures
        pool.wf(after),
{
    assert forall|any: AnyRef| pool_roots(pool.entries@, any) > 0 implies #[trigger] pool_roots(
        pool.entries@,
        any,
    ) <= roots_of(after, any) by {
        lemma_rooted_named(pool, before, any);
    }
    assert forall|i: int| 0 <= i < pool.entries@.len() implies (#[trigger] pool.entries@[i]).valid(after)
        && pool.strings@.contains((pool.entries@[i].hash_of(), i as usize)) by {
        assert(pool.entries@[i].valid(before));
    }
}

/// What the pool has a root to exists.
proof fn lemma_rooted_named<V: AnyValue>(pool: StringPool<V>, state: GlobalView<V>, any: AnyRef) where
    PooledString: Collectable<V>,

    requires
        pool.wf(state),
        pool_roots(pool.entries@, any) > 0,
    ensures
        names_a::<PooledString, V>(state, any),
{
    lemma_pool_roots_some(pool.entries@, any);
    let i = choose|i: int|
        0 <= i < pool.entries@.len() && (#[trigger] pool.entries@[i]) is Rooted
            && pool.entries@[i].any() == any;
    assert(pool.entries@[i].valid(state));
}

/// An entry can be replaced by one with the same hash.
proof fn lemma_entry_replaced<V: AnyValue>(
    before: StringPool<V>,
    after: StringPool<V>,
    state: GlobalView<V>,
    position: int,
) where PooledString: Collectable<V>
    requires
        before.wf(state),
        0 <= position < before.entries@.len(),
        after.allocator == before.allocator,
        after.strings == before.strings,
        after.entries@ == before.entries@.update(position, after.entries@[position]),
        after.entries@[position].valid(state),
        after.entries@[position].hash_of() == before.entries@[position].hash_of(),
        after.entries@[position].any() == before.entries@[position].any(),
        after.entries@[position] is Rooted ==> pool_roots(
            before.entries@,
            after.entries@[position].any(),
        ) < roots_of(state, after.entries@[position].any()),
    ensures
        after.wf(state),
{
    assert forall|any: AnyRef| pool_roots(after.entries@, any) > 0 implies #[trigger] pool_roots(
        after.entries@,
        any,
    ) <= roots_of(state, any) by {
        lemma_pool_roots_update(before.entries@, position, after.entries@[position], any);
        assert(pool_roots(before.entries@, any) > 0 ==> pool_roots(before.entries@, any)
            <= roots_of(state, any));
    }
    assert forall|i: int| 0 <= i < after.entries@.len() implies (#[trigger] after.entries@[i]).valid(
        state,
    ) && after.strings@.contains((after.entries@[i].hash_of(), i as usize)) by {
        assert(before.entries@[i].valid(state));
    }
}

/// An entry can be added together with its position.
proof fn lemma_entry_added<V: AnyValue>(
    before: StringPool<V>,
    after: StringPool<V>,
    state: GlobalView<V>,
) where PooledString: Collectable<V>
    requires
        before.wf(state),
        after.allocator == before.allocator,
        after.entries@.len() == before.entries@.len() + 1,
        after.entries@.drop_last() == before.entries@,
        after.entries@.last().valid(state),
        after.entries@.last().any().creating_thread == before.allocator.thread_id,
        state.generations.dom().contains(after.entries@.last().any().addr()),
        pool_roots(before.entries@, after.entries@.last().any()) < roots_of(
            state,
            after.entries@.last().any(),
        ),
        after.strings@ == before.strings@.insert(
            (after.entries@.last().hash_of(), before.entries@.len() as usize),
        ),
    ensures
        after.wf(state),
{
    let item = (after.entries@.last().hash_of(), before.entries@.len() as usize);
    assert forall|any: AnyRef| pool_roots(after.entries@, any) > 0 implies #[trigger] pool_roots(
        after.entries@,
        any,
    ) <= roots_of(state, any) by {
        assert(pool_roots(before.entries@, any) > 0 ==> pool_roots(before.entries@, any)
            <= roots_of(state, any));
    }
    assert(before.entries@.len() <= before.entries.len());
    assert forall|i: int| 0 <= i < after.entries@.len() implies (#[trigger] after.entries@[i]).valid(
        state,
    ) && after.strings@.contains((after.entries@[i].hash_of(), i as usize)) by {
        if i < before.entries@.len() {
            assert(after.entries@[i] == before.entries@[i]);
            assert(before.strings@.contains((before.entries@[i].hash_of(), i as usize)));
        }
    }
    assert forall|i: int| 0 <= i < after.entries@.len() implies (
    #[trigger] after.entries@[i]).any().creating_thread == after.allocator.thread_id
        && state.generations.dom().contains(after.entries@[i].any().addr()) by {
        if i < before.entries@.len() {
            assert(after.entries@[i] == before.entries@[i]);
        }
    }
    assert forall|other: (u64, usize)| #[trigger] after.strings@.contains(other) implies other.1
        < after.entries@.len() && other.0 == after.entries@[other.1 as int].hash_of() by {
        if other != item {
            assert(before.strings@.contains(other));
            assert(after.entries@[other.1 as int] == before.entries@[other.1 as int]);
        }
    }
}

/// The pool and the global state after a root to an interned string was given
/// up, given whether the pool was found to have a root to it.
///
/// If only the pool's root would be left, that one is given up as well.
pub open spec fn string_released<V: AnyValue>(
    before: StringPool<V>,
    global_before: GlobalCollector<V>,
    after: StringPool<V>,
    global_after: GlobalCollector<V>,
    any: AnyRef,
    found: Option<usize>,
) -> bool where PooledString: Collectable<V> {
    let roots = roots_of(global_before@, any);
    &&& after.allocator == before.allocator
    &&& if roots == 2 && found is Some {
        let position = found.unwrap() as int;
        &&& after.entries@ == before.entries@.update(
            position,
            PoolEntry::Weak(
                RefString { reference: before.entries@[position]->Rooted_0.root.reference },
                before.entries@[position].hash_of(),
            ),
        )
        &&& global_after@ == signalled(with_roots(global_before@, any, 0))
        &&& global_after.commands@ == (if global_before@.info.signalled_collector {
            global_before.commands@
        } else {
            global_before.commands@.push(CollectorCommand::ScheduleCollect)
        })
        &&& global_after.info.all_threads.same_slabs(global_before.info.all_threads)
    } else {
        &&& after.entries@ == before.entries@
        &&& after_release(global_before, global_after, any)
    }
}

impl<V: AnyValue> RootString<V> where PooledString: Collectable<V> {
    /// This is one of the roots to its string, besides those of the pool.
    pub open spec fn valid(self, pool: StringPool<V>, state: GlobalView<V>) -> bool {
        &&& self.root.valid(state)
        &&& roots_of(state, self.root.reference.any) > pool_roots(
            pool.entries@,
            self.root.reference.any,
        )
    }

    /// The text of the string.
    pub open spec fn text(self) -> Seq<char> {
        pooled::<V>(*self.root.data).string@
    }

    /// The hash of the string.
    pub open spec fn hash_of(self) -> u64 {
        pooled::<V>(*self.root.data).hash
    }

    /// The pool's roots to this string are known under its hash.
    proof fn lemma_pool_hash(self, pool: StringPool<V>, state: GlobalView<V>)
        requires
            pool.wf(state),
            self.root.valid(state),
        ensures
            forall|i: int|
                0 <= i < pool.entries@.len() && (#[trigger] pool.entries@[i]) is Rooted
                    && pool.entries@[i].any() == self.root.reference.any
                    ==> pool.entries@[i].hash_of() == self.hash_of(),
    {
        assert forall|i: int|
            0 <= i < pool.entries@.len() && (#[trigger] pool.entries@[i]) is Rooted
                && pool.entries@[i].any() == self.root.reference.any implies pool.entries@[i].hash_of()
            == self.hash_of() by {
            assert(pool.entries@[i].valid(state));
        }
    }

    /// Returns a root reference to a garbage collected string that contains
    /// `s`.
    ///
    /// If another [`RootString`] or [`RefString`] exists already with the same
    /// contents as `s`, it will be returned and `s` will be dropped.
    pub fn new<'a>(
        s: String,
        guard: &CollectionGuard<'a>,
        pool: &mut StringPool<V>,
        thread: &mut ThreadPool,
        global: &mut GlobalCollector<V>,
    ) -> (string: Self)
        requires
            can_intern(*old(pool), *guard, *old(thread), *old(global)),
            has_space(*old(pool), *old(global)),
            can_root(*old(pool), old(global)@),
        ensures
            final(global).wf(),
            guard.valid(final(global)@),
            final(pool).wf(final(global)@),
            *final(thread) == *old(thread),
            string.valid(*final(pool), final(global)@),
            string.text() == s@,
            exists|hash: u64, found: Option<usize>, position: usize|
                {
                    &&& #[trigger] found_text(*old(pool), old(global)@, s@, hash, found)
                    &&& #[trigger] interned(
                        *old(pool),
                        *old(global),
                        *final(pool),
                        *final(global),
                        s@,
                        hash,
                        found,
                        position,
                        1,
                    )
                    &&& final(pool).entries@[position as int].any() == string.root.reference.any
                },
            forall|i: int|
                0 <= i < old(pool).entries@.len() && (#[trigger] old(pool).entries@[i]).holds(
                    old(global)@,
                    s@,
                    old(pool).entries@[i].hash_of(),
                ) ==> {
                    &&& final(pool).entries@.len() == old(pool).entries@.len()
                    &&& has_entry(*old(pool), string.root.reference.any)
                    &&& is_text(old(global)@, string.root.reference.any, s@)
                },
            !in_use(*old(pool), old(global)@, s@) ==> final(pool).entries@.len() == old(
                pool,
            ).entries@.len() + 1,
    {
        let drawn: u64 = hash_str(&s);
        let hash: u64 = pool.known_hash(&s, drawn, guard, global);
        Self::with_hash(s, hash, guard, pool, thread, global)
    }

    /// Returns a root reference to a garbage collected string that contains `s`,
    /// whose hash is `hash`.
    pub fn with_hash<'a>(
        s: String,
        hash: u64,
        guard: &CollectionGuard<'a>,
        pool: &mut StringPool<V>,
        thread: &mut ThreadPool,
        global: &mut GlobalCollector<V>,
    ) -> (string: Self)
        requires
            can_intern(*old(pool), *guard, *old(thread), *old(global)),
            knows(*old(pool), old(global)@, s@, hash) || has_space(*old(pool), *old(global)),
            can_root(*old(pool), old(global)@),
        ensures
            final(global).wf(),
            guard.valid(final(global)@),
            final(pool).wf(final(global)@),
            *final(thread) == *old(thread),
            string.valid(*final(pool), final(global)@),
            string.text() == s@,
            string.hash_of() == hash,
            exists|found: Option<usize>, position: usize|
                {
                    &&& #[trigger] found_text(*old(pool), old(global)@, s@, hash, found)
                    &&& #[trigger] interned(
                        *old(pool),
                        *old(global),
                        *final(pool),
                        *final(global),
                        s@,
                        hash,
                        found,
                        position,
                        1,
                    )
                    &&& final(pool).entries@[position as int].any() == string.root.reference.any
                },
    {
        let ghost text = s@;
        let found: Option<usize> = pool.find(&s, hash, guard, global);
        let position: usize = pool.intern_found(found, s, hash, guard, thread, global);
        let ghost middle = *global;
        let ghost entry = pool.entries@[position as int];
        proof {
            assert(entry.valid(middle@));
        }
        let string = pool.entries[position].rooted().unwrap().clone(global);
        proof {
            lemma_interned_shared(
                *old(pool),
                *old(global),
                *pool,
                middle,
                *global,
                text,
                hash,
                found,
                position,
            );
        }
        string
    }

    /// Returns another root to this string.
    pub fn clone(&self, global: &mut GlobalCollector<V>) -> (string: Self)
        requires
            old(global).wf(),
            self.root.valid(old(global)@),
        ensures
            final(global).wf(),
            string == *self,
            roots_changed(
                *old(global),
                *final(global),
                self.root.reference.any,
                one_more(roots_of(old(global)@, self.root.reference.any)),
            ),
    {
        RootString { root: self.root.clone(global) }
    }

    /// Returns a reference to this root string.
    pub fn downgrade(&self) -> (reference: RefString)
        ensures
            reference.reference == self.root.reference,
    {
        RefString { reference: self.root.downgrade() }
    }

    /// Returns a typeless reference to this string.
    pub fn downgrade_any(&self) -> (any: AnyRef)
        ensures
            any == self.root.reference.any,
    {
        self.root.downgrade_any()
    }

    /// Returns the text.
    pub fn as_str(&self) -> (text: &str)
        requires
            self.root.wf(),
        ensures
            text@ == self.text(),
    {
        let p: &PooledString = self.root.deref();
        proof {
            lemma_pooled::<V>(*p);
        }
        p.string.as_str()
    }

    /// Returns the hash of the string.
    pub fn hash(&self) -> (hash: u64)
        requires
            self.root.wf(),
        ensures
            hash == self.hash_of(),
    {
        let p: &PooledString = self.root.deref();
        proof {
            lemma_pooled::<V>(*p);
        }
        p.hash
    }

    /// Returns the number of root references to this string, `self` included.
    ///
    /// The root that the pool itself may have is not counted.
    pub fn root_count(&self, pool: &StringPool<V>, global: &GlobalCollector<V>) -> (count: u64)
        requires
            global.wf(),
            pool.wf(global@),
            self.valid(*pool, global@),
        ensures
            count == roots_of(global@, self.root.reference.any) - (if pool_roots(
                pool.entries@,
                self.root.reference.any,
            ) > 0 {
                1int
            } else {
                0int
            }),
            count > 0,
    {
        let all: u64 = self.root.root_count(global);
        proof {
            self.lemma_pool_hash(*pool, global@);
        }
        let found: Option<usize> = pool.find_root(self.root.reference.any, self.hash());
        proof {
            lemma_pool_roots_some(pool.entries@, self.root.reference.any);
            if let Some(position) = found {
                assert(pool.entries@[position as int] is Rooted);
            }
        }
        if found.is_some() {
            all - 1
        } else {
            all
        }
    }

    /// Try to convert a typeless root reference to a root string reference.
    ///
    /// Returns `Err(root)` if `root` does not contain a pooled string.
    pub fn try_from_any<'a>(
        root: AnyRoot<V>,
        guard: &CollectionGuard<'a>,
        global: &mut GlobalCollector<V>,
    ) -> (result: Result<Self, AnyRoot<V>>)
        requires
            old(global).wf(),
            guard.valid(old(global)@),
            root.valid(old(global)@),
            can_number(old(global)@, PooledString::key()),
        ensures
            final(global).wf(),
            final(global)@ == numbered(old(global)@, PooledString::key()),
            final(global).commands@ == old(global).commands@,
            result is Ok <==> root.value.type_key() == PooledString::key(),
            match result {
                Ok(string) => {
                    &&& string.root.valid(final(global)@)
                    &&& string.root.data == root.value
                    &&& string.root.reference.any == root.any
                },
                Err(returned) => returned == root,
            },
    {
        match Root::try_from_any(root, guard, global) {
            Ok(root) => Ok(RootString { root }),
            Err(root) => Err(root),
        }
    }

    /// Gives up this root.
    ///
    /// If the only other root is the one stored in the pool, the pool gives up
    /// its root as well, and the string can be collected.
    pub fn release(self, pool: &mut StringPool<V>, global: &mut GlobalCollector<V>)
        requires
            old(global).wf(),
            old(pool).wf(old(global)@),
            self.valid(*old(pool), old(global)@),
        ensures
            final(global).wf(),
            final(pool).wf(final(global)@),
            exists|found: Option<usize>|
                {
                    &&& #[trigger] found_root(*old(pool), self.root.reference.any, found)
                    &&& string_released(
                        *old(pool),
                        *old(global),
                        *final(pool),
                        *final(global),
                        self.root.reference.any,
                        found,
                    )
                },
    {
        let ghost before = *pool;
        let ghost state = global@;
        let any: AnyRef = self.root.reference.any;
        proof {
            self.lemma_pool_hash(*pool, global@);
        }
        let found: Option<usize> = pool.find_root(any, self.hash());
        proof {
            lemma_pool_roots_some(before.entries@, any);
        }
        if self.root.root_count(global) == 2 {
            if let Some(position) = found {
                let hash: u64 = pool.entries[position].hash();
                let reference = pool.entries[position].rooted().unwrap().downgrade();
                let mut entry = PoolEntry::Weak(reference, hash);
                std::mem::swap(&mut entry, &mut pool.entries[position]);
                proof {
                    assert(before.entries@[position as int].valid(state));
                    assert(before.entries@[position as int] is Rooted);
                    lemma_pool_roots_update(
                        before.entries@,
                        position as int,
                        pool.entries@[position as int],
                        any,
                    );
                }
                if let PoolEntry::Rooted(removed, _) = entry {
                    removed.root.release(global);
                }
                self.root.release(global);
                proof {
                    assert(global@.cells =~= with_roots(state, any, 0).cells);
                    lemma_root_given_up(before, *pool, state, global@, any, position as int);
                }
                return ;
            }
        }
        self.root.release(global);
        proof {
            lemma_fewer_roots(before, state, global@, any);
        }
    }
}

/// Handing out another root to an interned string.
proof fn lemma_interned_shared<V: AnyValue>(
    before: StringPool<V>,
    global_before: GlobalCollector<V>,
    after: StringPool<V>,
    middle: GlobalCollector<V>,
    global_after: GlobalCollector<V>,
    text: Seq<char>,
    hash: u64,
    found: Option<usize>,
    position: usize,
) where PooledString: Collectable<V>
    requires
        can_root(before, global_before@),
        found_text(before, global_before@, text, hash, found),
        interned(before, global_before, after, middle, text, hash, found, position, 0),
        after.wf(middle@),
        ({
            let any = after.entries@[position as int].any();
            roots_changed(middle, global_after, any, one_more(roots_of(middle@, any)))
        }),
    ensures
        interned(before, global_before, after, global_after, text, hash, found, position, 1),
        after.wf(global_after@),
        roots_of(global_after@, after.entries@[position as int].any()) > pool_roots(
            after.entries@,
            after.entries@[position as int].any(),
        ),
{
    let any = after.entries@[position as int].any();
    assert(roots_of(middle@, any) < u64::MAX) by {
        if let Some(index) = found {
            assert(roots_of(global_before@, before.entries@[index as int].any()) < u64::MAX - 1);
        }
    }
    lemma_pool_roots_some(after.entries@, any);
    lemma_still_valid(after, middle@, global_after@);
    match found {
        Some(index) => {
            let entry_before = before.entries@[index as int];
            assert(roots_of(global_before@, entry_before.any()) < u64::MAX - 1);
            let added = if entry_before is Rooted {
                1int
            } else {
                2int
            };
            assert(global_after@.cells =~= with_roots(
                global_before@,
                any,
                (roots_of(global_before@, any) + added) as u64,
            ).cells);
        },
        None => {
            let value = global_after@.cells[any.addr()].value;
            let cell = Cell { generation: any.slot_generation, mark: 0, roots: 2, value };
            assert(global_after@.cells =~= global_before@.cells.insert(any.addr(), cell));
        },
    }
}

/// The pool's roots stay roots when another root is given up.
proof fn lemma_fewer_roots<V: AnyValue>(
    pool: StringPool<V>,
    before: GlobalView<V>,
    after: GlobalView<V>,
    any: AnyRef,
) where PooledString: Collectable<V>
    requires
        pool.wf(before),
        names_a::<PooledString, V>(before, any),
        pool_roots(pool.entries@, any) < roots_of(before, any),
        after.cells == with_roots(before, any, (roots_of(before, any) - 1) as u64).cells,
        after.generations == before.generations,
        after.info.handles == before.info.handles,
    ensures
        pool.wf(after),
{
    assert forall|i: int| 0 <= i < pool.entries@.len() implies (#[trigger] pool.entries@[i]).valid(after)
        && pool.strings@.contains((pool.entries@[i].hash_of(), i as usize)) by {
        assert(pool.entries@[i].valid(before));
        lemma_pool_roots_some(pool.entries@, pool.entries@[i].any());
        if pool.entries@[i] is Rooted && pool.entries@[i].any().addr() == any.addr() {
            assert(pool.entries@[i].any() == any);
        }
    }
    assert forall|other: AnyRef| pool_roots(pool.entries@, other) > 0 implies #[trigger] pool_roots(
        pool.entries@,
        other,
    ) <= roots_of(after, other) by {
        lemma_rooted_named(pool, before, other);
        if other.addr() == any.addr() {
            assert(other == any);
        }
    }
}

/// The pool's other roots stay roots when it gives up one together with the last
/// other root to the same string.
proof fn lemma_root_given_up<V: AnyValue>(
    pool: StringPool<V>,
    after_pool: StringPool<V>,
    before: GlobalView<V>,
    after: GlobalView<V>,
    any: AnyRef,
    position: int,
) where PooledString: Collectable<V>
    requires
        pool.wf(before),
        0 <= position < pool.entries@.len(),
        pool.entries@[position] is Rooted,
        pool.entries@[position].any() == any,
        roots_of(before, any) == 2,
        pool_roots(pool.entries@, any) < 2,
        after.cells == with_roots(before, any, 0).cells,
        after.generations == before.generations,
        after.info.handles == before.info.handles,
        after_pool.allocator == pool.allocator,
        after_pool.strings == pool.strings,
        after_pool.entries@ == pool.entries@.update(position, after_pool.entries@[position]),
        after_pool.entries@[position] is Weak,
        after_pool.entries@[position].hash_of() == pool.entries@[position].hash_of(),
        after_pool.entries@[position].any() == any,
    ensures
        after_pool.wf(after),
{
    let entries = after_pool.entries@;
    assert(pool.entries@[position].valid(before));
    assert forall|other: AnyRef| true implies #[trigger] pool_roots(entries, other) == pool_roots(
        pool.entries@,
        other,
    ) - (if other == any {
        1int
    } else {
        0int
    }) by {
        lemma_pool_roots_update(pool.entries@, position, entries[position], other);
    }
    lemma_pool_roots_some(entries, any);
    assert(pool_roots(entries, any) == 0);
    assert forall|i: int| 0 <= i < entries.len() implies (#[trigger] entries[i]).valid(after)
        && after_pool.strings@.contains((entries[i].hash_of(), i as usize)) by {
        assert(pool.entries@[i].valid(before));
        if entries[i] is Rooted && entries[i].any().addr() == any.addr() {
            assert(entries[i].any() == any);
        }
    }
    assert forall|other: AnyRef| pool_roots(entries, other) > 0 implies #[trigger] pool_roots(
        entries,
        other,
    ) <= roots_of(after, other) by {
        lemma_rooted_named(pool, before, other);
        if other.addr() == any.addr() {
            assert(other == any);
        }
    }
}

impl RefString {
    /// Returns a reference to a garbage collected string that contains `s`.
    ///
    /// If another [`RootString`] or [`RefString`] exists already with the same
    /// contents as `s`, it will be returned and `s` will be dropped.
    pub fn new<'a, V: AnyValue>(
        s: String,
        guard: &CollectionGuard<'a>,
        pool: &mut StringPool<V>,
        thread: &mut ThreadPool,
        global: &mut GlobalCollector<V>,
    ) -> (string: Self) where PooledString: Collectable<V>
        requires
            can_intern(*old(pool), *guard, *old(thread), *old(global)),
            has_space(*old(pool), *old(global)),
            can_root(*old(pool), old(global)@),
        ensures
            final(global).wf(),
            guard.valid(final(global)@),
            final(pool).wf(final(global)@),
            *final(thread) == *old(thread),
            is_text(final(global)@, string.reference.any, s@),
            exists|hash: u64, found: Option<usize>, position: usize|
                {
                    &&& #[trigger] found_text(*old(pool), old(global)@, s@, hash, found)
                    &&& #[trigger] interned(
                        *old(pool),
                        *old(global),
                        *final(pool),
                        *final(global),
                        s@,
                        hash,
                        found,
                        position,
                        0,
                    )
                    &&& final(pool).entries@[position as int].any() == string.reference.any
                },
            forall|i: int|
                0 <= i < old(pool).entries@.len() && (#[trigger] old(pool).entries@[i]).holds(
                    old(global)@,
                    s@,
                    old(pool).entries@[i].hash_of(),
                ) ==> {
                    &&& final(pool).entries@.len() == old(pool).entries@.len()
                    &&& has_entry(*old(pool), string.reference.any)
                    &&& is_text(old(global)@, string.reference.any, s@)
                },
            !in_use(*old(pool), old(global)@, s@) ==> final(pool).entries@.len() == old(
                pool,
            ).entries@.len() + 1,
    {
        let drawn: u64 = hash_str(&s);
        let hash: u64 = pool.known_hash(&s, drawn, guard, global);
        Self::with_hash(s, hash, guard, pool, thread, global)
    }

    /// Returns a reference to a garbage collected string that contains `s`,
    /// whose hash is `hash`.
    pub fn with_hash<'a, V: AnyValue>(
        s: String,
        hash: u64,
        guard: &CollectionGuard<'a>,
        pool: &mut StringPool<V>,
        thread: &mut ThreadPool,
        global: &mut GlobalCollector<V>,
    ) -> (string: Self) where PooledString: Collectable<V>
        requires
            can_intern(*old(pool), *guard, *old(thread), *old(global)),
            knows(*old(pool), old(global)@, s@, hash) || has_space(*old(pool), *old(global)),
            can_root(*old(pool), old(global)@),
        ensures
            final(global).wf(),
            guard.valid(final(global)@),
            final(pool).wf(final(global)@),
            *final(thread) == *old(thread),
            is_text(final(global)@, string.reference.any, s@),
            exists|found: Option<usize>, position: usize|
                {
                    &&& #[trigger] found_text(*old(pool), old(global)@, s@, hash, found)
                    &&& #[trigger] interned(
                        *old(pool),
                        *old(global),
                        *final(pool),
                        *final(global),
                        s@,
                        hash,
                        found,
                        position,
                        0,
                    )
                    &&& final(pool).entries@[position as int].any() == string.reference.any
                },
    {
        let position: usize = pool.intern(s, hash, guard, thread, global);
        pool.entries[position].rooted().unwrap().downgrade()
    }

    /// Upgrades a typeless reference to a pooled string reference.
    ///
    /// Returns `None` if `any` is not a pooled string.
    pub fn from_any<V: AnyValue>(any: AnyRef, global: &mut GlobalCollector<V>) -> (string: Option<Self>) where
        PooledString: Collectable<V>,

        requires
            old(global).wf(),
            can_number(old(global)@, PooledString::key()),
        ensures
            final(global).wf(),
            final(global)@ == numbered(old(global)@, PooledString::key()),
            final(global).commands@ == old(global).commands@,
            string is Some <==> any.type_index == number_of(old(global)@, PooledString::key()),
            string is Some ==> string.unwrap().reference.any == any,
    {
        match any.downcast_checked::<PooledString, V>(global) {
            Some(reference) => Some(RefString { reference }),
            None => None,
        }
    }

    /// Loads a reference to the underlying string, if the string hasn't been
    /// freed.
    pub fn load<'a, 'b, V: AnyValue>(
        &self,
        guard: &'b CollectionGuard<'a>,
        global: &'b GlobalCollector<V>,
    ) -> (text: Option<&'b str>) where PooledString: Collectable<V>
        requires
            global.wf(),
            guard.valid(global@),
        ensures
            text is Some <==> names_a::<PooledString, V>(global@, self.reference.any),
            text is Some ==> is_text(global@, self.reference.any, text.unwrap()@),
    {
        match self.reference.load(guard, global) {
            Some(p) => {
                proof {
                    lemma_pooled::<V>(*p);
                }
                Some(p.string.as_str())
            },
            None => None,
        }
    }

    /// Loads this string as a root, if the string hasn't been freed.
    pub fn as_root<'a, V: AnyValue>(&self, guard: &CollectionGuard<'a>, global: &mut GlobalCollector<V>) -> (root:
        Option<RootString<V>>) where PooledString: Collectable<V>
        requires
            old(global).wf(),
            guard.valid(old(global)@),
        ensures
            final(global).wf(),
            root is Some <==> names_a::<PooledString, V>(old(global)@, self.reference.any),
            match root {
                Some(string) => {
                    &&& string.root.reference == self.reference
                    &&& *string.root.data == old(global)@.cells[self.reference.any.addr()].value
                    &&& roots_changed(
                        *old(global),
                        *final(global),
                        self.reference.any,
                        one_more(roots_of(old(global)@, self.reference.any)),
                    )
                },
                None => {
                    &&& final(global)@ == old(global)@
                    &&& final(global).commands@ == old(global).commands@
                },
            },
    {
        match self.reference.as_root(guard, global) {
            Some(root) => Some(RootString { root }),
            None => None,
        }
    }

    /// Returns a typeless reference to this string.
    pub fn as_any(&self) -> (any: AnyRef)
        ensures
            any == self.reference.any,
    {
        self.reference.as_any()
    }
}

impl Trace for RefString {
    const MAY_CONTAIN_REFERENCES: bool = true;

    open spec fn references(&self) -> Set<AnyRef> {
        set![self.reference.any]
    }

    proof fn lemma_references(&self) {
    }

    fn trace(&self, tracer: &mut Tracer) {
        self.reference.trace(tracer);
    }
}

impl<V: Send + Sync + 'static> Trace for RootString<V> {
    const MAY_CONTAIN_REFERENCES: bool = false;

    open spec fn references(&self) -> Set<AnyRef> {
        Set::empty()
    }

    proof fn lemma_references(&self) {
    }

    fn trace(&self, tracer: &mut Tracer) {
        self.root.trace(tracer);
    }
}

/// A reference to a string may contain a reference, itself; a root to a string and
/// the string need not be traced.
pub proof fn law_string_references_may_contain_references<V: Send + Sync + 'static>()
    ensures
        <RefString as Trace>::MAY_CONTAIN_REFERENCES,
        !<RootString<V> as Trace>::MAY_CONTAIN_REFERENCES,
        !<PooledString as Trace>::MAY_CONTAIN_REFERENCES,
{
}

} // verus!
