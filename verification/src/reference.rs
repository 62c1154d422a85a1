//! References to collected values.

use std::marker::PhantomData;
use std::sync::Arc;
use vstd::prelude::*;

use crate::any_ref::{AnyRef, CollectorThreadId, TypeIndex};
use crate::command::CollectorCommand;
use crate::global::{GlobalCollector, GlobalView};
use crate::guard::CollectionGuard;
use crate::heap::{names, next_generation, with_adopted, with_generation};
use crate::info::InfoView;
use crate::slab::{Cell, Rooted};
use crate::trace::{
    lemma_extends_nothing, lemma_extends_one, AnyValue, Collectable, MapTarget, Trace, Tracer,
};
use crate::type_index::{type_index_of, type_room, with_type};

verus! {

/// The type with the key has a number, or can get one.
pub open spec fn can_number<V>(state: GlobalView<V>, key: u64) -> bool {
    state.info.types.dom().contains(key) || type_room(state.info.types)
}

/// The number that the type with the key has, or would get.
pub open spec fn number_of<V>(state: GlobalView<V>, key: u64) -> TypeIndex {
    type_index_of(with_type(state.info.types, key), key)
}

/// The state once the type with the key has a number.
pub open spec fn numbered<V>(state: GlobalView<V>, key: u64) -> GlobalView<V> {
    GlobalView {
        info: InfoView { types: with_type(state.info.types, key), ..state.info },
        ..state
    }
}

/// The pool has a slot for another value of the type with the key.
pub open spec fn can_store<V>(
    global: GlobalCollector<V>,
    thread: CollectorThreadId,
    key: u64,
) -> bool {
    &&& can_number(global@, key)
    &&& !global.info.all_threads.bins(thread).full(number_of(global@, key).index)
}

/// The state after `cell` was stored where `any` names it.
pub open spec fn stored<V>(
    global: GlobalCollector<V>,
    key: u64,
    any: AnyRef,
    cell: Cell<V>,
) -> GlobalView<V> {
    let fills = global.info.all_threads.bins(any.creating_thread).fills_slab(
        any.type_index.index,
        any.bin_id.raw,
    );
    GlobalView {
        info: InfoView {
            types: with_type(global@.info.types, key),
            signalled_collector: global@.info.signalled_collector || fills,
            ..global@.info
        },
        cells: global@.cells.insert(any.addr(), cell),
        generations: with_generation(global@.generations, any.addr(), cell.generation),
        layouts: with_adopted(global@.layouts, any.addr()),
        ..global@
    }
}

/// The commands after a value was stored where `any` names it: filling a slab
/// asks for a collection.
pub open spec fn commands_after_store<V>(global: GlobalCollector<V>, any: AnyRef) -> Seq<
    CollectorCommand,
> {
    let fills = global.info.all_threads.bins(any.creating_thread).fills_slab(
        any.type_index.index,
        any.bin_id.raw,
    );
    if fills && !global@.info.signalled_collector {
        global.commands@.push(CollectorCommand::ScheduleCollect)
    } else {
        global.commands@
    }
}

/// The next value of the type with the key that is stored in the pool gets the
/// reference `any`.
pub open spec fn is_next_ref<V>(
    global: GlobalCollector<V>,
    thread: CollectorThreadId,
    key: u64,
    any: AnyRef,
) -> bool {
    &&& any.creating_thread == thread
    &&& any.type_index == number_of(global@, key)
    &&& global.info.all_threads.bins(thread).is_next(
        any.type_index.index,
        any.bin_id.raw,
        any.slot_generation,
    )
    &&& any.slot_generation == next_generation(global@.generations, any.addr())
    &&& !global@.cells.dom().contains(any.addr())
}

/// The number of slabs grows by at most one, and only for the type and pool of
/// `any`.
pub open spec fn slabs_after_store<V>(
    before: GlobalCollector<V>,
    after: GlobalCollector<V>,
    any: AnyRef,
) -> bool {
    let thread = any.creating_thread.id;
    let type_index = any.type_index.index;
    &&& after.info.all_threads.slab_count(thread, type_index)
        <= before.info.all_threads.slab_count(thread, type_index) + 1
    &&& forall|other: u32, other_type: u32|
        other != thread || other_type != type_index
            ==> #[trigger] after.info.all_threads.slab_count(other, other_type)
            == before.info.all_threads.slab_count(other, other_type)
}

impl<'a> CollectionGuard<'a> {
    /// Returns true if another value of type `T` can be stored in this guard's
    /// pool.
    pub fn has_room<T: Collectable<V>, V: AnyValue>(&self, global: &mut GlobalCollector<V>) -> (room:
        bool)
        requires
            old(global).wf(),
            self.valid(old(global)@),
            can_number(old(global)@, T::key()),
        ensures
            final(global).wf(),
            final(global)@ == numbered(old(global)@, T::key()),
            final(global).commands@ == old(global).commands@,
            final(global).info.all_threads == old(global).info.all_threads,
            room == can_store(*old(global), self.id(), T::key()),
            room == can_store(*final(global), self.id(), T::key()),
    {
        let index: TypeIndex = TypeIndex::of::<T, V>(&mut global.info.type_indexes);
        !global.info.all_threads.is_full(self.thread.pool().thread_id, index)
    }

    /// Stores `value` in this guard's pool and returns the reference to it.
    fn adopt<T: Collectable<V>, V: AnyValue>(&self, value: Rooted<V>, global: &mut GlobalCollector<V>) -> (any:
        AnyRef)
        requires
            old(global).wf(),
            self.valid(old(global)@),
            can_store(*old(global), self.id(), T::key()),
            value.value.type_key() == T::key(),
        ensures
            final(global).wf(),
            is_next_ref(*old(global), self.id(), T::key(), any),
            final(global)@ == stored(
                *old(global),
                T::key(),
                any,
                value.stored(any.slot_generation),
            ),
            final(global).commands@ == commands_after_store(*old(global), any),
            slabs_after_store(*old(global), *final(global), any),
    {
        let type_index: TypeIndex = TypeIndex::of::<T, V>(&mut global.info.type_indexes);
        let thread: CollectorThreadId = self.thread.pool().thread_id;
        let adopted = global.info.all_threads.adopt(value, type_index, thread);
        let any = AnyRef {
            bin_id: adopted.bin_id,
            creating_thread: thread,
            type_index,
            slot_generation: adopted.generation,
        };
        if adopted.slab_filled {
            global.schedule_collect_if_needed();
        }
        any
    }
}

/// `Arc::clone` of std: another pointer to the same value.
#[verifier::external_body]
fn share<V>(value: &Arc<V>) -> (shared: Arc<V>)
    ensures
        shared == *value,
{
    value.clone()
}

/// The state with another number of roots to the value that `any` names.
pub open spec fn with_roots<V>(state: GlobalView<V>, any: AnyRef, roots: u64) -> GlobalView<V> {
    GlobalView {
        cells: state.cells.insert(any.addr(), Cell { roots, ..state.cells[any.addr()] }),
        ..state
    }
}

/// The number of roots to the value that `any` names.
pub open spec fn roots_of<V>(state: GlobalView<V>, any: AnyRef) -> u64 {
    state.cells[any.addr()].roots
}

/// One more root, as the counter counts.
pub open spec fn one_more(roots: u64) -> u64 {
    if roots == u64::MAX {
        0
    } else {
        (roots + 1) as u64
    }
}

/// The reference names a value of type `T`.
pub open spec fn names_a<T: Collectable<V>, V: AnyValue>(state: GlobalView<V>, any: AnyRef) -> bool {
    &&& names(state.cells, any)
    &&& state.cells[any.addr()].value.type_key() == T::key()
}

/// `any` names the value that is at `value`, and it has a root.
pub open spec fn roots_value<V>(state: GlobalView<V>, any: AnyRef, value: Arc<V>) -> bool {
    &&& names(state.cells, any)
    &&& state.cells[any.addr()].roots > 0
    &&& state.cells[any.addr()].value == *value
}

/// The global state differs only in the number of roots to what `any` names.
pub open spec fn roots_changed<V>(
    before: GlobalCollector<V>,
    after: GlobalCollector<V>,
    any: AnyRef,
    roots: u64,
) -> bool {
    &&& after@ == with_roots(before@, any, roots)
    &&& after.commands@ == before.commands@
    &&& after.info.all_threads.same_slabs(before.info.all_threads)
    &&& forall|thread: CollectorThreadId, type_index: u32| #[trigger]
        after.info.all_threads.bins(thread).full(type_index) == before.info.all_threads.bins(
            thread,
        ).full(type_index)
}

/// Sets the number of roots to the value that `any` names.
fn set_roots<V: AnyValue>(global: &mut GlobalCollector<V>, any: AnyRef, roots: u64)
    requires
        old(global).wf(),
        names(old(global)@.cells, any),
    ensures
        final(global).wf(),
        roots_changed(*old(global), *final(global), any, roots),
{
    global.info.all_threads.set_roots(any, roots);
}

/// Adds a root to the value that `any` names.
fn add_root<V: AnyValue>(global: &mut GlobalCollector<V>, any: AnyRef)
    requires
        old(global).wf(),
        names(old(global)@.cells, any),
    ensures
        final(global).wf(),
        roots_changed(*old(global), *final(global), any, one_more(roots_of(old(global)@, any))),
{
    let roots: u64 = match global.info.all_threads.load(any) {
        Some(rooted) => rooted.roots,
        None => 0,
    };
    set_roots(global, any, roots.wrapping_add(1));
}

/// Removes a root from the value that `any` names. Without roots the value may
/// be garbage, so a collection is asked for.
fn remove_root<V: AnyValue>(global: &mut GlobalCollector<V>, any: AnyRef)
    requires
        old(global).wf(),
        names(old(global)@.cells, any),
        roots_of(old(global)@, any) > 0,
    ensures
        final(global).wf(),
        after_release(*old(global), *final(global), any),
{
    let roots: u64 = match global.info.all_threads.load(any) {
        Some(rooted) => rooted.roots,
        None => 1,
    };
    set_roots(global, any, roots - 1);
    if roots == 1 {
        global.schedule_collect_if_needed();
    }
}

/// A root to what `any` names was released. Releasing the last one asks for a
/// collection.
pub open spec fn after_release<V>(
    before: GlobalCollector<V>,
    after: GlobalCollector<V>,
    any: AnyRef,
) -> bool {
    let roots = roots_of(before@, any);
    let state = with_roots(before@, any, (roots - 1) as u64);
    &&& after@ == GlobalView {
        info: InfoView {
            signalled_collector: state.info.signalled_collector || roots == 1,
            ..state.info
        },
        ..state
    }
    &&& after.commands@ == (if roots == 1 && !before@.info.signalled_collector {
        before.commands@.push(CollectorCommand::ScheduleCollect)
    } else {
        before.commands@
    })
    &&& after.info.all_threads.same_slabs(before.info.all_threads)
}

/// A reference to data stored in a garbage collector.
///
/// Unlike a [`Root`], this type is not guaranteed to have access to its
/// underlying data. If no collectable value reachable via all active roots
/// marks this allocation, it will be collected.
///
/// Because of this, direct access to the data is not provided. To obtain a
/// reference, call [`Ref::load()`].
pub struct Ref<T> {
    pub any: AnyRef,
    pub _t: PhantomData<T>,
}

impl<T> Copy for Ref<T> {

}

impl<T> Clone for Ref<T> {
    fn clone(&self) -> (copy: Self)
        ensures
            copy == *self,
    {
        *self
    }
}

impl<T> Ref<T> {
    /// Stores `value` in the garbage collector, returning a "weak" reference to
    /// it.
    pub fn new<'a, V: AnyValue>(value: T, guard: &CollectionGuard<'a>, global: &mut GlobalCollector<V>) -> (reference:
        Self) where T: Collectable<V>
        requires
            old(global).wf(),
            guard.valid(old(global)@),
            can_store(*old(global), guard.id(), T::key()),
        ensures
            final(global).wf(),
            is_next_ref(*old(global), guard.id(), T::key(), reference.any),
            final(global)@ == stored(
                *old(global),
                T::key(),
                reference.any,
                (Cell {
                    generation: reference.any.slot_generation,
                    mark: 0,
                    roots: 0,
                    value: value.erased(),
                }),
            ),
            final(global).commands@ == commands_after_store(*old(global), reference.any),
            slabs_after_store(*old(global), *final(global), reference.any),
    {
        proof {
            value.lemma_erased();
        }
        let any: AnyRef = guard.adopt::<T, V>(Rooted::reference(value.erase()), global);
        Ref { any, _t: PhantomData }
    }

    /// Returns this reference as an untyped reference.
    pub fn as_any(self) -> (any: AnyRef)
        ensures
            any == self.any,
    {
        self.any
    }

    /// Loads a reference to the underlying data. Returns `None` if the data has
    /// been collected and is no longer available.
    pub fn load<'a, 'b, V: AnyValue>(
        &self,
        guard: &'b CollectionGuard<'a>,
        global: &'b GlobalCollector<V>,
    ) -> (value: Option<&'b T>) where T: Collectable<V>
        requires
            global.wf(),
            guard.valid(global@),
        ensures
            value is Some <==> names_a::<T, V>(global@, self.any),
            value is Some ==> value.unwrap().erased() == global@.cells[self.any.addr()].value,
    {
        match global.info.all_threads.load(self.any) {
            Some(rooted) => T::downcast(&rooted.value),
            None => None,
        }
    }

    /// Loads a root reference to the underlying data. Returns `None` if the
    /// data has been collected and is no longer available.
    pub fn as_root<'a, V: AnyValue>(&self, guard: &CollectionGuard<'a>, global: &mut GlobalCollector<V>) -> (root:
        Option<Root<T, V>>) where T: Collectable<V>
        requires
            old(global).wf(),
            guard.valid(old(global)@),
        ensures
            final(global).wf(),
            root is Some <==> names_a::<T, V>(old(global)@, self.any),
            match root {
                Some(root) => {
                    &&& root.reference == *self
                    &&& *root.data == old(global)@.cells[self.any.addr()].value
                    &&& roots_changed(
                        *old(global),
                        *final(global),
                        self.any,
                        one_more(roots_of(old(global)@, self.any)),
                    )
                },
                None => {
                    &&& final(global)@ == old(global)@
                    &&& final(global).commands@ == old(global).commands@
                },
            },
    {
        let data = match global.info.all_threads.load(self.any) {
            Some(rooted) => {
                if T::downcast(&rooted.value).is_none() {
                    return None;
                }
                share(&rooted.value)
            },
            None => return None,
        };
        add_root(global, self.any);
        Some(Root { data, reference: *self })
    }
}

/// A root reference to a `T` that has been allocated in the garbage collector.
///
/// This type behaves very similarly to [`Arc<T>`]. The value is read through
/// [`deref()`](Self::deref), and it is also cheap-to-clone, utilizing reference
/// counting to track the number of root references currently exist to the
/// underlying value.
///
/// While any root references exist for a given allocation, the garbage
/// collector will not collect the allocation.
pub struct Root<T, V> {
    pub data: Arc<V>,
    pub reference: Ref<T>,
}

impl<T: Collectable<V>, V: AnyValue> Root<T, V> {
    /// The value is a `T`.
    pub open spec fn wf(self) -> bool {
        self.data.type_key() == T::key()
    }

    /// This is one of the roots to its value.
    pub open spec fn valid(self, state: GlobalView<V>) -> bool {
        &&& self.wf()
        &&& roots_value(state, self.reference.any, self.data)
    }

    /// Stores `value` in the garbage collector, returning a root reference to
    /// the data.
    pub fn new<'a>(value: T, guard: &CollectionGuard<'a>, global: &mut GlobalCollector<V>) -> (root: Self)
        requires
            old(global).wf(),
            guard.valid(old(global)@),
            can_store(*old(global), guard.id(), T::key()),
        ensures
            final(global).wf(),
            root.valid(final(global)@),
            *root.data == value.erased(),
            is_next_ref(*old(global), guard.id(), T::key(), root.reference.any),
            final(global)@ == stored(
                *old(global),
                T::key(),
                root.reference.any,
                (Cell {
                    generation: root.reference.any.slot_generation,
                    mark: 0,
                    roots: 1,
                    value: value.erased(),
                }),
            ),
            final(global).commands@ == commands_after_store(*old(global), root.reference.any),
            slabs_after_store(*old(global), *final(global), root.reference.any),
    {
        proof {
            value.lemma_erased();
        }
        let rooted = Rooted::root(value.erase());
        let data = share(&rooted.value);
        let any: AnyRef = guard.adopt::<T, V>(rooted, global);
        Root { data, reference: Ref { any, _t: PhantomData } }
    }

    /// Try to convert a typeless root reference into a `Root<T>`.
    ///
    /// Returns `Err(root)` if `root` does not contain a `T`.
    pub fn try_from_any<'a>(
        root: AnyRoot<V>,
        guard: &CollectionGuard<'a>,
        global: &mut GlobalCollector<V>,
    ) -> (result: Result<Self, AnyRoot<V>>)
        requires
            old(global).wf(),
            guard.valid(old(global)@),
            root.valid(old(global)@),
            can_number(old(global)@, T::key()),
        ensures
            final(global).wf(),
            final(global)@ == numbered(old(global)@, T::key()),
            final(global).commands@ == old(global).commands@,
            final(global).info.all_threads == old(global).info.all_threads,
            result is Ok <==> root.value.type_key() == T::key(),
            match result {
                Ok(converted) => {
                    &&& converted.valid(final(global)@)
                    &&& converted.data == root.value
                    &&& converted.reference.any == root.any
                },
                Err(returned) => returned == root,
            },
    {
        let index: TypeIndex = TypeIndex::of::<T, V>(&mut global.info.type_indexes);
        if index == root.any.type_index {
            Ok(Root { data: root.value, reference: root.any.downcast_ref() })
        } else {
            Err(root)
        }
    }

    /// Returns the current number of root references to this value, including
    /// `self`.
    pub fn root_count(&self, global: &GlobalCollector<V>) -> (count: u64)
        requires
            global.wf(),
            self.valid(global@),
        ensures
            count == roots_of(global@, self.reference.any),
            count > 0,
    {
        match global.info.all_threads.load(self.reference.any) {
            Some(rooted) => rooted.roots,
            None => 0,
        }
    }

    /// Returns a "weak" reference to this root.
    pub fn downgrade(&self) -> (reference: Ref<T>)
        ensures
            reference == self.reference,
    {
        self.reference
    }

    /// Returns an untyped "weak" reference erased to this root.
    pub fn downgrade_any(&self) -> (any: AnyRef)
        ensures
            any == self.reference.any,
    {
        self.reference.as_any()
    }

    /// Returns an untyped root reference.
    pub fn to_any_root(&self, global: &mut GlobalCollector<V>) -> (root: AnyRoot<V>)
        requires
            old(global).wf(),
            self.valid(old(global)@),
        ensures
            final(global).wf(),
            root.any == self.reference.any,
            root.value == self.data,
            roots_changed(
                *old(global),
                *final(global),
                root.any,
                one_more(roots_of(old(global)@, root.any)),
            ),
    {
        add_root(global, self.reference.any);
        AnyRoot { value: share(&self.data), any: self.reference.as_any() }
    }

    /// Returns this root as an untyped root.
    pub fn into_any_root(self) -> (root: AnyRoot<V>)
        ensures
            root.any == self.reference.any,
            root.value == self.data,
            forall|state: GlobalView<V>|
                self.valid(state) ==> #[trigger] root.valid(state),
    {
        AnyRoot { value: self.data, any: self.reference.any }
    }

    /// Returns true if these two references point to the same underlying
    /// allocation.
    pub fn ptr_eq(this: &Self, other: &Self) -> (equal: bool)
        ensures
            equal == (this.reference.any == other.reference.any),
    {
        this.reference.any == other.reference.any
    }

    /// Returns another root to the same value.
    pub fn clone(&self, global: &mut GlobalCollector<V>) -> (root: Self)
        requires
            old(global).wf(),
            self.valid(old(global)@),
        ensures
            final(global).wf(),
            root == *self,
            roots_changed(
                *old(global),
                *final(global),
                self.reference.any,
                one_more(roots_of(old(global)@, self.reference.any)),
            ),
    {
        add_root(global, self.reference.any);
        Root { data: share(&self.data), reference: self.reference }
    }

    /// Returns the value.
    pub fn deref(&self) -> (value: &T)
        requires
            self.wf(),
        ensures
            value.erased() == *self.data,
    {
        T::downcast(&self.data).unwrap()
    }

    /// Gives up this root. If it was the last one, a collection is asked for.
    pub fn release(self, global: &mut GlobalCollector<V>)
        requires
            old(global).wf(),
            self.valid(old(global)@),
        ensures
            final(global).wf(),
            after_release(*old(global), *final(global), self.reference.any),
    {
        remove_root(global, self.reference.any);
    }
}

/// A type-erased root garbage collected reference.
pub struct AnyRoot<V> {
    pub value: Arc<V>,
    pub any: AnyRef,
}

impl<V: AnyValue> AnyRoot<V> {
    /// This is one of the roots to its value.
    pub open spec fn valid(self, state: GlobalView<V>) -> bool {
        roots_value(state, self.any, self.value)
    }

    /// Loads a reference to the underlying data. Returns `None` if `T` is not
    /// the type of the underlying data.
    pub fn load<T: Collectable<V>>(&self, global: &mut GlobalCollector<V>) -> (value: Option<&T>)
        requires
            old(global).wf(),
            self.valid(old(global)@),
            can_number(old(global)@, T::key()),
        ensures
            final(global).wf(),
            final(global)@ == numbered(old(global)@, T::key()),
            final(global).commands@ == old(global).commands@,
            final(global).info.all_threads == old(global).info.all_threads,
            value is Some <==> self.value.type_key() == T::key(),
            value is Some ==> value.unwrap().erased() == *self.value,
    {
        let index: TypeIndex = TypeIndex::of::<T, V>(&mut global.info.type_indexes);
        if index == self.any.type_index {
            T::downcast(&self.value)
        } else {
            None
        }
    }

    /// Returns a [`Root<T>`](Root) if the underlying reference points to a `T`.
    pub fn downcast_root<T: Collectable<V>>(&self, global: &mut GlobalCollector<V>) -> (root: Option<
        Root<T, V>,
    >)
        requires
            old(global).wf(),
            self.valid(old(global)@),
            can_number(old(global)@, T::key()),
        ensures
            final(global).wf(),
            root is Some <==> self.value.type_key() == T::key(),
            match root {
                Some(root) => {
                    &&& root.wf()
                    &&& root.data == self.value
                    &&& root.reference.any == self.any
                    &&& final(global)@ == with_roots(
                        numbered(old(global)@, T::key()),
                        self.any,
                        one_more(roots_of(old(global)@, self.any)),
                    )
                },
                None => final(global)@ == numbered(old(global)@, T::key()),
            },
            final(global).commands@ == old(global).commands@,
            final(global).info.all_threads.same_slabs(old(global).info.all_threads),
    {
        let index: TypeIndex = TypeIndex::of::<T, V>(&mut global.info.type_indexes);
        if index == self.any.type_index {
            add_root(global, self.any);
            Some(Root { data: share(&self.value), reference: self.downcast_ref() })
        } else {
            None
        }
    }

    /// Returns a [`Ref<T>`](Ref).
    ///
    /// This function does not do any type checking. If `T` is not the correct
    /// type, attempting to load the underyling value will fail.
    pub fn downcast_ref<T: Collectable<V>>(&self) -> (reference: Ref<T>)
        ensures
            reference.any == self.any,
    {
        self.any.downcast_ref()
    }

    /// Returns a [`Ref<T>`](Ref), if `T` matches the type of this reference.
    pub fn downcast_checked<T: Collectable<V>>(&self, global: &mut GlobalCollector<V>) -> (reference:
        Option<Ref<T>>)
        requires
            old(global).wf(),
            self.valid(old(global)@),
            can_number(old(global)@, T::key()),
        ensures
            final(global).wf(),
            final(global)@ == numbered(old(global)@, T::key()),
            final(global).commands@ == old(global).commands@,
            final(global).info.all_threads == old(global).info.all_threads,
            reference is Some <==> self.value.type_key() == T::key(),
            reference is Some ==> reference.unwrap().any == self.any,
    {
        self.any.downcast_checked(global)
    }

    /// Returns an untyped "weak" reference to this root.
    pub fn as_any(&self) -> (any: AnyRef)
        ensures
            any == self.any,
    {
        self.any
    }

    /// Returns another root to the same value.
    pub fn clone(&self, global: &mut GlobalCollector<V>) -> (root: Self)
        requires
            old(global).wf(),
            self.valid(old(global)@),
        ensures
            final(global).wf(),
            root == *self,
            roots_changed(
                *old(global),
                *final(global),
                self.any,
                one_more(roots_of(old(global)@, self.any)),
            ),
    {
        add_root(global, self.any);
        AnyRoot { value: share(&self.value), any: self.any }
    }

    /// Gives up this root. If it was the last one, a collection is asked for.
    pub fn release(self, global: &mut GlobalCollector<V>)
        requires
            old(global).wf(),
            self.valid(old(global)@),
        ensures
            final(global).wf(),
            after_release(*old(global), *final(global), self.any),
    {
        remove_root(global, self.any);
    }
}

impl AnyRef {
    /// Returns a [`Ref<T>`](Ref).
    ///
    /// This function does not do any type checking. If `T` is not the correct
    /// type, attempting to load the underyling value will fail.
    pub fn downcast_ref<T>(&self) -> (reference: Ref<T>)
        ensures
            reference.any == *self,
    {
        Ref { any: *self, _t: PhantomData }
    }

    /// Returns a root for this reference, if the value has not been collected.
    pub fn upgrade<'a, V: AnyValue>(&self, guard: &CollectionGuard<'a>, global: &mut GlobalCollector<V>) -> (root:
        Option<AnyRoot<V>>)
        requires
            old(global).wf(),
            guard.valid(old(global)@),
        ensures
            final(global).wf(),
            root is Some <==> names(old(global)@.cells, *self),
            match root {
                Some(root) => {
                    &&& root.any == *self
                    &&& *root.value == old(global)@.cells[self.addr()].value
                    &&& roots_changed(
                        *old(global),
                        *final(global),
                        *self,
                        one_more(roots_of(old(global)@, *self)),
                    )
                },
                None => {
                    &&& final(global)@ == old(global)@
                    &&& final(global).commands@ == old(global).commands@
                },
            },
    {
        let value = match global.info.all_threads.load(*self) {
            Some(rooted) => share(&rooted.value),
            None => return None,
        };
        add_root(global, *self);
        Some(AnyRoot { value, any: *self })
    }

    /// Returns a [`Ref<T>`](Ref), if `T` matches the type of this reference.
    pub fn downcast_checked<T: Collectable<V>, V: AnyValue>(&self, global: &mut GlobalCollector<V>) -> (reference:
        Option<Ref<T>>)
        requires
            old(global).wf(),
            can_number(old(global)@, T::key()),
        ensures
            final(global).wf(),
            final(global)@ == numbered(old(global)@, T::key()),
            final(global).commands@ == old(global).commands@,
            final(global).info.all_threads == old(global).info.all_threads,
            reference is Some <==> self.type_index == number_of(old(global)@, T::key()),
            reference is Some ==> reference.unwrap().any == *self,
            names(old(global)@.cells, *self) ==> (reference is Some
                <==> old(global)@.cells[self.addr()].value.type_key() == T::key()),
    {
        let index: TypeIndex = TypeIndex::of::<T, V>(&mut global.info.type_indexes);
        if index == self.type_index {
            Some(self.downcast_ref())
        } else {
            None
        }
    }

    /// Returns a [`Root<T>`](Root) if the underlying reference points to a `T`
    /// that has not been collected.
    pub fn downcast_root<'a, T: Collectable<V>, V: AnyValue>(
        &self,
        guard: &CollectionGuard<'a>,
        global: &mut GlobalCollector<V>,
    ) -> (root: Option<Root<T, V>>)
        requires
            old(global).wf(),
            guard.valid(old(global)@),
        ensures
            final(global).wf(),
            root is Some <==> names_a::<T, V>(old(global)@, *self),
            match root {
                Some(root) => {
                    &&& root.reference.any == *self
                    &&& *root.data == old(global)@.cells[self.addr()].value
                    &&& roots_changed(
                        *old(global),
                        *final(global),
                        *self,
                        one_more(roots_of(old(global)@, *self)),
                    )
                },
                None => {
                    &&& final(global)@ == old(global)@
                    &&& final(global).commands@ == old(global).commands@
                },
            },
    {
        let reference: Ref<T> = self.downcast_ref();
        reference.as_root(guard, global)
    }

    /// Loads a reference to the underlying data. Returns `None` if the data has
    /// been collected and is no longer available.
    pub fn load<'a, 'b, T: Collectable<V>, V: AnyValue>(
        &self,
        guard: &'b CollectionGuard<'a>,
        global: &'b GlobalCollector<V>,
    ) -> (value: Option<&'b T>)
        requires
            global.wf(),
            guard.valid(global@),
        ensures
            value is Some <==> names_a::<T, V>(global@, *self),
            value is Some ==> value.unwrap().erased() == global@.cells[self.addr()].value,
    {
        let reference: Ref<T> = self.downcast_ref();
        reference.load(guard, global)
    }

    /// Returns a reference to the result of the mapping of the value's type, if
    /// the value has not been collected and the mapping's target is `T`.
    pub fn load_mapped<'a, 'b, T: MapTarget<V> + ?Sized, V: AnyValue>(
        &self,
        guard: &'b CollectionGuard<'a>,
        global: &'b GlobalCollector<V>,
    ) -> (value: Option<&'b T>)
        requires
            global.wf(),
            guard.valid(global@),
        ensures
            value == (if names(global@.cells, *self) {
                T::image(&global@.cells[self.addr()].value)
            } else {
                None
            }),
            value is Some <==> names(global@.cells, *self)
                && global@.cells[self.addr()].value.target_key() == T::key(),
    {
        proof {
            if names(global@.cells, *self) {
                T::lemma_image(&global@.cells[self.addr()].value);
            }
        }
        match global.info.all_threads.load(*self) {
            Some(rooted) => T::map_any(&rooted.value),
            None => None,
        }
    }
}

impl<T: Send + Sync + 'static> Trace for Ref<T> {
    const MAY_CONTAIN_REFERENCES: bool = true;

    open spec fn references(&self) -> Set<AnyRef> {
        set![self.any]
    }

    proof fn lemma_references(&self) {
    }

    fn trace(&self, tracer: &mut Tracer) {
        tracer.mark(*self);
        proof {
            lemma_extends_one(*tracer, old(tracer).requests@, self.any);
        }
    }
}

impl<T: Send + Sync + 'static, V: Send + Sync + 'static> Trace for Root<T, V> {
    const MAY_CONTAIN_REFERENCES: bool = false;

    open spec fn references(&self) -> Set<AnyRef> {
        Set::empty()
    }

    proof fn lemma_references(&self) {
    }

    /// A root already is a root, thus tracing it has no effect.
    fn trace(&self, tracer: &mut Tracer) {
        proof {
            lemma_extends_nothing(*tracer);
        }
    }
}

impl<'a> From<&'a AnyRef> for AnyRef {
    fn from(value: &'a AnyRef) -> (any: Self) {
        *value
    }
}

impl<'a> vstd::std_specs::convert::FromSpecImpl<&'a AnyRef> for AnyRef {
    open spec fn obeys_from_spec() -> bool {
        true
    }

    open spec fn from_spec(value: &'a AnyRef) -> Self {
        *value
    }
}

impl<'a, T> From<&'a Ref<T>> for AnyRef {
    fn from(value: &'a Ref<T>) -> (any: Self) {
        value.any
    }
}

impl<'a, T> vstd::std_specs::convert::FromSpecImpl<&'a Ref<T>> for AnyRef {
    open spec fn obeys_from_spec() -> bool {
        true
    }

    open spec fn from_spec(value: &'a Ref<T>) -> Self {
        value.any
    }
}

impl<T> From<Ref<T>> for AnyRef {
    fn from(value: Ref<T>) -> (any: Self) {
        value.any
    }
}

impl<T> vstd::std_specs::convert::FromSpecImpl<Ref<T>> for AnyRef {
    open spec fn obeys_from_spec() -> bool {
        true
    }

    open spec fn from_spec(value: Ref<T>) -> Self {
        value.any
    }
}

impl<'a, T, V> From<&'a Root<T, V>> for AnyRef {
    fn from(value: &'a Root<T, V>) -> (any: Self) {
        value.reference.any
    }
}

impl<'a, T, V> vstd::std_specs::convert::FromSpecImpl<&'a Root<T, V>> for AnyRef {
    open spec fn obeys_from_spec() -> bool {
        true
    }

    open spec fn from_spec(value: &'a Root<T, V>) -> Self {
        value.reference.any
    }
}

impl<T, V> From<Root<T, V>> for AnyRoot<V> {
    fn from(value: Root<T, V>) -> (root: Self) {
        AnyRoot { value: value.data, any: value.reference.any }
    }
}

impl<T, V> vstd::std_specs::convert::FromSpecImpl<Root<T, V>> for AnyRoot<V> {
    open spec fn obeys_from_spec() -> bool {
        true
    }

    open spec fn from_spec(value: Root<T, V>) -> Self {
        AnyRoot { value: value.data, any: value.reference.any }
    }
}

/// A reference may contain a reference, itself; a root need not be traced.
pub proof fn law_references_may_contain_references<T: Send + Sync + 'static, V: Send + Sync + 'static>()
    ensures
        <Ref<T> as Trace>::MAY_CONTAIN_REFERENCES,
        !<Root<T, V> as Trace>::MAY_CONTAIN_REFERENCES,
{
}

} // verus!
