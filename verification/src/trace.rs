//! How collectable values reveal the references that they hold.

use std::collections::{BTreeMap, BTreeSet, HashMap, HashSet, VecDeque};
use vstd::prelude::*;
use vstd::std_specs::convert::IntoSpec;
use vstd::std_specs::iter::IteratorSpec;

use crate::any_ref::{AnyRef, CollectorThreadId};

verus! {

/// A set of references, in contracts.
pub type References = Set<AnyRef>;

/// A tracer for the garbage collector.
///
/// This type allows collectable values to [`mark()`](Self::mark) any
/// references they contain.
pub struct Tracer {
    pub tracing_thread: CollectorThreadId,
    pub requests: Vec<AnyRef>,
}

impl Tracer {
    /// The requests were `before` and then some that name exactly
    /// `references`.
    pub open spec fn extends(self, before: Seq<AnyRef>, references: Set<AnyRef>) -> bool {
        &&& before.len() <= self.requests@.len()
        &&& self.requests@.take(before.len() as int) == before
        &&& self.requests@.skip(before.len() as int).to_set() == references
    }

    /// Returns a tracer for the values of `thread` without any requests.
    pub fn new(thread: CollectorThreadId) -> (tracer: Self)
        ensures
            tracer.tracing_thread == thread,
            tracer.requests@ == Seq::<AnyRef>::empty(),
    {
        Tracer { tracing_thread: thread, requests: Vec::new() }
    }

    /// Marks `collectable` as being referenced, ensuring it is not garbage
    /// collected.
    pub fn mark<R: Into<AnyRef>>(&mut self, collectable: R)
        ensures
            final(self).tracing_thread == old(self).tracing_thread,
            final(self).requests@.len() == old(self).requests@.len() + 1,
            final(self).requests@.drop_last() == old(self).requests@,
            call_ensures(R::into, (collectable,), final(self).requests@.last()),
            R::obeys_into_spec() ==> final(self).requests@ == old(self).requests@.push(
                collectable.into_spec(),
            ),
    {
        let any: AnyRef = collectable.into();
        self.requests.push(any);
        assert(self.requests@.drop_last() =~= old(self).requests@);
    }
}

/// Requests that extend an extension extend the start by the union.
pub proof fn lemma_extends_union(
    tracer: Tracer,
    before: Seq<AnyRef>,
    middle: Tracer,
    first: Set<AnyRef>,
    second: Set<AnyRef>,
)
    requires
        middle.extends(before, first),
        tracer.extends(middle.requests@, second),
    ensures
        tracer.extends(before, first.union(second)),
{
    let n = before.len() as int;
    let m = middle.requests@.len() as int;
    let all = tracer.requests@;
    assert(all.take(n) =~= all.take(m).take(n));
    let tail = all.skip(n);
    assert forall|r: AnyRef| tail.to_set().contains(r) == first.union(second).contains(r) by {
        if tail.contains(r) {
            let i = choose|i: int| 0 <= i < tail.len() && tail[i] == r;
            if n + i < m {
                assert(middle.requests@.skip(n)[i] == all.take(m)[n + i]);
                assert(middle.requests@.skip(n).contains(r));
            } else {
                assert(all.skip(m)[n + i - m] == r);
                assert(all.skip(m).contains(r));
            }
        }
        if middle.requests@.skip(n).contains(r) {
            let i = choose|i: int|
                0 <= i < middle.requests@.skip(n).len() && middle.requests@.skip(n)[i] == r;
            assert(all.take(m)[n + i] == r);
            assert(tail[i] == r);
        }
        if all.skip(m).contains(r) {
            let i = choose|i: int| 0 <= i < all.skip(m).len() && all.skip(m)[i] == r;
            assert(tail[m - n + i] == r);
        }
        assert(middle.requests@.skip(n).to_set().contains(r) == middle.requests@.skip(n).contains(r));
        assert(all.skip(m).to_set().contains(r) == all.skip(m).contains(r));
        assert(tail.to_set().contains(r) == tail.contains(r));
    }
    assert(tail.to_set() =~= first.union(second));
}

/// Unchanged requests extend themselves by nothing.
pub proof fn lemma_extends_nothing(tracer: Tracer)
    ensures
        tracer.extends(tracer.requests@, Set::<AnyRef>::empty()),
{
    let n = tracer.requests@.len() as int;
    assert(tracer.requests@.take(n) =~= tracer.requests@);
    assert(tracer.requests@.skip(n) =~= Seq::<AnyRef>::empty());
    assert(tracer.requests@.skip(n).to_set() =~= Set::<AnyRef>::empty());
}

/// One pushed request extends the requests by that reference.
pub proof fn lemma_extends_one(tracer: Tracer, before: Seq<AnyRef>, reference: AnyRef)
    requires
        tracer.requests@ == before.push(reference),
    ensures
        tracer.extends(before, set![reference]),
{
    let n = before.len() as int;
    assert(tracer.requests@.take(n) =~= before);
    assert(tracer.requests@.skip(n) =~= seq![reference]);
    assert forall|r: AnyRef| seq![reference].to_set().contains(r) == set![reference].contains(r) by {
        if r == reference {
            assert(seq![reference][0] == r);
        }
    }
    assert(seq![reference].to_set() =~= set![reference]);
}

/// A type that can find and mark any references it has.
pub trait Trace: Send + Sync + 'static {
    /// If true, this type may contain references and should have its `trace()`
    /// function invoked during the collector's "mark" phase.
    const MAY_CONTAIN_REFERENCES: bool;

    /// The references that this value holds.
    spec fn references(&self) -> References;

    /// A value holds no references unless its type may contain some.
    proof fn lemma_references(&self)
        ensures
            !Self::MAY_CONTAIN_REFERENCES ==> self.references() == Set::<AnyRef>::empty(),
    ;

    /// Traces all references that this value holds.
    ///
    /// Each of them is marked; a reference that is left out may be freed by
    /// the collector.
    fn trace(&self, tracer: &mut Tracer)
        ensures
            final(tracer).tracing_thread == old(tracer).tracing_thread,
            final(tracer).extends(old(tracer).requests@, self.references()),
    ;
}

/// A mapping from one type to another.
///
/// If no mapping is desired, implement [`NoMapping`] instead.
pub trait MapAs: Send + Sync + 'static {
    /// The target type of the mapping.
    type Target: ?Sized + 'static;

    /// The image of this value.
    spec fn mapped(&self) -> &Self::Target;

    /// Maps `self` to the target type.
    fn map_as(&self) -> (target: &Self::Target)
        ensures
            target == self.mapped(),
    ;
}

/// A type that can be garbage collected that cannot contain any references.
pub trait ContainsNoRefs: Send + Sync + 'static {

}

impl<T> Trace for T where T: ContainsNoRefs {
    const MAY_CONTAIN_REFERENCES: bool = false;

    open spec fn references(&self) -> Set<AnyRef> {
        Set::empty()
    }

    proof fn lemma_references(&self) {
    }

    fn trace(&self, tracer: &mut Tracer) {
        proof {
            lemma_extends_nothing(*tracer);
        }
    }
}

/// A type that implements [`MapAs`] with an empty implementation.
pub trait NoMapping: Send + Sync + 'static {

}

impl<T> MapAs for T where T: NoMapping {
    type Target = ();

    open spec fn mapped(&self) -> &() {
        &()
    }

    fn map_as(&self) -> (target: &()) {
        &()
    }
}

/// A type that can contain no references and has an empty [`MapAs`]
/// implementation.
///
/// Implementing this trait for a type automatically implements [`NoMapping`]
/// and [`ContainsNoRefs`].
pub trait SimpleType: Send + Sync + 'static {

}

impl<T> NoMapping for T where T: SimpleType {

}

impl<T> ContainsNoRefs for T where T: SimpleType {

}

impl SimpleType for u8 {

}

impl SimpleType for u16 {

}

impl SimpleType for u32 {

}

impl SimpleType for u64 {

}

impl SimpleType for u128 {

}

impl SimpleType for usize {

}

impl SimpleType for i8 {

}

impl SimpleType for i16 {

}

impl SimpleType for i32 {

}

impl SimpleType for i64 {

}

impl SimpleType for i128 {

}

impl SimpleType for isize {

}

impl SimpleType for std::sync::atomic::AtomicU8 {

}

impl SimpleType for std::sync::atomic::AtomicU16 {

}

impl SimpleType for std::sync::atomic::AtomicU32 {

}

impl SimpleType for std::sync::atomic::AtomicU64 {

}

impl SimpleType for std::sync::atomic::AtomicUsize {

}

impl SimpleType for std::sync::atomic::AtomicI8 {

}

impl SimpleType for std::sync::atomic::AtomicI16 {

}

impl SimpleType for std::sync::atomic::AtomicI32 {

}

impl SimpleType for std::sync::atomic::AtomicI64 {

}

impl SimpleType for std::sync::atomic::AtomicIsize {

}

impl SimpleType for String {

}

impl SimpleType for BTreeSet<u64> {

}

impl SimpleType for HashSet<u64> {

}

/// The references that the first `count` items hold.
pub open spec fn references_of<T: Trace>(items: Seq<T>, count: int) -> Set<AnyRef> {
    Set::new(|r: AnyRef| exists|i: int| 0 <= i < count && (#[trigger] items[i]).references().contains(r))
}

/// The references that the values of a map hold.
pub open spec fn map_references<T: Trace>(items: Map<u64, T>) -> Set<AnyRef> {
    Set::new(
        |r: AnyRef|
            exists|key: u64|
                items.dom().contains(key) && (#[trigger] items[key]).references().contains(r),
    )
}

/// The references that the values of the first `count` pairs hold.
pub open spec fn pair_references<T: Trace>(pairs: Seq<(&u64, &T)>, count: int) -> Set<AnyRef> {
    Set::new(
        |r: AnyRef|
            exists|i: int| 0 <= i < count && (#[trigger] pairs[i]).1.references().contains(r),
    )
}

/// One more pair adds the references of its value.
proof fn lemma_pair_references_next<T: Trace>(pairs: Seq<(&u64, &T)>, count: int)
    requires
        0 <= count < pairs.len(),
    ensures
        pair_references(pairs, count + 1) == pair_references(pairs, count).union(
            pairs[count].1.references(),
        ),
{
    let next = pair_references(pairs, count + 1);
    let union = pair_references(pairs, count).union(pairs[count].1.references());
    assert forall|r: AnyRef| next.contains(r) == union.contains(r) by {
        if next.contains(r) {
            let i = choose|i: int|
                0 <= i < count + 1 && (#[trigger] pairs[i]).1.references().contains(r);
            assert(i < count || i == count);
        }
        if pairs[count].1.references().contains(r) {
            assert(next.contains(r));
        }
    }
    assert(next =~= union);
}

/// The pairs of a map hold the references that its values hold.
proof fn lemma_pair_references_all<T: Trace>(items: Map<u64, T>, pairs: Seq<(&u64, &T)>)
    requires
        forall|i: int|
            0 <= i < pairs.len() ==> items.contains_key(*(#[trigger] pairs[i]).0) && items[*pairs[i].0]
                == *pairs[i].1,
        forall|key: u64| #[trigger]
            items.contains_key(key) ==> pairs.contains((&key, &items[key])),
    ensures
        pair_references(pairs, pairs.len() as int) == map_references(items),
{
    let all = pair_references(pairs, pairs.len() as int);
    assert forall|r: AnyRef| all.contains(r) == map_references(items).contains(r) by {
        if all.contains(r) {
            let i = choose|i: int|
                0 <= i < pairs.len() && (#[trigger] pairs[i]).1.references().contains(r);
            assert(items[*pairs[i].0].references().contains(r));
        }
        if map_references(items).contains(r) {
            let key = choose|key: u64|
                items.dom().contains(key) && (#[trigger] items[key]).references().contains(r);
            assert(items.contains_key(key));
            let i = choose|i: int| 0 <= i < pairs.len() && pairs[i] == (&key, &items[key]);
            assert(pairs[i].1.references().contains(r));
        }
    }
    assert(all =~= map_references(items));
}

/// One more item adds its references.
pub proof fn lemma_references_of_next<T: Trace>(items: Seq<T>, count: int)
    requires
        0 <= count < items.len(),
    ensures
        references_of(items, count + 1) == references_of(items, count).union(
            items[count].references(),
        ),
{
    let next = references_of(items, count + 1);
    let union = references_of(items, count).union(items[count].references());
    assert forall|r: AnyRef| next.contains(r) == union.contains(r) by {
        if next.contains(r) {
            let i = choose|i: int|
                0 <= i < count + 1 && (#[trigger] items[i]).references().contains(r);
            assert(i < count || i == count);
        }
        if items[count].references().contains(r) {
            assert(next.contains(r));
        }
    }
    assert(next =~= union);
}

/// Items of a type that contains no references hold none.
proof fn lemma_references_of_none<T: Trace>(items: Seq<T>, count: int)
    requires
        !T::MAY_CONTAIN_REFERENCES,
        count <= items.len(),
    ensures
        references_of(items, count) == Set::<AnyRef>::empty(),
{
    assert forall|i: int| 0 <= i < count implies (#[trigger] items[i]).references() == Set::<
        AnyRef,
    >::empty() by {
        items[i].lemma_references();
    }
    assert(references_of(items, count) =~= Set::<AnyRef>::empty());
}

/// A map to a type that contains no references holds none.
proof fn lemma_map_references_none<T: Trace>(items: Map<u64, T>)
    requires
        !T::MAY_CONTAIN_REFERENCES,
    ensures
        map_references(items) == Set::<AnyRef>::empty(),
{
    assert forall|key: u64| items.dom().contains(key) implies (#[trigger] items[key]).references()
        == Set::<AnyRef>::empty() by {
        items[key].lemma_references();
    }
    assert(map_references(items) =~= Set::<AnyRef>::empty());
}

impl<T> Trace for Vec<T> where T: Trace {
    const MAY_CONTAIN_REFERENCES: bool = T::MAY_CONTAIN_REFERENCES;

    open spec fn references(&self) -> Set<AnyRef> {
        references_of(self@, self@.len() as int)
    }

    proof fn lemma_references(&self) {
        if !T::MAY_CONTAIN_REFERENCES {
            lemma_references_of_none(self@, self@.len() as int);
        }
    }

    fn trace(&self, tracer: &mut Tracer) {
        let ghost before = tracer.requests@;
        let mut i: usize = 0;
        proof {
            lemma_extends_nothing(*tracer);
            assert(references_of(self@, 0) =~= Set::<AnyRef>::empty());
        }
        while i < self.len()
            invariant
                i <= self@.len(),
                tracer.tracing_thread == old(tracer).tracing_thread,
                tracer.extends(before, references_of(self@, i as int)),
            decreases self@.len() - i,
        {
            let ghost middle = *tracer;
            self[i].trace(tracer);
            proof {
                lemma_extends_union(
                    *tracer,
                    before,
                    middle,
                    references_of(self@, i as int),
                    self@[i as int].references(),
                );
                lemma_references_of_next(self@, i as int);
            }
            i = i + 1;
        }
    }
}

impl<T> NoMapping for Vec<T> where T: Send + Sync + 'static {

}

impl<T> Trace for VecDeque<T> where T: Trace {
    const MAY_CONTAIN_REFERENCES: bool = T::MAY_CONTAIN_REFERENCES;

    open spec fn references(&self) -> Set<AnyRef> {
        references_of(self@, self@.len() as int)
    }

    proof fn lemma_references(&self) {
        if !T::MAY_CONTAIN_REFERENCES {
            lemma_references_of_none(self@, self@.len() as int);
        }
    }

    fn trace(&self, tracer: &mut Tracer) {
        let ghost before = tracer.requests@;
        let mut i: usize = 0;
        proof {
            lemma_extends_nothing(*tracer);
            assert(references_of(self@, 0) =~= Set::<AnyRef>::empty());
        }
        while i < self.len()
            invariant
                i <= self@.len(),
                tracer.tracing_thread == old(tracer).tracing_thread,
                tracer.extends(before, references_of(self@, i as int)),
            decreases self@.len() - i,
        {
            let ghost middle = *tracer;
            self[i].trace(tracer);
            proof {
                lemma_extends_union(
                    *tracer,
                    before,
                    middle,
                    references_of(self@, i as int),
                    self@[i as int].references(),
                );
                lemma_references_of_next(self@, i as int);
            }
            i = i + 1;
        }
    }
}

impl<T> NoMapping for VecDeque<T> where T: Send + Sync + 'static {

}

impl<T, const N: usize> Trace for [T; N] where T: Trace {
    const MAY_CONTAIN_REFERENCES: bool = T::MAY_CONTAIN_REFERENCES;

    open spec fn references(&self) -> Set<AnyRef> {
        references_of(self@, self@.len() as int)
    }

    proof fn lemma_references(&self) {
        if !T::MAY_CONTAIN_REFERENCES {
            lemma_references_of_none(self@, self@.len() as int);
        }
    }

    fn trace(&self, tracer: &mut Tracer) {
        let ghost before = tracer.requests@;
        let mut i: usize = 0;
        proof {
            lemma_extends_nothing(*tracer);
            assert(references_of(self@, 0) =~= Set::<AnyRef>::empty());
        }
        while i < N
            invariant
                i <= self@.len(),
                self@.len() == N,
                tracer.tracing_thread == old(tracer).tracing_thread,
                tracer.extends(before, references_of(self@, i as int)),
            decreases self@.len() - i,
        {
            let ghost middle = *tracer;
            self[i].trace(tracer);
            proof {
                lemma_extends_union(
                    *tracer,
                    before,
                    middle,
                    references_of(self@, i as int),
                    self@[i as int].references(),
                );
                lemma_references_of_next(self@, i as int);
            }
            i = i + 1;
        }
    }
}

impl<T, const N: usize> NoMapping for [T; N] where T: Send + Sync + 'static {

}

impl<T> Trace for BTreeMap<u64, T> where T: Trace {
    const MAY_CONTAIN_REFERENCES: bool = T::MAY_CONTAIN_REFERENCES;

    /// The references that the values hold. The keys hold none.
    open spec fn references(&self) -> Set<AnyRef> {
        map_references(self@)
    }

    proof fn lemma_references(&self) {
        if !T::MAY_CONTAIN_REFERENCES {
            lemma_map_references_none(self@);
        }
    }

    fn trace(&self, tracer: &mut Tracer) {
        broadcast use vstd::std_specs::btree::group_btree_axioms;

        let ghost before = tracer.requests@;
        let ghost thread = tracer.tracing_thread;
        proof {
            lemma_extends_nothing(*tracer);
        }
        let items = self.iter();
        let ghost pairs = items.remaining();
        proof {
            assert(pair_references(pairs, 0) =~= Set::<AnyRef>::empty());
        }
        for (_key, item) in it: items
            invariant
                it.seq() == pairs,
                tracer.tracing_thread == thread,
                tracer.extends(before, pair_references(pairs, it.index() as int)),
        {
            let ghost middle = *tracer;
            let ghost index = it.index() as int;
            item.trace(tracer);
            proof {
                lemma_extends_union(
                    *tracer,
                    before,
                    middle,
                    pair_references(pairs, index),
                    item.references(),
                );
                lemma_pair_references_next(pairs, index);
            }
        }
        proof {
            lemma_pair_references_all(self@, pairs);
        }
    }
}

impl<T> NoMapping for BTreeMap<u64, T> where T: Send + Sync + 'static {

}

impl<T> Trace for HashMap<u64, T> where T: Trace {
    const MAY_CONTAIN_REFERENCES: bool = T::MAY_CONTAIN_REFERENCES;

    /// The references that the values hold. The keys hold none.
    open spec fn references(&self) -> Set<AnyRef> {
        map_references(self@)
    }

    proof fn lemma_references(&self) {
        if !T::MAY_CONTAIN_REFERENCES {
            lemma_map_references_none(self@);
        }
    }

    fn trace(&self, tracer: &mut Tracer) {
        broadcast use vstd::std_specs::hash::group_hash_axioms;

        let ghost before = tracer.requests@;
        let ghost thread = tracer.tracing_thread;
        proof {
            lemma_extends_nothing(*tracer);
        }
        let items = self.iter();
        let ghost pairs = items.remaining();
        proof {
            assert(pair_references(pairs, 0) =~= Set::<AnyRef>::empty());
        }
        for (_key, item) in it: items
            invariant
                it.seq() == pairs,
                tracer.tracing_thread == thread,
                tracer.extends(before, pair_references(pairs, it.index() as int)),
        {
            let ghost middle = *tracer;
            let ghost index = it.index() as int;
            item.trace(tracer);
            proof {
                lemma_extends_union(
                    *tracer,
                    before,
                    middle,
                    pair_references(pairs, index),
                    item.references(),
                );
                lemma_pair_references_next(pairs, index);
            }
        }
        proof {
            lemma_pair_references_all(self@, pairs);
        }
    }
}

impl<T> NoMapping for HashMap<u64, T> where T: Send + Sync + 'static {

}

impl Trace for AnyRef {
    const MAY_CONTAIN_REFERENCES: bool = true;

    open spec fn references(&self) -> Set<AnyRef> {
        set![*self]
    }

    proof fn lemma_references(&self) {
    }

    fn trace(&self, tracer: &mut Tracer) {
        tracer.requests.push(*self);
        proof {
            lemma_extends_one(*tracer, old(tracer).requests@, *self);
        }
    }
}

/// The values of one collector, whatever their types.
///
/// A collector stores values of many types side by side. This trait is what
/// it asks of their common, type-erased form.
pub trait AnyValue: Sized + Send + Sync + 'static {
    /// The key of the type of this value.
    spec fn type_key(&self) -> u64;

    /// The key of the type that the type of this value is mapped to.
    spec fn target_key(&self) -> u64;

    /// The type of this value may contain references.
    spec fn any_may_reference(&self) -> bool;

    /// The references that this value holds.
    spec fn any_references(&self) -> References;

    /// The value holds no references unless its type may contain some.
    proof fn lemma_any_references(&self)
        ensures
            !self.any_may_reference() ==> self.any_references() == Set::<AnyRef>::empty(),
    ;

    /// Returns the key of the type of this value.
    fn any_type_key(&self) -> (key: u64)
        ensures
            key == self.type_key(),
    ;

    /// Returns [`Trace::MAY_CONTAIN_REFERENCES`] of the type of this value.
    fn any_may_contain_references(&self) -> (result: bool)
        ensures
            result == self.any_may_reference(),
    ;

    /// Invokes [`Trace::trace`] on the value.
    fn any_trace(&self, tracer: &mut Tracer)
        ensures
            final(tracer).tracing_thread == old(tracer).tracing_thread,
            final(tracer).extends(old(tracer).requests@, self.any_references()),
    ;
}

/// A type that can be garbage collected among the values `V`.
///
/// A type needs to implement both [`Trace`] and [`MapAs`] to be collectable.
pub trait Collectable<V: AnyValue>: Trace + MapAs + Sized {
    /// The key that no other type among the values has.
    spec fn key() -> u64;

    /// This value in its type-erased form.
    spec fn erased(self) -> V;

    /// Erasing keeps the type, the references and the value itself.
    proof fn lemma_erased(self)
        ensures
            self.erased().type_key() == Self::key(),
            self.erased().any_may_reference() == Self::MAY_CONTAIN_REFERENCES,
            self.erased().any_references() == self.references(),
            forall|other: Self| #[trigger] other.erased() == self.erased() ==> other == self,
    ;

    /// Erasing keeps the image of the value.
    proof fn lemma_mapped(self) where Self::Target: MapTarget<V>
        ensures
            <Self::Target as MapTarget<V>>::image(&self.erased()) == Some(self.mapped()),
    ;

    /// Returns the key of this type.
    fn collectable_key() -> (key: u64)
        ensures
            key == Self::key(),
    ;

    /// Erases the type of this value.
    fn erase(self) -> (value: V)
        ensures
            value == self.erased(),
    ;

    /// Returns the value if its type is this one.
    fn downcast(value: &V) -> (result: Option<&Self>)
        ensures
            result is Some <==> value.type_key() == Self::key(),
            result is Some ==> result.unwrap().erased() == *value,
    ;
}

/// A type that values can be mapped to.
///
/// This is implemented for the targets of [`MapAs`] to enable type-erased
/// loading of a secondary type.
pub trait MapTarget<V: AnyValue> {
    /// The key that no other target of a mapping has.
    spec fn key() -> u64;

    /// The image of `value` if this is the target of its type's mapping.
    spec fn image(value: &V) -> Option<&Self>;

    /// There is an image exactly if this is the target of the mapping.
    proof fn lemma_image(value: &V)
        ensures
            Self::image(value) is Some <==> value.target_key() == Self::key(),
    ;

    /// Maps `value` if this is the target of its type's mapping.
    fn map_any(value: &V) -> (image: Option<&Self>)
        ensures
            image == Self::image(value),
    ;
}

/// A collection may contain references exactly if its items may, and an untyped
/// reference may.
pub proof fn law_collections_may_contain_what_items_may<T: Trace, C: ContainsNoRefs, const N: usize>()
    ensures
        <Vec<T> as Trace>::MAY_CONTAIN_REFERENCES == T::MAY_CONTAIN_REFERENCES,
        <VecDeque<T> as Trace>::MAY_CONTAIN_REFERENCES == T::MAY_CONTAIN_REFERENCES,
        <[T; N] as Trace>::MAY_CONTAIN_REFERENCES == T::MAY_CONTAIN_REFERENCES,
        <BTreeMap<u64, T> as Trace>::MAY_CONTAIN_REFERENCES == T::MAY_CONTAIN_REFERENCES,
        <HashMap<u64, T> as Trace>::MAY_CONTAIN_REFERENCES == T::MAY_CONTAIN_REFERENCES,
        <AnyRef as Trace>::MAY_CONTAIN_REFERENCES,
        !<C as Trace>::MAY_CONTAIN_REFERENCES,
{
}

} // verus!
