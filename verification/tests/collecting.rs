//! Allocating, loading and collecting values of several types.
//!
//! Methods that only occur in contracts are never called.

use std::cmp::Ordering;

use refuse::any_ref::AnyRef;
use refuse::collector::CollectionTimes;
use refuse::global::GlobalCollector;
use refuse::guard::{collect, try_collect, CollectionGuard, LocalPool, ThreadPool, WouldDeadlock};
use refuse::reference::{AnyRoot, Ref, Root};
use refuse::trace::{
    AnyValue, Collectable, MapAs, MapTarget, NoMapping, References, Trace, Tracer,
};

/// A shape that has an area.
trait Shape {
    fn area(&self) -> u32;
}

struct Square(u32);

impl Shape for Square {
    fn area(&self) -> u32 {
        self.0 * self.0
    }
}

impl Trace for Square {
    const MAY_CONTAIN_REFERENCES: bool = false;

    fn references(&self) -> References {
        unreachable!()
    }

    fn lemma_references(&self) {}

    fn trace(&self, _tracer: &mut Tracer) {}
}

impl MapAs for Square {
    type Target = dyn Shape + Send + Sync;

    fn mapped(&self) -> &Self::Target {
        unreachable!()
    }

    fn map_as(&self) -> &Self::Target {
        self
    }
}

struct Error {
    message: Ref<String>,
}

impl Trace for Error {
    const MAY_CONTAIN_REFERENCES: bool = true;

    fn references(&self) -> References {
        unreachable!()
    }

    fn lemma_references(&self) {}

    fn trace(&self, tracer: &mut Tracer) {
        self.message.trace(tracer);
    }
}

impl NoMapping for Error {}

/// A node that may refer to any other value.
struct Node {
    next: Option<AnyRef>,
}

impl Trace for Node {
    const MAY_CONTAIN_REFERENCES: bool = true;

    fn references(&self) -> References {
        unreachable!()
    }

    fn lemma_references(&self) {}

    fn trace(&self, tracer: &mut Tracer) {
        if let Some(next) = &self.next {
            tracer.mark(next);
        }
    }
}

impl NoMapping for Node {}

enum Value {
    U32(u32),
    U16(u16),
    Text(String),
    Numbers(Vec<Ref<u32>>),
    Square(Square),
    Error(Error),
    Node(Node),
}

impl AnyValue for Value {
    fn type_key(&self) -> u64 {
        unreachable!()
    }

    fn target_key(&self) -> u64 {
        unreachable!()
    }

    fn any_may_reference(&self) -> bool {
        unreachable!()
    }

    fn any_references(&self) -> References {
        unreachable!()
    }

    fn lemma_any_references(&self) {}

    fn any_type_key(&self) -> u64 {
        match self {
            Value::U32(_) => 1,
            Value::U16(_) => 2,
            Value::Text(_) => 3,
            Value::Numbers(_) => 4,
            Value::Square(_) => 5,
            Value::Error(_) => 6,
            Value::Node(_) => 7,
        }
    }

    fn any_may_contain_references(&self) -> bool {
        match self {
            Value::U32(_) => u32::MAY_CONTAIN_REFERENCES,
            Value::U16(_) => u16::MAY_CONTAIN_REFERENCES,
            Value::Text(_) => String::MAY_CONTAIN_REFERENCES,
            Value::Numbers(_) => Vec::<Ref<u32>>::MAY_CONTAIN_REFERENCES,
            Value::Square(_) => Square::MAY_CONTAIN_REFERENCES,
            Value::Error(_) => Error::MAY_CONTAIN_REFERENCES,
            Value::Node(_) => Node::MAY_CONTAIN_REFERENCES,
        }
    }

    fn any_trace(&self, tracer: &mut Tracer) {
        match self {
            Value::U32(value) => value.trace(tracer),
            Value::U16(value) => value.trace(tracer),
            Value::Text(value) => value.trace(tracer),
            Value::Numbers(value) => value.trace(tracer),
            Value::Square(value) => value.trace(tracer),
            Value::Error(value) => value.trace(tracer),
            Value::Node(value) => value.trace(tracer),
        }
    }
}

impl Collectable<Value> for u32 {
    fn key() -> u64 {
        unreachable!()
    }

    fn erased(self) -> Value {
        unreachable!()
    }

    fn lemma_erased(self) {}

    fn lemma_mapped(self)
    where
        <Self as MapAs>::Target: MapTarget<Value>,
    {
    }

    fn collectable_key() -> u64 {
        1
    }

    fn erase(self) -> Value {
        Value::U32(self)
    }

    fn downcast(value: &Value) -> Option<&Self> {
        match value {
            Value::U32(value) => Some(value),
            _ => None,
        }
    }
}

impl Collectable<Value> for u16 {
    fn key() -> u64 {
        unreachable!()
    }

    fn erased(self) -> Value {
        unreachable!()
    }

    fn lemma_erased(self) {}

    fn lemma_mapped(self)
    where
        <Self as MapAs>::Target: MapTarget<Value>,
    {
    }

    fn collectable_key() -> u64 {
        2
    }

    fn erase(self) -> Value {
        Value::U16(self)
    }

    fn downcast(value: &Value) -> Option<&Self> {
        match value {
            Value::U16(value) => Some(value),
            _ => None,
        }
    }
}

impl Collectable<Value> for String {
    fn key() -> u64 {
        unreachable!()
    }

    fn erased(self) -> Value {
        unreachable!()
    }

    fn lemma_erased(self) {}

    fn lemma_mapped(self)
    where
        <Self as MapAs>::Target: MapTarget<Value>,
    {
    }

    fn collectable_key() -> u64 {
        3
    }

    fn erase(self) -> Value {
        Value::Text(self)
    }

    fn downcast(value: &Value) -> Option<&Self> {
        match value {
            Value::Text(value) => Some(value),
            _ => None,
        }
    }
}

impl Collectable<Value> for Vec<Ref<u32>> {
    fn key() -> u64 {
        unreachable!()
    }

    fn erased(self) -> Value {
        unreachable!()
    }

    fn lemma_erased(self) {}

    fn lemma_mapped(self)
    where
        <Self as MapAs>::Target: MapTarget<Value>,
    {
    }

    fn collectable_key() -> u64 {
        4
    }

    fn erase(self) -> Value {
        Value::Numbers(self)
    }

    fn downcast(value: &Value) -> Option<&Self> {
        match value {
            Value::Numbers(value) => Some(value),
            _ => None,
        }
    }
}

impl Collectable<Value> for Square {
    fn key() -> u64 {
        unreachable!()
    }

    fn erased(self) -> Value {
        unreachable!()
    }

    fn lemma_erased(self) {}

    fn lemma_mapped(self)
    where
        <Self as MapAs>::Target: MapTarget<Value>,
    {
    }

    fn collectable_key() -> u64 {
        5
    }

    fn erase(self) -> Value {
        Value::Square(self)
    }

    fn downcast(value: &Value) -> Option<&Self> {
        match value {
            Value::Square(value) => Some(value),
            _ => None,
        }
    }
}

impl Collectable<Value> for Error {
    fn key() -> u64 {
        unreachable!()
    }

    fn erased(self) -> Value {
        unreachable!()
    }

    fn lemma_erased(self) {}

    fn lemma_mapped(self)
    where
        <Self as MapAs>::Target: MapTarget<Value>,
    {
    }

    fn collectable_key() -> u64 {
        6
    }

    fn erase(self) -> Value {
        Value::Error(self)
    }

    fn downcast(value: &Value) -> Option<&Self> {
        match value {
            Value::Error(value) => Some(value),
            _ => None,
        }
    }
}

impl Collectable<Value> for Node {
    fn key() -> u64 {
        unreachable!()
    }

    fn erased(self) -> Value {
        unreachable!()
    }

    fn lemma_erased(self) {}

    fn lemma_mapped(self)
    where
        <Self as MapAs>::Target: MapTarget<Value>,
    {
    }

    fn collectable_key() -> u64 {
        7
    }

    fn erase(self) -> Value {
        Value::Node(self)
    }

    fn downcast(value: &Value) -> Option<&Self> {
        match value {
            Value::Node(value) => Some(value),
            _ => None,
        }
    }
}

impl MapTarget<Value> for dyn Shape + Send + Sync {
    fn key() -> u64 {
        unreachable!()
    }

    fn lemma_image(_value: &Value) {}

    fn image(_value: &Value) -> Option<&Self> {
        unreachable!()
    }

    fn map_any(value: &Value) -> Option<&Self> {
        match value {
            Value::Square(square) => Some(square.map_as()),
            _ => None,
        }
    }
}

impl MapTarget<Value> for () {
    fn key() -> u64 {
        unreachable!()
    }

    fn lemma_image(_value: &Value) {}

    fn image(_value: &Value) -> Option<&Self> {
        unreachable!()
    }

    fn map_any(value: &Value) -> Option<&Self> {
        match value {
            Value::U32(number) => Some(number.map_as()),
            Value::U16(number) => Some(number.map_as()),
            Value::Text(text) => Some(text.map_as()),
            Value::Numbers(numbers) => Some(numbers.map_as()),
            Value::Square(_) => None,
            Value::Error(error) => Some(error.map_as()),
            Value::Node(node) => Some(node.map_as()),
        }
    }
}

/// The collector and one thread that uses it.
struct World {
    global: GlobalCollector<Value>,
    thread: ThreadPool,
    now: u64,
}

impl World {
    fn new() -> Self {
        let mut global = GlobalCollector::new(0);
        let thread = ThreadPool::new(&mut global);
        World { global, thread, now: 0 }
    }

    fn guard(&mut self) -> CollectionGuard<'static> {
        CollectionGuard::acquire(&mut self.thread, &mut self.global)
    }

    fn times(&mut self) -> (u64, CollectionTimes) {
        self.now += 1;
        let now = self.now;
        self.now += 1;
        (
            now,
            CollectionTimes { gc_start: now, lock_start: now, locked: now, gc_finish: self.now },
        )
    }

    fn collect(&mut self, guard: &mut CollectionGuard<'_>) {
        let (now, times) = self.times();
        guard.collect(&mut self.thread, &mut self.global, now, times);
    }

    fn release(&mut self, guard: CollectionGuard<'_>) -> bool {
        guard.release(&mut self.thread, &mut self.global)
    }
}

#[test]
fn size_of_types() {
    assert_eq!(std::mem::size_of::<Root<u32, Value>>(), 24);
    assert_eq!(std::mem::size_of::<Ref<u32>>(), 16);
    assert_eq!(std::mem::size_of::<AnyRef>(), 16);
}

#[test]
fn casting() {
    let mut world = World::new();
    let guard = world.guard();
    let value: Root<u32, Value> = Root::new(2_u32, &guard, &mut world.global);
    let any = value.downgrade_any();
    assert_eq!(any.downcast_ref().load(&guard, &world.global), Some(&2_u32));
    assert_eq!(any.downcast_ref::<u16>().load(&guard, &world.global), None);
}

#[test]
fn ref_lifecycle() {
    let mut world = World::new();
    let mut guard = world.guard();
    let collected = Ref::new(42_u32, &guard, &mut world.global);

    assert_eq!(collected.load(&guard, &world.global), Some(&42));

    world.collect(&mut guard);

    assert_eq!(collected.load(&guard, &world.global), None);
}

#[test]
fn clone() {
    let mut world = World::new();
    let mut guard = world.guard();
    let root = Root::new(42_u32, &guard, &mut world.global);
    let clone = root.clone(&mut world.global);
    let reference = root.downgrade();

    assert_eq!(reference.load(&guard, &world.global), Some(&42));

    // This collection should not remove anything.
    world.collect(&mut guard);
    assert_eq!(reference.load(&guard, &world.global), Some(&42));

    // Drop the root reference.
    root.release(&mut world.global);

    // We still have `clone`, this should still not free our data.
    world.collect(&mut guard);
    assert_eq!(reference.load(&guard, &world.global), Some(&42));

    // Drop the clone, and now the data should be freed.
    clone.release(&mut world.global);
    world.collect(&mut guard);
    assert_eq!(reference.load(&guard, &world.global), None);
}

#[test]
fn root_lifecycle() {
    let mut world = World::new();
    let mut guard = world.guard();
    let root = Root::new(42_u32, &guard, &mut world.global);
    let reference = root.downgrade();

    assert_eq!(reference.load(&guard, &world.global), Some(&42));

    // This collection should not remove anything.
    world.collect(&mut guard);
    assert_eq!(reference.load(&guard, &world.global), Some(&42));

    // Drop the root reference.
    root.release(&mut world.global);

    // Now collection should remove the value.
    world.collect(&mut guard);

    assert_eq!(reference.load(&guard, &world.global), None);
}

#[test]
fn rooted_list_keeps_its_numbers() {
    let mut world = World::new();
    let guard = world.guard();
    let numbers: Vec<Ref<u32>> =
        (1..=3).map(|value| Ref::new(value, &guard, &mut world.global)).collect();
    let values = Root::new(numbers, &guard, &mut world.global);
    world.release(guard);

    let (now, times) = world.times();
    collect(&world.thread, &mut world.global, now, times);

    let (one, two, three) = (values.deref()[0], values.deref()[1], values.deref()[2]);
    let mut guard = world.guard();
    assert_eq!(one.load(&guard, &world.global), Some(&1));
    assert_eq!(two.load(&guard, &world.global), Some(&2));
    assert_eq!(three.load(&guard, &world.global), Some(&3));

    values.release(&mut world.global);
    world.collect(&mut guard);
    assert!(one.load(&guard, &world.global).is_none());
}

#[test]
fn traced_field_is_kept() {
    let mut world = World::new();
    let mut guard = world.guard();
    let message = Ref::new(String::from("Hello!"), &guard, &mut world.global);
    let error = Root::new(Error { message }, &guard, &mut world.global);

    world.collect(&mut guard);
    assert_eq!(message.load(&guard, &world.global).expect("still alive"), "Hello!");

    error.release(&mut world.global);
    world.collect(&mut guard);
    assert_eq!(message.load(&guard, &world.global), None);
}

#[test]
fn mapped_loading() {
    let mut world = World::new();
    let guard = world.guard();
    let square = Ref::new(Square(7), &guard, &mut world.global);
    let number = Ref::new(7_u32, &guard, &mut world.global);
    let shape = square.as_any().load_mapped::<dyn Shape + Send + Sync, Value>(&guard, &world.global);
    assert_eq!(shape.map(|shape| shape.area()), Some(49));
    assert!(number
        .as_any()
        .load_mapped::<dyn Shape + Send + Sync, Value>(&guard, &world.global)
        .is_none());
    assert_eq!(number.as_any().load_mapped::<(), Value>(&guard, &world.global), Some(&()));
    assert_eq!(square.as_any().load_mapped::<(), Value>(&guard, &world.global), None);
}

#[test]
fn mapped_loading_of_a_freed_value() {
    let mut world = World::new();
    let mut guard = world.guard();
    let square = Ref::new(Square(7), &guard, &mut world.global);
    world.collect(&mut guard);
    assert!(square
        .as_any()
        .load_mapped::<dyn Shape + Send + Sync, Value>(&guard, &world.global)
        .is_none());
}

#[test]
fn chain_is_kept_and_cycle_is_dropped() {
    let mut world = World::new();
    let mut guard = world.guard();
    let end = Ref::new(5_u32, &guard, &mut world.global);
    let middle = Ref::new(Node { next: Some(end.as_any()) }, &guard, &mut world.global);
    let start = Root::new(Node { next: Some(middle.as_any()) }, &guard, &mut world.global);
    // The slot after the next one is where the second node of the cycle goes.
    let first = Ref::new(Node { next: None }, &guard, &mut world.global);
    let second = Ref::new(Node { next: Some(first.as_any()) }, &guard, &mut world.global);
    world.collect(&mut guard);
    assert_eq!(end.load(&guard, &world.global), Some(&5));
    assert!(middle.load(&guard, &world.global).is_some());
    assert!(first.load(&guard, &world.global).is_none());
    assert!(second.load(&guard, &world.global).is_none());

    // A second collection keeps what the first one kept.
    world.collect(&mut guard);
    assert_eq!(end.load(&guard, &world.global), Some(&5));

    start.release(&mut world.global);
    world.collect(&mut guard);
    assert!(end.load(&guard, &world.global).is_none());
    assert!(middle.load(&guard, &world.global).is_none());
}

#[test]
fn self_reference_does_not_keep_a_value() {
    let mut world = World::new();
    let mut guard = world.guard();
    // The first allocation of a type is predictable.
    let probe = Ref::new(Node { next: None }, &guard, &mut world.global);
    let mut own = probe.as_any();
    own.bin_id.raw += 1;
    own.slot_generation = 1;
    let node = Ref::new(Node { next: Some(own) }, &guard, &mut world.global);
    assert_eq!(node.as_any(), own);
    world.collect(&mut guard);
    assert!(node.load(&guard, &world.global).is_none());
}

#[test]
fn reused_slot_is_not_confused() {
    let mut world = World::new();
    let mut guard = world.guard();
    let first = Ref::new(1_u32, &guard, &mut world.global);
    world.collect(&mut guard);
    let second = Ref::new(2_u32, &guard, &mut world.global);
    assert_eq!(first.as_any().bin_id, second.as_any().bin_id);
    assert_eq!(first.as_any().slot_generation, 0);
    assert_eq!(second.as_any().slot_generation, 1);
    assert!(first.load(&guard, &world.global).is_none());
    assert_eq!(second.load(&guard, &world.global), Some(&2));
    assert!(first != second);
}

#[test]
fn freed_slots_are_reused_from_the_back() {
    let mut world = World::new();
    let mut guard = world.guard();
    let refs: Vec<Ref<u32>> =
        (0..3).map(|value| Ref::new(value, &guard, &mut world.global)).collect();
    world.collect(&mut guard);
    let again: Vec<Ref<u32>> =
        (0..3).map(|value| Ref::new(value, &guard, &mut world.global)).collect();
    assert_eq!(again[0].as_any().bin_id, refs[2].as_any().bin_id);
    assert_eq!(again[1].as_any().bin_id, refs[1].as_any().bin_id);
    assert_eq!(again[2].as_any().bin_id, refs[0].as_any().bin_id);
    let fourth = Ref::new(9_u32, &guard, &mut world.global);
    assert_eq!(fourth.as_any().bin_id.raw, 259);
}

#[test]
fn many_slabs() {
    let mut world = World::new();
    let mut guard = world.guard();
    let refs: Vec<Ref<u32>> =
        (0..70_000).map(|value| Ref::new(value, &guard, &mut world.global)).collect();
    // Filling a slab asks for a collection.
    assert!(world.global.info.signalled_collector);
    for (index, reference) in refs.iter().enumerate() {
        assert_eq!(reference.load(&guard, &world.global), Some(&(index as u32)));
        assert_eq!(reference.as_any().bin_id.raw as usize, 256 + index);
    }
    let kept = refs[69_999].as_root(&guard, &mut world.global).unwrap();
    world.collect(&mut guard);
    assert_eq!(refs[69_999].load(&guard, &world.global), Some(&69_999));
    assert_eq!(kept.deref(), &69_999);
    assert!(refs[..69_999].iter().all(|r| r.load(&guard, &world.global).is_none()));
}

#[test]
fn root_counts() {
    let mut world = World::new();
    let guard = world.guard();
    let root = Root::new(3_u32, &guard, &mut world.global);
    assert_eq!(root.root_count(&world.global), 1);
    let second = root.clone(&mut world.global);
    assert_eq!(root.root_count(&world.global), 2);
    let any = root.to_any_root(&mut world.global);
    assert_eq!(root.root_count(&world.global), 3);
    let upgraded = root.downgrade_any().upgrade(&guard, &mut world.global).unwrap();
    assert_eq!(root.root_count(&world.global), 4);
    let copied = any.clone(&mut world.global);
    assert_eq!(root.root_count(&world.global), 5);
    let downcast: Root<u32, Value> = copied.downcast_root(&mut world.global).unwrap();
    assert_eq!(root.root_count(&world.global), 6);
    assert!(Root::ptr_eq(&root, &downcast));
    let into: AnyRoot<Value> = second.into_any_root();
    assert_eq!(root.root_count(&world.global), 6);
    let back = Root::<u32, Value>::try_from_any(into, &guard, &mut world.global);
    assert_eq!(root.root_count(&world.global), 6);
    match back {
        Ok(back) => back.release(&mut world.global),
        Err(_) => panic!("a number is a number"),
    }
    any.release(&mut world.global);
    upgraded.release(&mut world.global);
    copied.release(&mut world.global);
    downcast.release(&mut world.global);
    assert_eq!(root.root_count(&world.global), 1);
    assert!(!world.global.info.signalled_collector);
    root.release(&mut world.global);
    assert!(world.global.info.signalled_collector);
}

#[test]
fn untyped_roots() {
    let mut world = World::new();
    let guard = world.guard();
    let root = Root::new(3_u32, &guard, &mut world.global);
    let any = root.to_any_root(&mut world.global);
    assert_eq!(any.load::<u32>(&mut world.global), Some(&3));
    assert_eq!(any.load::<u16>(&mut world.global), None);
    assert!(any.downcast_root::<u16>(&mut world.global).is_none());
    assert!(any.downcast_checked::<u32>(&mut world.global).is_some());
    assert!(any.downcast_checked::<u16>(&mut world.global).is_none());
    assert_eq!(any.as_any(), root.downgrade_any());
    let reference: Ref<u16> = any.downcast_ref();
    assert!(reference.load(&guard, &world.global).is_none());
    assert!(root.downgrade_any().downcast_root::<u16, Value>(&guard, &mut world.global).is_none());
    assert!(root.downgrade_any().downcast_root::<u32, Value>(&guard, &mut world.global).is_some());
    assert_eq!(
        root.downgrade_any().load::<u32, Value>(&guard, &world.global),
        Some(&3)
    );
    assert!(root.downgrade_any().downcast_checked::<u32, Value>(&mut world.global).is_some());
    assert!(root.downgrade_any().downcast_checked::<u16, Value>(&mut world.global).is_none());
    match Root::<u16, Value>::try_from_any(any, &guard, &mut world.global) {
        Ok(_) => panic!("a u32 is no u16"),
        Err(returned) => assert_eq!(returned.as_any(), root.downgrade_any()),
    }
}

#[test]
fn freed_values_have_no_roots() {
    let mut world = World::new();
    let mut guard = world.guard();
    let reference = Ref::new(3_u32, &guard, &mut world.global);
    world.collect(&mut guard);
    assert!(reference.as_root(&guard, &mut world.global).is_none());
    assert!(reference.as_any().upgrade(&guard, &mut world.global).is_none());
}

#[test]
fn comparing_references() {
    let mut world = World::new();
    let guard = world.guard();
    let a = Root::new(3_u32, &guard, &mut world.global);
    let b = Root::new(3_u32, &guard, &mut world.global);
    let c = Root::new(4_u32, &guard, &mut world.global);
    assert!(a == b);
    assert!(a != c);
    assert!(!Root::ptr_eq(&a, &b));
    assert!(a == a.downgrade());
    assert!(a == &a.downgrade());
    assert!(a != b.downgrade());
    assert!(a == a.downgrade_any());
    assert!(a == &a.downgrade_any());
    assert!(a.downgrade() == a);
    assert!(a.downgrade() == &a);
    assert!(a.downgrade() == a.downgrade_any());
    assert!(a.downgrade() == &a.downgrade_any());
    assert!(a.downgrade() != b.downgrade());
    let any: AnyRef = AnyRef::from(&a);
    assert_eq!(any, AnyRef::from(a.downgrade()));
    assert_eq!(any, AnyRef::from(&a.downgrade()));
    assert_eq!(any, AnyRef::from(&any));
    let root_a: AnyRoot<Value> = AnyRoot::from(a);
    let root_b: AnyRoot<Value> = AnyRoot::from(b);
    assert!(root_a != root_b);
    assert!(root_a == root_a);
}

#[test]
fn nested_guards_would_deadlock() {
    let mut world = World::new();
    let mut guard1 = world.guard();
    let guard2 = world.guard();
    let (now, times) = world.times();
    assert_eq!(
        guard1.try_collect(&mut world.thread, &mut world.global, now, times),
        Err(WouldDeadlock)
    );
    assert_eq!(
        WouldDeadlock.to_string(),
        "current thread has a non-yielding CollectionGuard"
    );

    world.release(guard2);

    assert_eq!(guard1.try_collect(&mut world.thread, &mut world.global, now, times), Ok(()));
    assert_eq!(try_collect(&world.thread, &mut world.global, now, times), Err(WouldDeadlock));
    world.release(guard1);
    assert_eq!(try_collect(&world.thread, &mut world.global, now, times), Ok(()));
}

#[test]
fn unlocked_work() {
    let mut world = World::new();
    let mut guard = world.guard();
    assert_eq!(world.global.info.reader_state.readers(), 1);
    let readers = guard.while_unlocked(&mut world.thread, &mut world.global, |thread, global| {
        assert_eq!(thread.current_depth(), 0);
        global.info.reader_state.readers()
    });
    assert_eq!(readers, 0);
    assert_eq!(world.thread.current_depth(), 1);
    assert_eq!(world.global.info.reader_state.readers(), 1);
    let second = world.guard();
    let refused = guard.try_while_unlocked(&mut world.thread, &mut world.global, |_, _| 5);
    assert_eq!(refused, Err(WouldDeadlock));
    world.release(second);
    let done = guard.try_while_unlocked(&mut world.thread, &mut world.global, |_, _| 5);
    assert_eq!(done, Ok(5));
}

#[test]
fn yielding() {
    let mut world = World::new();
    let mut guard = world.guard();
    let reference = Ref::new(3_u32, &guard, &mut world.global);
    let (now, times) = world.times();
    // Nothing happens while the collector is not trying to collect.
    guard.yield_to_collector(&mut world.thread, &mut world.global, times);
    assert!(reference.load(&guard, &world.global).is_some());

    // The pool becomes known, and a collection is announced.
    assert_eq!(world.global.commands.len(), 1);
    let command = world.global.commands.pop_front().unwrap();
    assert!(!world.global.accept(command, now));
    world.global.collector.begin_collection(&mut world.global.info);

    // A nested guard keeps the outer one from yielding.
    let inner = world.guard();
    guard.yield_to_collector(&mut world.thread, &mut world.global, times);
    assert!(reference.load(&guard, &world.global).is_some());
    world.release(inner);

    guard.yield_to_collector(&mut world.thread, &mut world.global, times);
    assert!(reference.load(&guard, &world.global).is_none());
    assert!(!world.global.info.reader_state.collecting());
    assert_eq!(world.global.info.reader_state.readers(), 1);
}

#[test]
fn coordinated_yield() {
    let mut world = World::new();
    let mut guard = world.guard();
    let (_, times) = world.times();
    assert!(!guard
        .coordinated_yield(&mut world.thread, &mut world.global, |_, _, _| unreachable!()));
    world.global.collector.begin_collection(&mut world.global.info);
    let thread = &mut world.thread;
    let yielded = guard.coordinated_yield(thread, &mut world.global, |yielder, thread, global| {
        assert!(yielder.must_unpark());
        assert_eq!(thread.current_depth(), 0);
        assert_eq!(global.info.reader_state.readers(), 0);
        global.collect_and_notify(times);
        yielder.wait(thread, global)
    });
    assert!(yielded);
    assert_eq!(world.thread.current_depth(), 1);
    assert_eq!(world.global.info.reader_state.readers(), 1);
}

#[test]
fn a_released_guard_is_not_held() {
    let mut world = World::new();
    let mut guard = world.guard();
    let (_, times) = world.times();
    guard.while_unlocked(&mut world.thread, &mut world.global, |thread, global| {
        assert_eq!(thread.may_collect(), Ok(()));
        global.collector.begin_collection(&mut global.info);
        // The collector goes first, as if this thread never had a guard.
        assert!(CollectionGuard::must_wait(thread, global));
        assert!(CollectionGuard::try_acquire(thread, global).is_none());
        global.collect_and_notify(times);
        assert!(!CollectionGuard::must_wait(thread, global));
        let inner = CollectionGuard::acquire(thread, global);
        assert_eq!(thread.current_depth(), 1);
        inner.release(thread, global);
    });
    assert_eq!(world.thread.may_collect(), Err(WouldDeadlock));
    assert_eq!(world.global.info.reader_state.readers(), 1);
}

#[test]
fn collecting_while_unlocked() {
    let mut world = World::new();
    let mut guard = world.guard();
    let kept = Root::new(1_u32, &guard, &mut world.global);
    let dropped = Ref::new(2_u32, &guard, &mut world.global);
    let (now, times) = world.times();
    guard.while_unlocked(&mut world.thread, &mut world.global, |thread, global| {
        collect(thread, global, now, times);
        // A guard that is acquired meanwhile can be used to collect as well.
        let mut inner = CollectionGuard::acquire(thread, global);
        assert_eq!(inner.try_collect(thread, global, now, times), Ok(()));
        inner.release(thread, global);
    });
    assert_eq!(kept.downgrade().load(&guard, &world.global), Some(&1));
    assert_eq!(dropped.load(&guard, &world.global), None);
    assert_eq!(world.thread.current_depth(), 1);
}

#[test]
fn collecting_while_yielding() {
    let mut world = World::new();
    let mut guard = world.guard();
    let dropped = Ref::new(2_u32, &guard, &mut world.global);
    let (now, times) = world.times();
    world.global.collector.begin_collection(&mut world.global.info);
    let thread = &mut world.thread;
    let yielded = guard.coordinated_yield(thread, &mut world.global, |yielder, thread, global| {
        assert_eq!(try_collect(thread, global, now, times), Ok(()));
        yielder.wait(thread, global)
    });
    assert!(yielded);
    assert_eq!(dropped.load(&guard, &world.global), None);
    assert_eq!(world.global.info.reader_state.readers(), 1);
}

#[test]
fn releasing_and_acquiring_by_hand() {
    let mut world = World::new();
    let mut guard = world.guard();
    let nested = world.guard();
    assert!(guard.unlock(&mut world.thread, &mut world.global).is_err());
    assert!(guard.begin_yield(&mut world.thread, &mut world.global).is_none());
    world.release(nested);

    assert_eq!(guard.unlock(&mut world.thread, &mut world.global), Ok(false));
    assert_eq!(world.global.info.reader_state.readers(), 0);
    guard.relock(&mut world.thread, &mut world.global);
    assert_eq!(world.thread.current_depth(), 1);
    assert!(guard.begin_yield(&mut world.thread, &mut world.global).is_none());

    // The last reader wakes the collector up.
    let (_, times) = world.times();
    world.global.collector.begin_collection(&mut world.global.info);
    assert_eq!(guard.unlock(&mut world.thread, &mut world.global), Ok(true));
    world.global.collect_and_notify(times);
    guard.relock(&mut world.thread, &mut world.global);
    assert_eq!(world.global.info.reader_state.readers(), 1);
}

#[test]
fn requested_collections_are_queued() {
    let mut world = World::new();
    let mut guard = world.guard();
    let dropped = Ref::new(2_u32, &guard, &mut world.global);
    let (now, times) = world.times();
    world.global.request_collection(now);
    assert_eq!(world.global.commands.len(), 2);
    assert_eq!(dropped.load(&guard, &world.global), Some(&2));
    guard.while_unlocked(&mut world.thread, &mut world.global, |_, global| global.run(times));
    assert!(world.global.commands.is_empty());
    assert_eq!(dropped.load(&guard, &world.global), None);
}

#[test]
fn a_spent_reference_stays_spent() {
    let mut world = World::new();
    let mut guard = world.guard();
    let first = Ref::new(0_u32, &guard, &mut world.global);
    for value in 1..=5_u32 {
        world.collect(&mut guard);
        let next = Ref::new(value, &guard, &mut world.global);
        assert_eq!(next.as_any().bin_id, first.as_any().bin_id);
        assert_eq!(next.as_any().slot_generation, value);
        assert_eq!(first.load(&guard, &world.global), None);
        assert_eq!(next.load(&guard, &world.global), Some(&value));
    }
}

#[test]
fn ordering_references() {
    let mut world = World::new();
    let guard = world.guard();
    let three = Root::new(3_u32, &guard, &mut world.global);
    let two = Root::new(2_u32, &guard, &mut world.global);
    let three_again = Root::new(3_u32, &guard, &mut world.global);
    // Roots are ordered as their values are.
    assert_eq!(three.partial_cmp(&two), Some(Ordering::Greater));
    assert_eq!(two.partial_cmp(&three), Some(Ordering::Less));
    assert_eq!(three.partial_cmp(&three_again), Some(Ordering::Equal));
    // References are ordered by where they point.
    let (first, second) = (three.downgrade(), two.downgrade());
    assert!(first < second);
    assert!(second > first);
    assert_eq!(first.partial_cmp(&first), Some(Ordering::Equal));
    assert_eq!(first.partial_cmp(&second), first.as_any().partial_cmp(&second.as_any()));
}

#[test]
fn an_announced_collection_runs_when_one_is_requested() {
    let mut world = World::new();
    let mut guard = world.guard();
    let kept = Root::new(1_u32, &guard, &mut world.global);
    let dropped = Ref::new(2_u32, &guard, &mut world.global);
    world.global.collector.begin_collection(&mut world.global.info);
    world.collect(&mut guard);
    assert!(!world.global.info.reader_state.collecting());
    assert_eq!(world.global.info.reader_state.readers(), 1);
    assert_eq!(world.global.info.last_run, world.now);
    assert_eq!(kept.downgrade().load(&guard, &world.global), Some(&1));
    assert!(dropped.load(&guard, &world.global).is_none());
}

#[test]
fn acquiring_while_the_collector_waits() {
    let mut world = World::new();
    assert!(!CollectionGuard::must_wait(&world.thread, &world.global));
    let guard = world.guard();
    world.global.collector.begin_collection(&mut world.global.info);
    let mut other = ThreadPool::new(&mut world.global);
    assert!(CollectionGuard::must_wait(&other, &world.global));
    assert!(CollectionGuard::try_acquire(&mut other, &mut world.global).is_none());
    assert_eq!(other.current_depth(), 0);
    // A thread that has a guard gets more of them.
    assert!(!CollectionGuard::must_wait(&world.thread, &world.global));
    let nested = CollectionGuard::try_acquire(&mut world.thread, &mut world.global).unwrap();
    assert!(!world.release(nested));
    // The last guard wakes the collector up.
    assert!(world.release(guard));
}

#[test]
fn other_pools() {
    let mut world = World::new();
    let pool = LocalPool::new(&mut world.global);
    let mut guard = world.guard();
    let inner = guard.allocating_in(&pool, &mut world.thread, &mut world.global);
    let reference = Ref::new(3_u32, &inner, &mut world.global);
    let rooted = Root::new(4_u32, &inner, &mut world.global);
    world.release(inner);
    assert_eq!(reference.as_any().creating_thread, pool.thread_id);
    assert_eq!(reference.load(&guard, &world.global), Some(&3));
    world.collect(&mut guard);
    assert_eq!(reference.load(&guard, &world.global), None);
    assert_eq!(rooted.downgrade().load(&guard, &world.global), Some(&4));
    world.release(guard);

    let entered = pool.enter(&mut world.thread, &mut world.global);
    assert_eq!(entered.thread.pool().thread_id, pool.thread_id);
    world.release(entered);

    // The pool stays while it holds a value, although it has no handle.
    let weak = rooted.downgrade();
    let id = pool.thread_id;
    let shared = pool.share(&mut world.global);
    pool.release(&mut world.global);
    assert_eq!(world.global.info.all_threads.handle_count(id), Some(1));
    shared.release(&mut world.global);
    let mut guard = world.guard();
    world.collect(&mut guard);
    assert!(world.global.info.all_threads.has_pool(id));
    assert_eq!(weak.load(&guard, &world.global), Some(&4));
    rooted.release(&mut world.global);
    world.collect(&mut guard);
    assert!(!world.global.info.all_threads.has_pool(id));
    assert_eq!(weak.load(&guard, &world.global), None);
}

#[test]
fn last_thread_drops_everything_unrooted() {
    let mut world = World::new();
    let guard = world.guard();
    let reference = Ref::new(3_u32, &guard, &mut world.global);
    world.release(guard);
    let ThreadPool { pool, .. } = world.thread;
    pool.release(&mut world.global);
    world.global.run(CollectionTimes { gc_start: 1, lock_start: 1, locked: 1, gc_finish: 1 });
    assert_eq!(world.global.collector.active_threads, 0);
    let mut thread = ThreadPool::new(&mut world.global);
    let guard = CollectionGuard::acquire(&mut thread, &mut world.global);
    assert_eq!(thread.pool.thread_id.id, 1);
    assert_eq!(reference.load(&guard, &world.global), None);
}

#[test]
fn last_thread_keeps_rooted_values() {
    let mut world = World::new();
    let guard = world.guard();
    let root = Root::new(3_u32, &guard, &mut world.global);
    world.release(guard);
    let ThreadPool { pool, .. } = world.thread;
    pool.release(&mut world.global);
    let times = CollectionTimes { gc_start: 1, lock_start: 1, locked: 1, gc_finish: 1 };
    world.global.run(times);
    assert_eq!(world.global.collector.active_threads, 0);
    assert_eq!(root.root_count(&world.global), 1);
    root.release(&mut world.global);
}

#[test]
fn a_pool_that_is_not_known_yet_is_collected() {
    let mut world = World::new();
    let guard = world.guard();
    let reference = Ref::new(3_u32, &guard, &mut world.global);
    let root = Root::new(4_u32, &guard, &mut world.global);
    world.release(guard);
    let (_, times) = world.times();
    // The command that makes the pool known was not carried out.
    world.global.collect_and_notify(times);
    let guard = world.guard();
    assert_eq!(reference.load(&guard, &world.global), None);
    assert_eq!(root.downgrade().load(&guard, &world.global), Some(&4));
}

#[test]
fn a_root_in_a_new_pool_keeps_values_of_others() {
    let mut world = World::new();
    let mut guard = world.guard();
    world.collect(&mut guard);
    let kept = Ref::new(7_u32, &guard, &mut world.global);
    let (_, times) = world.times();
    world.global.collector.begin_collection(&mut world.global.info);
    // The pool becomes known only after the announced collection.
    let pool = LocalPool::new(&mut world.global);
    let inner = guard.allocating_in(&pool, &mut world.thread, &mut world.global);
    let list = Root::new(vec![kept], &inner, &mut world.global);
    world.release(inner);
    guard.yield_to_collector(&mut world.thread, &mut world.global, times);
    assert!(!world.global.info.reader_state.collecting());
    assert_eq!(kept.load(&guard, &world.global), Some(&7));
    list.release(&mut world.global);
    world.collect(&mut guard);
    assert_eq!(kept.load(&guard, &world.global), None);
}

#[test]
fn the_last_thread_spares_values_that_are_rooted_elsewhere() {
    let mut world = World::new();
    let mut guard = world.guard();
    world.collect(&mut guard);
    let kept = Ref::new(7_u32, &guard, &mut world.global);
    world.release(guard);
    let World { mut global, thread: ThreadPool { pool, .. }, .. } = world;
    pool.release(&mut global);
    // The only known pool is shut down while a new one roots its value.
    let mut other = ThreadPool::new(&mut global);
    let guard = CollectionGuard::acquire(&mut other, &mut global);
    let list = Root::new(vec![kept], &guard, &mut global);
    let command = global.commands.pop_front().unwrap();
    assert!(!global.accept(command, 9));
    assert_eq!(global.collector.active_threads, 0);
    assert_eq!(kept.load(&guard, &global), Some(&7));
    list.release(&mut global);
}

#[test]
fn the_last_thread_spares_values_while_a_guard_is_held() {
    let mut world = World::new();
    let mut guard = world.guard();
    world.collect(&mut guard);
    let kept = Ref::new(7_u32, &guard, &mut world.global);
    world.release(guard);
    let World { mut global, thread: ThreadPool { pool, .. }, .. } = world;
    pool.release(&mut global);
    let mut other = ThreadPool::new(&mut global);
    let guard = CollectionGuard::acquire(&mut other, &mut global);
    let command = global.commands.pop_front().unwrap();
    assert!(!global.accept(command, 9));
    assert_eq!(kept.load(&guard, &global), Some(&7));
    guard.release(&mut other, &mut global);
}

#[test]
fn values_two_references_away_are_kept() {
    let mut world = World::new();
    let mut guard = world.guard();
    let c = Ref::new(7_u32, &guard, &mut world.global);
    let b = Ref::new(vec![c], &guard, &mut world.global);
    let a = Root::new(Node { next: Some(b.as_any()) }, &guard, &mut world.global);
    let d = Ref::new(9_u32, &guard, &mut world.global);
    world.collect(&mut guard);
    assert_eq!(c.load(&guard, &world.global), Some(&7));
    assert_eq!(b.load(&guard, &world.global).map(Vec::len), Some(1));
    assert_eq!(d.load(&guard, &world.global), None);
    assert_eq!(a.root_count(&world.global), 1);
}

#[test]
fn room_for_more() {
    let mut world = World::new();
    let guard = world.guard();
    assert!(guard.has_room::<u32, Value>(&mut world.global));
    assert!(world.global.info.all_threads.has_vacancy());
}
