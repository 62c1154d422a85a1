//! Interned strings.

use std::cmp::Ordering;

use refuse::collector::CollectionTimes;
use refuse::global::GlobalCollector;
use refuse::guard::{CollectionGuard, LocalPool, ThreadPool};
use refuse::pool::{PooledString, RefString, RootString, StringPool};
use refuse::reference::Root;

struct World {
    global: GlobalCollector<PooledString>,
    thread: ThreadPool,
    pool: StringPool<PooledString>,
    now: u64,
}

impl World {
    fn new() -> Self {
        let mut global = GlobalCollector::new(0);
        let thread = ThreadPool::new(&mut global);
        let allocator = LocalPool::new(&mut global);
        let pool = StringPool::new(allocator, &global);
        World { global, thread, pool, now: 0 }
    }

    fn guard(&mut self) -> CollectionGuard<'static> {
        CollectionGuard::acquire(&mut self.thread, &mut self.global)
    }

    fn root(&mut self, s: &str, guard: &CollectionGuard<'_>) -> RootString<PooledString> {
        RootString::new(
            String::from(s),
            guard,
            &mut self.pool,
            &mut self.thread,
            &mut self.global,
        )
    }

    fn hashed(&mut self, s: &str, hash: u64, guard: &CollectionGuard<'_>) -> RootString<PooledString> {
        RootString::with_hash(
            String::from(s),
            hash,
            guard,
            &mut self.pool,
            &mut self.thread,
            &mut self.global,
        )
    }

    fn release(&mut self, string: RootString<PooledString>) {
        string.release(&mut self.pool, &mut self.global);
    }

    fn collect(&mut self, guard: &mut CollectionGuard<'_>) {
        self.now += 2;
        let times = CollectionTimes {
            gc_start: self.now,
            lock_start: self.now,
            locked: self.now,
            gc_finish: self.now + 1,
        };
        guard.collect(&mut self.thread, &mut self.global, self.now, times);
    }
}

#[test]
fn intern() {
    let mut world = World::new();
    let mut guard = world.guard();
    let a = world.root("a", &guard);
    let b = world.root("a", &guard);
    assert!(Root::ptr_eq(&a.root, &b.root));

    let as_ref = a.downgrade();
    world.release(a);
    world.release(b);
    assert_eq!(as_ref.load(&guard, &world.global), Some("a"));

    world.collect(&mut guard);

    let _a = world.root("a", &guard);
    assert!(as_ref.load(&guard, &world.global).is_none());
}

#[test]
fn reintern_nocollect() {
    let mut world = World::new();
    let guard = world.guard();
    let a = world.root("reintern", &guard);
    let original = a.downgrade();
    world.release(a);
    let a = world.root("reintern", &guard);
    assert!(a.root == original.reference);
    guard.release(&mut world.thread, &mut world.global);
}

#[test]
fn strings_are_counted_and_freed() {
    let mut world = World::new();
    let mut guard = world.guard();
    let a = world.root("a", &guard);
    let a_again = world.root("a", &guard);

    // Both a and a_again point to the same underlying storage.
    assert_eq!(a.root_count(&world.pool, &world.global), 2);
    assert!(a == a_again);

    // a_ref can be used to gain a reference to a string,
    // but only until the string is unreachable.
    let a_ref = a.downgrade();
    assert_eq!(a_ref.load(&guard, &world.global), Some("a"));

    world.release(a);
    world.release(a_again);
    world.collect(&mut guard);
    assert_eq!(a_ref.load(&guard, &world.global), None);
}

#[test]
fn different_texts_are_different() {
    let mut world = World::new();
    let guard = world.guard();
    let a = world.root("a", &guard);
    let b = world.root("b", &guard);
    assert!(a != b);
    assert_eq!(a.as_str(), "a");
    assert_eq!(b.as_str(), "b");
    assert_eq!(a.root_count(&world.pool, &world.global), 1);
    assert!(a == *"a");
    assert!(a == "a");
    assert!(a == String::from("a"));
    assert!(a == &String::from("a"));
    assert!(a != *"b");
    assert!(a == a.downgrade());
    assert!(a.downgrade() == a);
    assert!(a.downgrade() != b.downgrade());
}

#[test]
fn equal_hashes_do_not_matter() {
    let mut world = World::new();
    let guard = world.guard();
    let a = world.hashed("a", 7, &guard);
    let b = world.hashed("b", 7, &guard);
    let again = world.hashed("b", 7, &guard);
    assert!(a != b);
    assert!(b == again);
    assert_eq!(a.hash(), 7);
    assert_eq!(world.pool.entries.len(), 2);
}

#[test]
fn many_strings() {
    let mut world = World::new();
    let guard = world.guard();
    let strings: Vec<RootString<PooledString>> =
        (0..1000).map(|number| world.root(&format!("s{number}"), &guard)).collect();
    for (number, string) in strings.iter().enumerate() {
        let again = world.root(&format!("s{number}"), &guard);
        assert!(*string == again);
        assert_eq!(string.root_count(&world.pool, &world.global), 2);
    }
    assert_eq!(world.pool.entries.len(), 1000);
}

#[test]
fn references_to_strings() {
    let mut world = World::new();
    let mut guard = world.guard();
    let weak = RefString::new(
        String::from("x"),
        &guard,
        &mut world.pool,
        &mut world.thread,
        &mut world.global,
    );
    assert_eq!(weak.load(&guard, &world.global), Some("x"));
    let root = weak.as_root(&guard, &mut world.global).unwrap();
    assert_eq!(root.as_str(), "x");
    assert_eq!(root.root_count(&world.pool, &world.global), 1);
    assert!(RefString::from_any(weak.as_any(), &mut world.global).is_some());
    let mut other = weak.as_any();
    other.type_index.index += 1;
    assert!(RefString::from_any(other, &mut world.global).is_none());
    assert_eq!(weak.as_any(), root.downgrade_any());
    world.release(root);
    world.collect(&mut guard);
    assert!(weak.as_root(&guard, &mut world.global).is_none());
}

#[test]
fn a_root_without_the_pool_is_counted() {
    let mut world = World::new();
    let guard = world.guard();
    let a = world.root("a", &guard);
    let weak = a.downgrade();
    world.release(a);
    // The pool has given up its root, so this is the only one.
    let root = weak.as_root(&guard, &mut world.global).unwrap();
    assert_eq!(root.root.root_count(&world.global), 1);
    assert_eq!(root.root_count(&world.pool, &world.global), 1);
    world.release(root);
}

#[test]
fn untyped_strings() {
    let mut world = World::new();
    let guard = world.guard();
    let a = world.root("a", &guard);
    let copy = a.clone(&mut world.global);
    let any = copy.root.into_any_root();
    match RootString::try_from_any(any, &guard, &mut world.global) {
        Ok(string) => assert!(string == a),
        Err(_) => panic!("a string is a string"),
    }
    assert_eq!(a.root_count(&world.pool, &world.global), 2);
}

#[test]
fn strings_are_ordered_as_their_texts() {
    let mut world = World::new();
    let guard = world.guard();
    let a = world.root("a", &guard);
    let ab = world.root("ab", &guard);
    let b = world.root("b", &guard);
    let accented = world.root("\u{e4}", &guard);
    let empty = world.root("", &guard);
    let a_again = world.root("a", &guard);
    assert_eq!(a.partial_cmp(&a_again), Some(Ordering::Equal));
    assert_eq!(a.partial_cmp(&ab), Some(Ordering::Less));
    assert_eq!(b.partial_cmp(&ab), Some(Ordering::Greater));
    assert_eq!(b.partial_cmp(&accented), "b".partial_cmp("\u{e4}"));
    assert!(empty < a);
    let (first, second) = (a.downgrade(), ab.downgrade());
    assert!(first < second);
    assert_eq!(first.partial_cmp(&a_again.downgrade()), Some(Ordering::Equal));
}

#[test]
fn a_reference_to_a_freed_string_loads_nothing() {
    let mut world = World::new();
    let mut guard = world.guard();
    let a = world.hashed("a", 1, &guard);
    let old = a.downgrade();
    world.release(a);
    world.collect(&mut guard);
    assert!(old.load(&guard, &world.global).is_none());
    // Neither the same text nor another one in its place brings it back.
    let b = world.hashed("b", 1, &guard);
    assert_eq!(b.downgrade().reference.as_any().bin_id, old.reference.as_any().bin_id);
    assert!(old.load(&guard, &world.global).is_none());
    let a = world.hashed("a", 1, &guard);
    assert!(old.load(&guard, &world.global).is_none());
    assert_eq!(a.downgrade().load(&guard, &world.global), Some("a"));
}

#[test]
fn strings_have_room() {
    let mut world = World::new();
    assert!(world.pool.has_room(&mut world.global));
    assert!(world.pool.can_add_roots(&world.global));
}
