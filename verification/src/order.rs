//! How references, roots and strings are ordered.

use std::cmp::Ordering;
use vstd::prelude::*;
use vstd::std_specs::cmp::PartialOrdSpec;
use vstd::utf8::encode_utf8;

use crate::any_ref::AnyRef;
use crate::equality::{lemma_value_of, value_of};
use crate::pool::{lemma_pooled, PooledString, RefString, RootString};
use crate::reference::{Ref, Root};
use crate::trace::{AnyValue, Collectable};

verus! {

/// The order of two numbers.
pub open spec fn order_numbers(a: u32, b: u32) -> Ordering {
    if a < b {
        Ordering::Less
    } else if a > b {
        Ordering::Greater
    } else {
        Ordering::Equal
    }
}

/// The first order, unless it is equal.
pub open spec fn order_then(first: Ordering, second: Ordering) -> Ordering {
    match first {
        Ordering::Equal => second,
        other => other,
    }
}

/// References are ordered by slot, pool, type and generation.
pub open spec fn order_refs(a: AnyRef, b: AnyRef) -> Ordering {
    order_then(
        order_numbers(a.bin_id.raw, b.bin_id.raw),
        order_then(
            order_numbers(a.creating_thread.id, b.creating_thread.id),
            order_then(
                order_numbers(a.type_index.index, b.type_index.index),
                order_numbers(a.slot_generation, b.slot_generation),
            ),
        ),
    )
}

/// Returns the order of two numbers.
fn compare_numbers(a: u32, b: u32) -> (order: Ordering)
    ensures
        order == order_numbers(a, b),
{
    if a < b {
        Ordering::Less
    } else if a > b {
        Ordering::Greater
    } else {
        Ordering::Equal
    }
}

/// Returns the order of two references.
fn compare_refs(a: AnyRef, b: AnyRef) -> (order: Ordering)
    ensures
        order == order_refs(a, b),
{
    match compare_numbers(a.bin_id.raw, b.bin_id.raw) {
        Ordering::Equal => {},
        other => return other,
    }
    match compare_numbers(a.creating_thread.id, b.creating_thread.id) {
        Ordering::Equal => {},
        other => return other,
    }
    match compare_numbers(a.type_index.index, b.type_index.index) {
        Ordering::Equal => {},
        other => return other,
    }
    compare_numbers(a.slot_generation, b.slot_generation)
}

impl<T> PartialOrd for Ref<T> {
    fn partial_cmp(&self, other: &Self) -> (order: Option<Ordering>) {
        Some(compare_refs(self.any, other.any))
    }
}

impl<T> vstd::std_specs::cmp::PartialOrdSpecImpl for Ref<T> {
    open spec fn obeys_partial_cmp_spec() -> bool {
        true
    }

    open spec fn partial_cmp_spec(&self, other: &Self) -> Option<Ordering> {
        Some(order_refs(self.any, other.any))
    }
}

impl PartialOrd for RefString {
    fn partial_cmp(&self, other: &Self) -> (order: Option<Ordering>) {
        Some(compare_refs(self.reference.any, other.reference.any))
    }
}

impl vstd::std_specs::cmp::PartialOrdSpecImpl for RefString {
    open spec fn obeys_partial_cmp_spec() -> bool {
        true
    }

    open spec fn partial_cmp_spec(&self, other: &Self) -> Option<Ordering> {
        Some(order_refs(self.reference.any, other.reference.any))
    }
}

impl<T: Collectable<V> + PartialOrd, V: AnyValue> PartialOrd for Root<T, V> {
    /// Roots are ordered as their values are.
    fn partial_cmp(&self, other: &Self) -> (order: Option<Ordering>) {
        match (T::downcast(&self.data), T::downcast(&other.data)) {
            (Some(a), Some(b)) => {
                proof {
                    lemma_value_of(*self, *a);
                    lemma_value_of(*other, *b);
                }
                a.partial_cmp(b)
            },
            _ => None,
        }
    }
}

impl<T: Collectable<V> + PartialOrd, V: AnyValue> vstd::std_specs::cmp::PartialOrdSpecImpl for Root<T, V> {
    open spec fn obeys_partial_cmp_spec() -> bool {
        T::obeys_partial_cmp_spec()
    }

    open spec fn partial_cmp_spec(&self, other: &Self) -> Option<Ordering> {
        match (value_of(*self), value_of(*other)) {
            (Some(a), Some(b)) => a.partial_cmp_spec(&b),
            _ => None,
        }
    }
}

/// Texts are ordered by the first byte in which they differ; a text comes after
/// the texts that it starts with.
pub open spec fn order_bytes(a: Seq<u8>, b: Seq<u8>) -> Ordering
    decreases a.len(),
{
    if a.len() == 0 {
        if b.len() == 0 {
            Ordering::Equal
        } else {
            Ordering::Less
        }
    } else if b.len() == 0 {
        Ordering::Greater
    } else if a[0] < b[0] {
        Ordering::Less
    } else if a[0] > b[0] {
        Ordering::Greater
    } else {
        order_bytes(a.skip(1), b.skip(1))
    }
}

/// The order of two texts.
pub open spec fn order_texts(a: Seq<char>, b: Seq<char>) -> Ordering {
    order_bytes(encode_utf8(a), encode_utf8(b))
}

/// Only equal sequences are ordered equally.
proof fn lemma_equal_bytes(a: Seq<u8>, b: Seq<u8>)
    ensures
        order_bytes(a, b) == Ordering::Equal <==> a == b,
    decreases a.len(),
{
    if a.len() > 0 && b.len() > 0 {
        lemma_equal_bytes(a.skip(1), b.skip(1));
        if a[0] == b[0] && a.skip(1) == b.skip(1) {
            assert(a =~= seq![a[0]] + a.skip(1));
            assert(b =~= seq![b[0]] + b.skip(1));
        }
    } else if a.len() == 0 && b.len() == 0 {
        assert(a =~= b);
    }
}

/// Only equal texts are ordered equally.
pub proof fn law_equal_texts_are_ordered_equally(a: Seq<char>, b: Seq<char>)
    ensures
        order_texts(a, b) == Ordering::Equal <==> a == b,
{
    lemma_equal_bytes(encode_utf8(a), encode_utf8(b));
    vstd::utf8::encode_utf8_decode_utf8(a);
    vstd::utf8::encode_utf8_decode_utf8(b);
}

/// The bytes from the position on.
spec fn rest_of(bytes: Seq<u8>, position: usize) -> Seq<u8> {
    bytes.skip(position as int)
}

/// The bytes from a position on are the byte there and those after it.
proof fn lemma_rest(bytes: Seq<u8>, position: usize, next: usize)
    requires
        position < bytes.len(),
        next == position + 1,
    ensures
        rest_of(bytes, position).len() > 0,
        rest_of(bytes, position)[0] == bytes[position as int],
        rest_of(bytes, position).skip(1) == rest_of(bytes, next),
{
    assert(rest_of(bytes, position).skip(1) =~= rest_of(bytes, next));
}

/// Returns the order of two texts.
fn compare_texts(a: &str, b: &str) -> (order: Ordering)
    ensures
        order == order_texts(a@, b@),
{
    let first: &[u8] = a.as_bytes();
    let second: &[u8] = b.as_bytes();
    let mut i: usize = 0;
    proof {
        assert(rest_of(first@, 0) =~= first@);
        assert(rest_of(second@, 0) =~= second@);
    }
    while i < first.len() && i < second.len()
        invariant
            i <= first@.len(),
            i <= second@.len(),
            order_bytes(rest_of(first@, i), rest_of(second@, i)) == order_texts(a@, b@),
        decreases first@.len() - i,
    {
        let next: usize = i + 1;
        proof {
            lemma_rest(first@, i, next);
            lemma_rest(second@, i, next);
        }
        if first[i] < second[i] {
            return Ordering::Less;
        }
        if first[i] > second[i] {
            return Ordering::Greater;
        }
        i = next;
    }
    if i < first.len() {
        Ordering::Greater
    } else if i < second.len() {
        Ordering::Less
    } else {
        Ordering::Equal
    }
}

impl<V: AnyValue> PartialOrd for RootString<V> where PooledString: Collectable<V> {
    /// Strings are ordered as their texts are.
    fn partial_cmp(&self, other: &Self) -> (order: Option<Ordering>) {
        match (PooledString::downcast(&self.root.data), PooledString::downcast(&other.root.data)) {
            (Some(a), Some(b)) => {
                proof {
                    lemma_pooled::<V>(*a);
                    lemma_pooled::<V>(*b);
                }
                Some(compare_texts(a.string.as_str(), b.string.as_str()))
            },
            _ => None,
        }
    }
}

impl<V: AnyValue> vstd::std_specs::cmp::PartialOrdSpecImpl for RootString<V> where PooledString: Collectable<V> {
    open spec fn obeys_partial_cmp_spec() -> bool {
        true
    }

    open spec fn partial_cmp_spec(&self, other: &Self) -> Option<Ordering> {
        if self.root.wf() && other.root.wf() {
            Some(order_texts(self.text(), other.text()))
        } else {
            None
        }
    }
}

} // verus!
