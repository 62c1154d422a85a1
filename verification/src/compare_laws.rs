//! How references, roots and strings compare.

use std::cmp::Ordering;
use vstd::prelude::*;
use vstd::std_specs::cmp::{PartialEqSpec, PartialOrdSpec};
use vstd::utf8::encode_utf8;

use crate::any_ref::AnyRef;
use crate::equality::lemma_value_of;
use crate::order::{order_bytes, order_texts};
use crate::pool::{lemma_pooled, PooledString, RefString, RootString};
use crate::reference::{AnyRoot, Ref, Root};
use crate::trace::{AnyValue, Collectable};

verus! {

/// Two byte sequences that agree before an index are ordered by the bytes there.
proof fn lemma_first_difference(a: Seq<u8>, b: Seq<u8>, i: int)
    requires
        0 <= i < a.len(),
        i < b.len(),
        forall|j: int| 0 <= j < i ==> a[j] == b[j],
        a[i] < b[i],
    ensures
        order_bytes(a, b) == Ordering::Less,
        order_bytes(b, a) == Ordering::Greater,
    decreases i,
{
    if i > 0 {
        let shorter_a = a.skip(1);
        let shorter_b = b.skip(1);
        assert forall|j: int| 0 <= j < i - 1 implies shorter_a[j] == shorter_b[j] by {
            assert(a[j + 1] == b[j + 1]);
        }
        assert(a[0] == b[0]);
        lemma_first_difference(shorter_a, shorter_b, i - 1);
    }
}

/// A byte sequence comes before the longer ones that start with it.
proof fn lemma_prefix(a: Seq<u8>, b: Seq<u8>)
    requires
        a.len() < b.len(),
        forall|j: int| 0 <= j < a.len() ==> a[j] == b[j],
    ensures
        order_bytes(a, b) == Ordering::Less,
        order_bytes(b, a) == Ordering::Greater,
    decreases a.len(),
{
    if a.len() > 0 {
        let shorter_a = a.skip(1);
        let shorter_b = b.skip(1);
        assert forall|j: int| 0 <= j < shorter_a.len() implies shorter_a[j] == shorter_b[j] by {
            assert(a[j + 1] == b[j + 1]);
        }
        assert(a[0] == b[0]);
        lemma_prefix(shorter_a, shorter_b);
    }
}

/// A byte sequence is ordered equally to itself.
proof fn lemma_same_bytes(a: Seq<u8>)
    ensures
        order_bytes(a, a) == Ordering::Equal,
    decreases a.len(),
{
    if a.len() > 0 {
        lemma_same_bytes(a.skip(1));
    }
}

/// Texts whose encodings agree before a byte are ordered by that byte.
pub proof fn law_first_different_byte_decides(a: Seq<char>, b: Seq<char>, i: int)
    requires
        0 <= i < encode_utf8(a).len(),
        i < encode_utf8(b).len(),
        forall|j: int| 0 <= j < i ==> encode_utf8(a)[j] == encode_utf8(b)[j],
        encode_utf8(a)[i] < encode_utf8(b)[i],
    ensures
        order_texts(a, b) == Ordering::Less,
        order_texts(b, a) == Ordering::Greater,
{
    lemma_first_difference(encode_utf8(a), encode_utf8(b), i);
}

/// A text comes before the longer texts that start with it, and is ordered equally
/// to itself alone.
pub proof fn law_prefix_comes_first(a: Seq<char>, b: Seq<char>)
    requires
        encode_utf8(a).len() <= encode_utf8(b).len(),
        forall|j: int|
            0 <= j < encode_utf8(a).len() ==> encode_utf8(a)[j] == encode_utf8(b)[j],
    ensures
        a != b ==> encode_utf8(a).len() < encode_utf8(b).len() && order_texts(a, b)
            == Ordering::Less && order_texts(b, a) == Ordering::Greater,
        a == b ==> order_texts(a, b) == Ordering::Equal,
{
    if encode_utf8(a).len() < encode_utf8(b).len() {
        lemma_prefix(encode_utf8(a), encode_utf8(b));
    } else {
        assert(encode_utf8(a) =~= encode_utf8(b));
        vstd::utf8::encode_utf8_decode_utf8(a);
        vstd::utf8::encode_utf8_decode_utf8(b);
        lemma_same_bytes(encode_utf8(a));
    }
}

/// Strings whose texts agree before a byte are ordered by that byte.
pub proof fn law_strings_are_ordered_by_their_bytes<V: AnyValue>(
    a: RootString<V>,
    b: RootString<V>,
    p: PooledString,
    q: PooledString,
    i: int,
) where PooledString: Collectable<V>
    requires
        a.root.wf(),
        b.root.wf(),
        *a.root.data == p.erased(),
        *b.root.data == q.erased(),
        0 <= i < encode_utf8(p.string@).len(),
        i < encode_utf8(q.string@).len(),
        forall|j: int|
            0 <= j < i ==> encode_utf8(p.string@)[j] == encode_utf8(q.string@)[j],
        encode_utf8(p.string@)[i] < encode_utf8(q.string@)[i],
    ensures
        RootString::<V>::obeys_partial_cmp_spec(),
        a.partial_cmp_spec(&b) == Some(Ordering::Less),
        b.partial_cmp_spec(&a) == Some(Ordering::Greater),
{
    lemma_pooled::<V>(p);
    lemma_pooled::<V>(q);
    law_first_different_byte_decides(p.string@, q.string@, i);
}

/// A string comes before the strings whose longer texts start with its own, and is
/// ordered equally to those with its text.
pub proof fn law_shorter_strings_come_first<V: AnyValue>(
    a: RootString<V>,
    b: RootString<V>,
    p: PooledString,
    q: PooledString,
) where PooledString: Collectable<V>
    requires
        a.root.wf(),
        b.root.wf(),
        *a.root.data == p.erased(),
        *b.root.data == q.erased(),
        encode_utf8(p.string@).len() <= encode_utf8(q.string@).len(),
        forall|j: int|
            0 <= j < encode_utf8(p.string@).len() ==> encode_utf8(p.string@)[j] == encode_utf8(
                q.string@,
            )[j],
    ensures
        p.string@ != q.string@ ==> a.partial_cmp_spec(&b) == Some(Ordering::Less)
            && b.partial_cmp_spec(&a) == Some(Ordering::Greater),
        p.string@ == q.string@ ==> a.partial_cmp_spec(&b) == Some(Ordering::Equal),
{
    lemma_pooled::<V>(p);
    lemma_pooled::<V>(q);
    law_prefix_comes_first(p.string@, q.string@);
}

/// References are ordered by slot; references to equal slots by pool, then by type,
/// then by generation.
pub proof fn law_references_are_ordered<T>(a: Ref<T>, b: Ref<T>)
    ensures
        Ref::<T>::obeys_partial_cmp_spec(),
        ({
            let (x, y) = (a.any, b.any);
            let same_slot = x.bin_id.raw == y.bin_id.raw;
            let same_pool = same_slot && x.creating_thread.id == y.creating_thread.id;
            let same_type = same_pool && x.type_index.index == y.type_index.index;
            &&& a.partial_cmp_spec(&b) == Some(Ordering::Less) <==> x.bin_id.raw < y.bin_id.raw
                || same_slot && x.creating_thread.id < y.creating_thread.id || same_pool
                && x.type_index.index < y.type_index.index || same_type && x.slot_generation
                < y.slot_generation
            &&& a.partial_cmp_spec(&b) == Some(Ordering::Greater) <==> b.partial_cmp_spec(&a)
                == Some(Ordering::Less)
            &&& a.partial_cmp_spec(&b) == Some(Ordering::Equal) <==> x == y
            &&& a.partial_cmp_spec(&b) is Some
        }),
{
}

/// References to strings are ordered as references are.
pub proof fn law_string_references_are_ordered(a: RefString, b: RefString)
    ensures
        RefString::obeys_partial_cmp_spec(),
        a.partial_cmp_spec(&b) == a.reference.partial_cmp_spec(&b.reference),
{
}

/// Roots are ordered as their values are, whatever places these are in.
pub proof fn law_roots_are_ordered_by_value<T: Collectable<V> + PartialOrd, V: AnyValue>(
    a: Root<T, V>,
    b: Root<T, V>,
    x: T,
    y: T,
)
    requires
        a.wf(),
        b.wf(),
        *a.data == x.erased(),
        *b.data == y.erased(),
    ensures
        Root::<T, V>::obeys_partial_cmp_spec() == T::obeys_partial_cmp_spec(),
        a.partial_cmp_spec(&b) == x.partial_cmp_spec(&y),
{
    lemma_value_of(a, x);
    lemma_value_of(b, y);
}

/// Two references are the same: the same slot of the same pool and type, and the
/// same generation of it.
pub open spec fn same_reference(a: AnyRef, b: AnyRef) -> bool {
    &&& a.bin_id.raw == b.bin_id.raw
    &&& a.creating_thread.id == b.creating_thread.id
    &&& a.type_index.index == b.type_index.index
    &&& a.slot_generation == b.slot_generation
}

/// References equal references and roots to the same value, and no others.
pub proof fn law_references_are_equal_by_place<T, V>(
    a: Ref<T>,
    b: Ref<T>,
    root: Root<T, V>,
    any: AnyRef,
)
    ensures
        <Ref<T> as PartialEqSpec>::obeys_eq_spec(),
        a.eq_spec(&b) <==> same_reference(a.any, b.any),
        <Ref<T> as PartialEqSpec<Root<T, V>>>::obeys_eq_spec(),
        a.eq_spec(&root) <==> same_reference(a.any, root.reference.any),
        <Ref<T> as PartialEqSpec<&Root<T, V>>>::obeys_eq_spec(),
        a.eq_spec(&&root) <==> same_reference(a.any, root.reference.any),
        <Ref<T> as PartialEqSpec<AnyRef>>::obeys_eq_spec(),
        a.eq_spec(&any) <==> same_reference(a.any, any),
        <Ref<T> as PartialEqSpec<&AnyRef>>::obeys_eq_spec(),
        a.eq_spec(&&any) <==> same_reference(a.any, any),
{
}

/// Roots equal the references to their value, and no others.
pub proof fn law_roots_equal_references_by_place<T: Collectable<V> + PartialEq, V: AnyValue>(
    root: Root<T, V>,
    r: Ref<T>,
    any: AnyRef,
    a: AnyRoot<V>,
    b: AnyRoot<V>,
)
    ensures
        <Root<T, V> as PartialEqSpec<Ref<T>>>::obeys_eq_spec(),
        root.eq_spec(&r) <==> same_reference(root.reference.any, r.any),
        <Root<T, V> as PartialEqSpec<&Ref<T>>>::obeys_eq_spec(),
        root.eq_spec(&&r) <==> same_reference(root.reference.any, r.any),
        <Root<T, V> as PartialEqSpec<AnyRef>>::obeys_eq_spec(),
        root.eq_spec(&any) <==> same_reference(root.reference.any, any),
        <Root<T, V> as PartialEqSpec<&AnyRef>>::obeys_eq_spec(),
        root.eq_spec(&&any) <==> same_reference(root.reference.any, any),
        <AnyRoot<V> as PartialEqSpec>::obeys_eq_spec(),
        a.eq_spec(&b) <==> same_reference(a.any, b.any),
{
}

/// Roots are equal if they are roots to the same value or to equal values.
pub proof fn law_roots_are_equal_by_value<T: Collectable<V> + PartialEq, V: AnyValue>(
    a: Root<T, V>,
    b: Root<T, V>,
    x: T,
    y: T,
)
    requires
        a.wf(),
        b.wf(),
        *a.data == x.erased(),
        *b.data == y.erased(),
    ensures
        <Root<T, V> as PartialEqSpec>::obeys_eq_spec() == <T as PartialEqSpec>::obeys_eq_spec(),
        a.eq_spec(&b) <==> same_reference(a.reference.any, b.reference.any) || x.eq_spec(&y),
{
    lemma_value_of(a, x);
    lemma_value_of(b, y);
}

/// Strings are equal if they are the same allocation.
pub proof fn law_strings_are_equal_by_place<V>(
    a: RootString<V>,
    b: RootString<V>,
    r: RefString,
    s: RefString,
)
    ensures
        <RootString<V> as PartialEqSpec>::obeys_eq_spec(),
        a.eq_spec(&b) <==> same_reference(a.root.reference.any, b.root.reference.any),
        <RefString as PartialEqSpec>::obeys_eq_spec(),
        r.eq_spec(&s) <==> same_reference(r.reference.any, s.reference.any),
        <RefString as PartialEqSpec<RootString<V>>>::obeys_eq_spec(),
        r.eq_spec(&a) <==> same_reference(r.reference.any, a.root.reference.any),
        <RootString<V> as PartialEqSpec<RefString>>::obeys_eq_spec(),
        a.eq_spec(&r) <==> same_reference(a.root.reference.any, r.reference.any),
{
}

/// A string equals exactly the text that it holds.
pub proof fn law_strings_equal_their_text<V: AnyValue>(
    a: RootString<V>,
    p: PooledString,
    text: String,
    slice: &str,
) where PooledString: Collectable<V>
    requires
        a.root.wf(),
        *a.root.data == p.erased(),
    ensures
        a.text() == p.string@,
        <RootString<V> as PartialEqSpec<String>>::obeys_eq_spec(),
        a.eq_spec(&text) <==> p.string@ == text@,
        <RootString<V> as PartialEqSpec<&String>>::obeys_eq_spec(),
        a.eq_spec(&&text) <==> p.string@ == text@,
        <RootString<V> as PartialEqSpec<str>>::obeys_eq_spec(),
        a.eq_spec(slice) <==> p.string@ == slice@,
        <RootString<V> as PartialEqSpec<&str>>::obeys_eq_spec(),
        a.eq_spec(&slice) <==> p.string@ == slice@,
{
    lemma_pooled::<V>(p);
    lemma_value_of(a.root, p);
}

} // verus!
