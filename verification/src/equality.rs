//! When references are equal.

use vstd::prelude::*;
use vstd::std_specs::cmp::PartialEqSpec;

use crate::any_ref::AnyRef;
use crate::reference::{AnyRoot, Ref, Root};
use crate::trace::{AnyValue, Collectable};

verus! {

impl<T> PartialEq for Ref<T> {
    fn eq(&self, other: &Self) -> (equal: bool) {
        self.any == other.any
    }
}

impl<T> vstd::std_specs::cmp::PartialEqSpecImpl for Ref<T> {
    open spec fn obeys_eq_spec() -> bool {
        true
    }

    open spec fn eq_spec(&self, other: &Self) -> bool {
        self.any == other.any
    }
}

impl<T> Eq for Ref<T> {

}

impl<T, V> PartialEq<Root<T, V>> for Ref<T> {
    fn eq(&self, other: &Root<T, V>) -> (equal: bool) {
        self.any == other.reference.any
    }
}

impl<T, V> vstd::std_specs::cmp::PartialEqSpecImpl<Root<T, V>> for Ref<T> {
    open spec fn obeys_eq_spec() -> bool {
        true
    }

    open spec fn eq_spec(&self, other: &Root<T, V>) -> bool {
        self.any == other.reference.any
    }
}

impl<'a, T, V> PartialEq<&'a Root<T, V>> for Ref<T> {
    fn eq(&self, other: &&'a Root<T, V>) -> (equal: bool) {
        self.any == other.reference.any
    }
}

impl<'a, T, V> vstd::std_specs::cmp::PartialEqSpecImpl<&'a Root<T, V>> for Ref<T> {
    open spec fn obeys_eq_spec() -> bool {
        true
    }

    open spec fn eq_spec(&self, other: &&'a Root<T, V>) -> bool {
        self.any == other.reference.any
    }
}

impl<T> PartialEq<AnyRef> for Ref<T> {
    fn eq(&self, other: &AnyRef) -> (equal: bool) {
        self.any == *other
    }
}

impl<T> vstd::std_specs::cmp::PartialEqSpecImpl<AnyRef> for Ref<T> {
    open spec fn obeys_eq_spec() -> bool {
        true
    }

    open spec fn eq_spec(&self, other: &AnyRef) -> bool {
        self.any == *other
    }
}

impl<'a, T> PartialEq<&'a AnyRef> for Ref<T> {
    fn eq(&self, other: &&'a AnyRef) -> (equal: bool) {
        self.any == **other
    }
}

impl<'a, T> vstd::std_specs::cmp::PartialEqSpecImpl<&'a AnyRef> for Ref<T> {
    open spec fn obeys_eq_spec() -> bool {
        true
    }

    open spec fn eq_spec(&self, other: &&'a AnyRef) -> bool {
        self.any == **other
    }
}

impl<T, V> PartialEq<Ref<T>> for Root<T, V> {
    fn eq(&self, other: &Ref<T>) -> (equal: bool) {
        self.reference.any == other.any
    }
}

impl<T, V> vstd::std_specs::cmp::PartialEqSpecImpl<Ref<T>> for Root<T, V> {
    open spec fn obeys_eq_spec() -> bool {
        true
    }

    open spec fn eq_spec(&self, other: &Ref<T>) -> bool {
        self.reference.any == other.any
    }
}

impl<'a, T, V> PartialEq<&'a Ref<T>> for Root<T, V> {
    fn eq(&self, other: &&'a Ref<T>) -> (equal: bool) {
        self.reference.any == other.any
    }
}

impl<'a, T, V> vstd::std_specs::cmp::PartialEqSpecImpl<&'a Ref<T>> for Root<T, V> {
    open spec fn obeys_eq_spec() -> bool {
        true
    }

    open spec fn eq_spec(&self, other: &&'a Ref<T>) -> bool {
        self.reference.any == other.any
    }
}

impl<T, V> PartialEq<AnyRef> for Root<T, V> {
    fn eq(&self, other: &AnyRef) -> (equal: bool) {
        self.reference.any == *other
    }
}

impl<T, V> vstd::std_specs::cmp::PartialEqSpecImpl<AnyRef> for Root<T, V> {
    open spec fn obeys_eq_spec() -> bool {
        true
    }

    open spec fn eq_spec(&self, other: &AnyRef) -> bool {
        self.reference.any == *other
    }
}

impl<'a, T, V> PartialEq<&'a AnyRef> for Root<T, V> {
    fn eq(&self, other: &&'a AnyRef) -> (equal: bool) {
        self.reference.any == **other
    }
}

impl<'a, T, V> vstd::std_specs::cmp::PartialEqSpecImpl<&'a AnyRef> for Root<T, V> {
    open spec fn obeys_eq_spec() -> bool {
        true
    }

    open spec fn eq_spec(&self, other: &&'a AnyRef) -> bool {
        self.reference.any == **other
    }
}

impl<V> PartialEq for AnyRoot<V> {
    fn eq(&self, other: &Self) -> (equal: bool) {
        self.any == other.any
    }
}

impl<V> vstd::std_specs::cmp::PartialEqSpecImpl for AnyRoot<V> {
    open spec fn obeys_eq_spec() -> bool {
        true
    }

    open spec fn eq_spec(&self, other: &Self) -> bool {
        self.any == other.any
    }
}

impl<V> Eq for AnyRoot<V> {

}

/// The value of a root, if it is of the root's type.
pub open spec fn value_of<T: Collectable<V>, V: AnyValue>(root: Root<T, V>) -> Option<T> {
    if root.data.type_key() == T::key() {
        Some(choose|value: T| #[trigger] value.erased() == *root.data)
    } else {
        None
    }
}

/// What a root hands out is its value.
pub proof fn lemma_value_of<T: Collectable<V>, V: AnyValue>(root: Root<T, V>, value: T)
    requires
        root.wf(),
        value.erased() == *root.data,
    ensures
        value_of(root) == Some(value),
{
    let chosen = choose|value: T| #[trigger] value.erased() == *root.data;
    assert(chosen.erased() == *root.data);
    value.lemma_erased();
}

impl<T: Collectable<V> + PartialEq, V: AnyValue> PartialEq for Root<T, V> {
    /// Roots are equal if they are roots to the same value or to equal values.
    fn eq(&self, other: &Self) -> (equal: bool) {
        if self.reference.any == other.reference.any {
            return true;
        }
        match (T::downcast(&self.data), T::downcast(&other.data)) {
            (Some(a), Some(b)) => {
                proof {
                    lemma_value_of(*self, *a);
                    lemma_value_of(*other, *b);
                }
                *a == *b
            },
            _ => false,
        }
    }
}

impl<T: Collectable<V> + PartialEq, V: AnyValue> vstd::std_specs::cmp::PartialEqSpecImpl for Root<T, V> {
    open spec fn obeys_eq_spec() -> bool {
        T::obeys_eq_spec()
    }

    open spec fn eq_spec(&self, other: &Self) -> bool {
        self.reference.any == other.reference.any || match (value_of(*self), value_of(*other)) {
            (Some(a), Some(b)) => a.eq_spec(&b),
            _ => false,
        }
    }
}

impl<T: Collectable<V> + Eq, V: AnyValue> Eq for Root<T, V> {

}

} // verus!
