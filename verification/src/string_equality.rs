//! When interned strings are equal.

use vstd::prelude::*;

use crate::equality::{lemma_value_of, value_of};
use crate::pool::{PooledString, RefString, RootString};
use crate::trace::{AnyValue, Collectable};

verus! {

impl<V> PartialEq for RootString<V> {
    fn eq(&self, other: &Self) -> (equal: bool) {
        self.root.reference.any == other.root.reference.any
    }
}

impl<V> vstd::std_specs::cmp::PartialEqSpecImpl for RootString<V> {
    open spec fn obeys_eq_spec() -> bool {
        true
    }

    open spec fn eq_spec(&self, other: &Self) -> bool {
        self.root.reference.any == other.root.reference.any
    }
}

impl<V> Eq for RootString<V> {

}

impl PartialEq for RefString {
    fn eq(&self, other: &Self) -> (equal: bool) {
        self.reference.any == other.reference.any
    }
}

impl vstd::std_specs::cmp::PartialEqSpecImpl for RefString {
    open spec fn obeys_eq_spec() -> bool {
        true
    }

    open spec fn eq_spec(&self, other: &Self) -> bool {
        self.reference.any == other.reference.any
    }
}

impl Eq for RefString {

}

impl<V> PartialEq<RootString<V>> for RefString {
    fn eq(&self, other: &RootString<V>) -> (equal: bool) {
        self.reference.any == other.root.reference.any
    }
}

impl<V> vstd::std_specs::cmp::PartialEqSpecImpl<RootString<V>> for RefString {
    open spec fn obeys_eq_spec() -> bool {
        true
    }

    open spec fn eq_spec(&self, other: &RootString<V>) -> bool {
        self.reference.any == other.root.reference.any
    }
}

impl<V> PartialEq<RefString> for RootString<V> {
    fn eq(&self, other: &RefString) -> (equal: bool) {
        self.root.reference.any == other.reference.any
    }
}

impl<V> vstd::std_specs::cmp::PartialEqSpecImpl<RefString> for RootString<V> {
    open spec fn obeys_eq_spec() -> bool {
        true
    }

    open spec fn eq_spec(&self, other: &RefString) -> bool {
        self.root.reference.any == other.reference.any
    }
}

impl<V: AnyValue> RootString<V> where PooledString: Collectable<V> {
    /// The string has the text.
    pub open spec fn has_text(self, text: Seq<char>) -> bool {
        match value_of(self.root) {
            Some(p) => p.string@ == text,
            None => false,
        }
    }

    /// Returns true if the string has the text `other`.
    fn equals(&self, other: &String) -> (equal: bool)
        ensures
            equal == self.has_text(other@),
    {
        match PooledString::downcast(&self.root.data) {
            Some(p) => {
                proof {
                    lemma_value_of(self.root, *p);
                }
                p.string == *other
            },
            None => false,
        }
    }
}

impl<V: AnyValue> PartialEq<String> for RootString<V> where PooledString: Collectable<V> {
    fn eq(&self, other: &String) -> (equal: bool) {
        self.equals(other)
    }
}

impl<V: AnyValue> vstd::std_specs::cmp::PartialEqSpecImpl<String> for RootString<V> where PooledString: Collectable<V> {
    open spec fn obeys_eq_spec() -> bool {
        true
    }

    open spec fn eq_spec(&self, other: &String) -> bool {
        self.has_text(other@)
    }
}

impl<'a, V: AnyValue> PartialEq<&'a String> for RootString<V> where PooledString: Collectable<V> {
    fn eq(&self, other: &&'a String) -> (equal: bool) {
        self.equals(other)
    }
}

impl<'a, V: AnyValue> vstd::std_specs::cmp::PartialEqSpecImpl<&'a String> for RootString<V> where PooledString: Collectable<V> {
    open spec fn obeys_eq_spec() -> bool {
        true
    }

    open spec fn eq_spec(&self, other: &&'a String) -> bool {
        self.has_text(other@)
    }
}

impl<V: AnyValue> PartialEq<str> for RootString<V> where PooledString: Collectable<V> {
    fn eq(&self, other: &str) -> (equal: bool) {
        self.equals(&other.to_owned())
    }
}

impl<V: AnyValue> vstd::std_specs::cmp::PartialEqSpecImpl<str> for RootString<V> where PooledString: Collectable<V> {
    open spec fn obeys_eq_spec() -> bool {
        true
    }

    open spec fn eq_spec(&self, other: &str) -> bool {
        self.has_text(other@)
    }
}

impl<'a, V: AnyValue> PartialEq<&'a str> for RootString<V> where PooledString: Collectable<V> {
    fn eq(&self, other: &&'a str) -> (equal: bool) {
        self.equals(&(*other).to_owned())
    }
}

impl<'a, V: AnyValue> vstd::std_specs::cmp::PartialEqSpecImpl<&'a str> for RootString<V> where PooledString: Collectable<V> {
    open spec fn obeys_eq_spec() -> bool {
        true
    }

    open spec fn eq_spec(&self, other: &&'a str) -> bool {
        self.has_text(other@)
    }
}

} // verus!
