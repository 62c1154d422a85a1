//! A table of positions by hash, kept by `hashbrown`.

use vstd::multiset::Multiset;
use vstd::prelude::*;

verus! {

/// A table of positions, each of which is found by its hash.
///
/// The pairs of hash and position are kept in a [`hashbrown::HashTable`].
#[verifier::external_body]
pub struct StringTable {
    positions: hashbrown::HashTable<(u64, usize)>,
}

/// The pairs of hash and position that a [`StringTable`] holds.
pub uninterp spec fn string_table_items(table: StringTable) -> Multiset<(u64, usize)>;

impl View for StringTable {
    type V = Multiset<(u64, usize)>;

    open spec fn view(&self) -> Multiset<(u64, usize)> {
        string_table_items(*self)
    }
}

impl StringTable {
    /// `hashbrown::HashTable::new`: the table holds nothing.
    #[verifier::external_body]
    pub(crate) fn new() -> (created: Self)
        ensures
            (string_table_items(created) == Multiset::<(u64, usize)>::empty()),
    {
        StringTable { positions: hashbrown::HashTable::new() }
    }

    /// `hashbrown::HashTable::find`: a position that satisfies `eq`, if one with
    /// the given hash does.
    ///
    /// `eq` may also be asked about positions with another hash; if one of
    /// these satisfies it, that one may be returned. If nothing is returned,
    /// `eq` rejected every position with the given hash. Which of several
    /// positions that satisfy `eq` is returned is left open.
    #[verifier::external_body]
    pub(crate) fn find<F: Fn(usize) -> bool>(&self, hash: u64, eq: F) -> (found: Option<usize>)
        requires
            forall|item: (u64, usize)| #[trigger]
                string_table_items(*self).contains(item) ==> eq.requires((item.1,)),
        ensures
            match found {
                Some(position) => eq.ensures((position,), true) && exists|item: (u64, usize)| #[trigger]
                    string_table_items(*self).contains(item) && item.1 == position,
                None => forall|item: (u64, usize)| #[trigger]
                    string_table_items(*self).contains(item) && item.0 == hash ==> eq.ensures(
                        (item.1,),
                        false,
                    ),
            },
    {
        self.positions.find(hash, |item| eq(item.1)).map(|item| item.1)
    }

    /// `hashbrown::HashTable::insert_unique`: the position is added under the
    /// hash, whatever else the table holds.
    #[verifier::external_body]
    pub(crate) fn insert(&mut self, hash: u64, position: usize)
        ensures
            string_table_items(*final(self)) == string_table_items(*old(self)).insert(
                (hash, position),
            ),
    {
        self.positions.insert_unique(hash, (hash, position), |item| item.0);
    }
}

} // verus!
