//! How the slots of a bin are used.

use vstd::prelude::*;

use crate::bin_id::{bin_id, BinId, MAX_SLABS};

verus! {

/// How the slots of a bin are used.
#[verifier::ext_equal]
pub ghost struct Layout {
    /// The freed slots, the next one to be reused first.
    pub free: Seq<u32>,
    /// The last allocated slot of each slab.
    pub used: Seq<u8>,
    /// The slab at which the search for a slot that was never used begins.
    pub first_free_slab: int,
}

/// The layout of a bin that was made for one value.
pub open spec fn first_layout() -> Layout {
    Layout { free: Seq::empty(), used: seq![0u8], first_free_slab: 0 }
}

/// The addresses below `bound` that are in `addresses`, in descending order.
pub open spec fn descending(addresses: Set<u32>, bound: nat) -> Seq<u32>
    decreases bound,
{
    if bound == 0 {
        Seq::empty()
    } else {
        let rest = descending(addresses, (bound - 1) as nat);
        if addresses.contains((bound - 1) as u32) {
            seq![(bound - 1) as u32] + rest
        } else {
            rest
        }
    }
}

/// The last slot of the slab up to `last` whose address is in `addresses`, or the
/// first slot if there is none.
pub open spec fn last_slot(addresses: Set<u32>, slab: int, last: u8) -> u8
    decreases last,
{
    if last == 0 || addresses.contains(bin_id(slab, last as int).raw) {
        last
    } else {
        last_slot(addresses, slab, (last - 1) as u8)
    }
}

impl Layout {
    /// There is no slot for another value.
    pub open spec fn full(self) -> bool {
        &&& self.free.len() == 0
        &&& self.used.len() == MAX_SLABS
        &&& forall|i: int|
            self.first_free_slab <= i < self.used.len() ==> #[trigger] self.used[i] == 255
    }

    /// The slot that is allocated next: the slot freed last, or else the next
    /// slot that was never used.
    pub open spec fn is_next_slot(self, raw: u32) -> bool {
        if self.free.len() > 0 {
            raw == self.free[0]
        } else {
            let slab = BinId { raw }.slab_index();
            let slot = BinId { raw }.slot_index();
            &&& raw >= 256
            &&& self.first_free_slab <= slab <= self.used.len()
            &&& forall|i: int| self.first_free_slab <= i < slab ==> #[trigger] self.used[i] == 255
            &&& slab < self.used.len() ==> slot == self.used[slab] + 1
            &&& slab == self.used.len() ==> slot == 0
        }
    }

    /// The layout after a value was stored in the next slot, which is at `raw`.
    pub open spec fn adopted(self, raw: u32) -> Layout {
        let slab = BinId { raw }.slab_index();
        let slot = BinId { raw }.slot_index() as u8;
        let reused = self.free.len() > 0;
        Layout {
            free: if reused {
                self.free.skip(1)
            } else {
                self.free
            },
            used: if slab >= self.used.len() {
                self.used.push(0)
            } else if self.used[slab] < slot {
                self.used.update(slab, slot)
            } else {
                self.used
            },
            first_free_slab: if !reused && slab < self.used.len() {
                slab
            } else {
                self.first_free_slab
            },
        }
    }

    /// The layout after a sweep that left the values at `kept` of those at `held`:
    /// the freed slots are reused first, the one with the highest address before
    /// the others.
    pub open spec fn swept(self, held: Set<u32>, kept: Set<u32>) -> Layout {
        Layout {
            free: descending(held.difference(kept), 0x1_0000_0000) + self.free,
            used: Seq::new(
                self.used.len(),
                |slab: int| last_slot(kept, slab, self.used[slab]),
            ),
            first_free_slab: self.first_free_slab,
        }
    }

    /// This is the layout after a sweep that left the values at `kept` of those at
    /// `held`.
    pub open spec fn is_swept(self, before: Layout, held: Set<u32>, kept: Set<u32>) -> bool {
        let added = self.free.len() - before.free.len();
        &&& added >= 0
        &&& self.free.skip(added) == before.free
        &&& forall|i: int, j: int| 0 <= i < j < added ==> self.free[i] > self.free[j]
        &&& forall|raw: u32| #[trigger]
            self.free.take(added).contains(raw) <==> held.contains(raw) && !kept.contains(raw)
        &&& self.used.len() == before.used.len()
        &&& forall|slab: int|
            0 <= slab < self.used.len() ==> is_last_slot(
                kept,
                slab,
                before.used[slab],
                #[trigger] self.used[slab],
            )
        &&& self.first_free_slab == before.first_free_slab
    }
}

/// `slot` is the last slot of the slab up to `last` whose address is in
/// `addresses`, or the first slot if there is none.
pub open spec fn is_last_slot(addresses: Set<u32>, slab: int, last: u8, slot: u8) -> bool {
    &&& slot <= last
    &&& slot > 0 ==> addresses.contains(bin_id(slab, slot as int).raw)
    &&& forall|other: int|
        slot < other <= last ==> !addresses.contains(#[trigger] bin_id(slab, other).raw)
}

proof fn lemma_last_slot(addresses: Set<u32>, slab: int, last: u8, slot: u8)
    ensures
        is_last_slot(addresses, slab, last, slot) <==> slot == last_slot(addresses, slab, last),
    decreases last,
{
    if last > 0 && !addresses.contains(bin_id(slab, last as int).raw) {
        lemma_last_slot(addresses, slab, (last - 1) as u8, slot);
        lemma_last_slot(
            addresses,
            slab,
            (last - 1) as u8,
            last_slot(addresses, slab, (last - 1) as u8),
        );
        if is_last_slot(addresses, slab, last, slot) {
            assert(slot != last);
            assert(is_last_slot(addresses, slab, (last - 1) as u8, slot));
        }
        if is_last_slot(addresses, slab, (last - 1) as u8, slot) {
            assert forall|other: int| slot < other <= last implies !addresses.contains(
                #[trigger] bin_id(slab, other).raw,
            ) by {}
        }
    } else if is_last_slot(addresses, slab, last, slot) && last > 0 {
        if slot < last {
            assert(!addresses.contains(bin_id(slab, last as int).raw));
        }
    }
}

/// The addresses are listed in descending order.
proof fn lemma_descending(addresses: Set<u32>, bound: nat)
    requires
        bound <= 0x1_0000_0000,
    ensures
        forall|i: int, j: int|
            0 <= i < j < descending(addresses, bound).len() ==> descending(addresses, bound)[i]
                > descending(addresses, bound)[j],
        forall|raw: u32| #[trigger]
            descending(addresses, bound).contains(raw) <==> raw < bound && addresses.contains(raw),
    decreases bound,
{
    if bound > 0 {
        let rest = descending(addresses, (bound - 1) as nat);
        let all = descending(addresses, bound);
        let top = (bound - 1) as u32;
        lemma_descending(addresses, (bound - 1) as nat);
        assert forall|i: int| 0 <= i < rest.len() implies #[trigger] rest[i] < top by {
            assert(rest.contains(rest[i]));
        }
        if addresses.contains(top) {
            assert forall|raw: u32| #[trigger] all.contains(raw) <==> raw < bound
                && addresses.contains(raw) by {
                if rest.contains(raw) {
                    let i = choose|i: int| 0 <= i < rest.len() && rest[i] == raw;
                    assert(all[i + 1] == raw);
                }
                if raw == top {
                    assert(all[0] == raw);
                }
                if all.contains(raw) {
                    let i = choose|i: int| 0 <= i < all.len() && all[i] == raw;
                    if i > 0 {
                        assert(rest[i - 1] == raw);
                    }
                }
            }
            assert forall|i: int, j: int| 0 <= i < j < all.len() implies all[i] > all[j] by {
                assert(all[j] == rest[j - 1]);
                if i > 0 {
                    assert(all[i] == rest[i - 1]);
                }
            }
        }
    }
}

/// There is only one way to list addresses in descending order.
proof fn lemma_descending_unique(addresses: Set<u32>, bound: nat, list: Seq<u32>)
    requires
        bound <= 0x1_0000_0000,
        forall|i: int, j: int| 0 <= i < j < list.len() ==> list[i] > list[j],
        forall|raw: u32| #[trigger]
            list.contains(raw) <==> raw < bound && addresses.contains(raw),
    ensures
        list == descending(addresses, bound),
    decreases bound,
{
    if bound == 0 {
        if list.len() > 0 {
            assert(list.contains(list[0]));
        }
        assert(list =~= Seq::<u32>::empty());
    } else {
        let top = (bound - 1) as u32;
        if addresses.contains(top) {
            assert(list.contains(top));
            let k = choose|k: int| 0 <= k < list.len() && list[k] == top;
            assert(list.contains(list[0]));
            assert(k == 0);
            let rest = list.skip(1);
            assert forall|raw: u32| #[trigger] rest.contains(raw) <==> raw < bound - 1
                && addresses.contains(raw) by {
                if rest.contains(raw) {
                    let i = choose|i: int| 0 <= i < rest.len() && rest[i] == raw;
                    assert(list[i + 1] == raw);
                    assert(list.contains(raw));
                }
                if raw < bound - 1 && addresses.contains(raw) {
                    assert(list.contains(raw));
                    let i = choose|i: int| 0 <= i < list.len() && list[i] == raw;
                    assert(rest[i - 1] == raw);
                }
            }
            lemma_descending_unique(addresses, (bound - 1) as nat, rest);
            assert(list =~= seq![top] + rest);
        } else {
            assert forall|raw: u32| #[trigger] list.contains(raw) <==> raw < bound - 1
                && addresses.contains(raw) by {}
            lemma_descending_unique(addresses, (bound - 1) as nat, list);
        }
    }
}

/// A sweep puts the freed slots in front of those that were free, the one with the
/// highest address first, and lets each slab end with its last value. Nothing else
/// does.
pub proof fn law_swept_layout(before: Layout, after: Layout, held: Set<u32>, kept: Set<u32>)
    ensures
        after.is_swept(before, held, kept) <==> after == before.swept(held, kept),
{
    let dropped = held.difference(kept);
    let list = descending(dropped, 0x1_0000_0000);
    let swept = before.swept(held, kept);
    lemma_descending(dropped, 0x1_0000_0000);
    assert(swept.free.take(list.len() as int) =~= list);
    assert(swept.free.skip(list.len() as int) =~= before.free);
    assert forall|slab: int| 0 <= slab < swept.used.len() implies is_last_slot(
        kept,
        slab,
        before.used[slab],
        #[trigger] swept.used[slab],
    ) by {
        lemma_last_slot(kept, slab, before.used[slab], swept.used[slab]);
    }
    assert(swept.is_swept(before, held, kept));
    if after.is_swept(before, held, kept) {
        let added = after.free.len() - before.free.len();
        let first = after.free.take(added);
        lemma_descending_unique(dropped, 0x1_0000_0000, first);
        assert(after.free =~= first + after.free.skip(added));
        assert forall|slab: int| 0 <= slab < after.used.len() implies #[trigger] after.used[slab]
            == swept.used[slab] by {
            lemma_last_slot(kept, slab, before.used[slab], after.used[slab]);
        }
        assert(after.used =~= swept.used);
    }
}

} // verus!
