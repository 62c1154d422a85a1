//! Which values can be reached from the roots.

use vstd::prelude::*;
use vstd::set_lib::set_int_range;

use crate::any_ref::{Addr, AnyRef};
use crate::heap::names;
use crate::slab::Cell;
use crate::trace::AnyValue;

verus! {

/// The value has a root.
pub open spec fn rooted<V>(cells: Map<Addr, Cell<V>>, addr: Addr) -> bool {
    &&& cells.dom().contains(addr)
    &&& cells[addr].roots > 0
}

/// The value at `from` holds a reference to the value at `to`.
pub open spec fn points_to<V: AnyValue>(
    cells: Map<Addr, Cell<V>>,
    from: Addr,
    to: Addr,
) -> bool {
    exists|any: AnyRef| #[trigger]
        cells[from].value.any_references().contains(any) && names(cells, any) && any.addr() == to
}

/// Each address points to the next one, and the first one is rooted.
pub open spec fn is_path<V: AnyValue>(
    cells: Map<Addr, Cell<V>>,
    path: Seq<Addr>,
) -> bool {
    &&& path.len() > 0
    &&& rooted(cells, path[0])
    &&& forall|i: int, j: int|
        0 <= i < path.len() && j == i + 1 && j < path.len() ==> points_to(
            cells,
            #[trigger] path[i],
            #[trigger] path[j],
        )
}

/// The value can be reached from a root by following references.
pub open spec fn reachable<V: AnyValue>(
    cells: Map<Addr, Cell<V>>,
    addr: Addr,
) -> bool {
    exists|path: Seq<Addr>| #[trigger] is_path(cells, path) && path.last() == addr
}

/// A rooted value is reachable.
pub proof fn lemma_rooted_reachable<V: AnyValue>(
    cells: Map<Addr, Cell<V>>,
    addr: Addr,
)
    requires
        rooted(cells, addr),
    ensures
        reachable(cells, addr),
{
    assert(is_path(cells, seq![addr]));
}

/// What a reachable value refers to is reachable.
pub proof fn lemma_reachable_step<V: AnyValue>(
    cells: Map<Addr, Cell<V>>,
    from: Addr,
    to: Addr,
)
    requires
        reachable(cells, from),
        points_to(cells, from, to),
    ensures
        reachable(cells, to),
{
    let path = choose|path: Seq<Addr>| #[trigger]
        is_path(cells, path) && path.last() == from;
    let longer = path.push(to);
    assert forall|i: int, j: int| 0 <= i < longer.len() && j == i + 1 && j < longer.len() implies points_to(
        cells,
        #[trigger] longer[i],
        #[trigger] longer[j],
    ) by {
        assert(longer[i] == path[i]);
        if j < path.len() {
            assert(longer[j] == path[j]);
        }
    }
    assert(is_path(cells, longer));
    assert(longer.last() == to);
}

/// A set that holds every rooted value and whatever its members refer to holds
/// every reachable value.
pub proof fn lemma_reachable_least<V: AnyValue>(
    cells: Map<Addr, Cell<V>>,
    closed_set: Set<Addr>,
    addr: Addr,
)
    requires
        forall|a: Addr| #[trigger] rooted(cells, a) ==> closed_set.contains(a),
        forall|a: Addr, b: Addr|
            closed_set.contains(a) && #[trigger] points_to(cells, a, b) ==> closed_set.contains(b),
        reachable(cells, addr),
    ensures
        closed_set.contains(addr),
{
    let path = choose|path: Seq<Addr>| #[trigger]
        is_path(cells, path) && path.last() == addr;
    lemma_path_closed(cells, closed_set, path, path.len() - 1);
}

proof fn lemma_path_closed<V: AnyValue>(
    cells: Map<Addr, Cell<V>>,
    closed_set: Set<Addr>,
    path: Seq<Addr>,
    i: int,
)
    requires
        forall|a: Addr| #[trigger] rooted(cells, a) ==> closed_set.contains(a),
        forall|a: Addr, b: Addr|
            closed_set.contains(a) && #[trigger] points_to(cells, a, b) ==> closed_set.contains(b),
        is_path(cells, path),
        0 <= i < path.len(),
    ensures
        closed_set.contains(path[i]),
    decreases i,
{
    if i > 0 {
        lemma_path_closed(cells, closed_set, path, i - 1);
        assert(points_to(cells, path[i - 1], path[i]));
    }
}

/// A reachable value exists.
pub proof fn lemma_reachable_exists<V: AnyValue>(
    cells: Map<Addr, Cell<V>>,
    addr: Addr,
)
    requires
        reachable(cells, addr),
    ensures
        cells.dom().contains(addr),
{
    let all = Set::new(|a: Addr| cells.dom().contains(a));
    lemma_reachable_least(cells, all, addr);
}

/// The address with the number `code`.
spec fn decoded(code: int) -> Addr {
    Addr {
        thread: (code / 0x1_0000_0000_0000_0000) as u32,
        type_index: ((code / 0x1_0000_0000) % 0x1_0000_0000) as u32,
        raw: (code % 0x1_0000_0000) as u32,
    }
}

/// There are finitely many addresses.
pub proof fn lemma_addresses_finite(addresses: Set<Addr>)
    ensures
        addresses.finite(),
{
    let limit: int = 0x1_0000_0000_0000_0000_0000_0000;
    let codes = set_int_range(0, limit);
    vstd::set_lib::lemma_int_range(0, limit);
    codes.lemma_map_finite(|code: int| decoded(code));
    let all = codes.map(|code: int| decoded(code));
    assert forall|addr: Addr| addresses.contains(addr) implies all.contains(addr) by {
        let code = addr.thread as int * 0x1_0000_0000_0000_0000 + addr.type_index as int
            * 0x1_0000_0000 + addr.raw as int;
        assert(codes.contains(code));
        assert(decoded(code) == addr);
    }
    vstd::set_lib::lemma_set_subset_finite(all, addresses);
}

/// Only the marks of the values differ.
pub open spec fn same_but_marks<V>(before: Map<Addr, Cell<V>>, after: Map<Addr, Cell<V>>) -> bool {
    &&& after.dom() == before.dom()
    &&& forall|addr: Addr| #[trigger]
        after.dom().contains(addr) ==> after[addr] == (Cell {
            mark: after[addr].mark,
            ..before[addr]
        })
}

} // verus!
