//! What the collector shares with the threads that use it.

use vstd::prelude::*;

use crate::any_ref::Addr;
use crate::heap::{BinAddr, Heap};
use crate::layout::Layout;
use crate::reader_state::{ReaderState, ReaderStateView};
use crate::slab::Cell;
use crate::trace::AnyValue;
use crate::type_index::TypeIndexes;

verus! {

/// What the collector shares with the threads that use it.
pub struct CollectorInfo<V> {
    pub reader_state: ReaderState,
    /// The time at which the last collection finished.
    pub last_run: u64,
    pub signalled_collector: bool,
    pub all_threads: Heap<V>,
    pub type_indexes: TypeIndexes,
    pub next_thread_id: u32,
}

/// Everything about a [`CollectorInfo`] but the values.
#[verifier::ext_equal]
pub ghost struct InfoView {
    pub reader_state: ReaderStateView,
    pub last_run: u64,
    pub signalled_collector: bool,
    pub handles: Map<u64, u64>,
    pub types: Map<u64, usize>,
    pub next_thread_id: u32,
}

impl<V> View for CollectorInfo<V> {
    type V = InfoView;

    open spec fn view(&self) -> InfoView {
        InfoView {
            reader_state: self.reader_state@,
            last_run: self.last_run,
            signalled_collector: self.signalled_collector,
            handles: self.all_threads.handles(),
            types: self.type_indexes@,
            next_thread_id: self.next_thread_id,
        }
    }
}

/// A collection that was requested at the given time has to be waited for: none
/// has finished since.
pub open spec fn waits_for(info: InfoView, requested_at: u64) -> bool {
    info.last_run < requested_at
}

/// The type of every value has the number under which the value is stored.
pub open spec fn typed<V: AnyValue>(cells: Map<Addr, Cell<V>>, types: Map<u64, usize>) -> bool {
    forall|addr: Addr| #[trigger]
        cells.dom().contains(addr) ==> {
            let key = cells[addr].value.type_key();
            types.dom().contains(key) && types[key] == addr.type_index
        }
}

impl<V> CollectorInfo<V> {
    /// All values with their addresses.
    pub open spec fn cells(self) -> Map<Addr, Cell<V>> {
        self.all_threads.cells()
    }

    /// The generation of every slot.
    pub open spec fn generations(self) -> Map<Addr, u32> {
        self.all_threads.generations()
    }

    /// How the slots of every bin are used.
    pub open spec fn layouts(self) -> Map<BinAddr, Layout> {
        self.all_threads.layouts()
    }

    /// Returns the state before any pool exists.
    pub fn new(now: u64) -> (info: Self)
        ensures
            info.all_threads.wf(),
            info.type_indexes.wf(),
            info.cells() == Map::<Addr, Cell<V>>::empty(),
            info.generations() == Map::<Addr, u32>::empty(),
            info.layouts() == Map::<BinAddr, Layout>::empty(),
            info@ == (InfoView {
                reader_state: ReaderStateView { collecting: false, readers: 0 },
                last_run: now,
                signalled_collector: false,
                handles: Map::empty(),
                types: Map::empty(),
                next_thread_id: 0,
            }),
    {
        CollectorInfo {
            reader_state: ReaderState::new(),
            last_run: now,
            signalled_collector: false,
            all_threads: Heap::new(),
            type_indexes: TypeIndexes::new(),
            next_thread_id: 0,
        }
    }

    /// Returns true if a collection that was requested at the given time has
    /// to be waited for.
    pub fn wait_for_collection(&self, requested_at: u64) -> (wait: bool)
        ensures
            wait == waits_for(self@, requested_at),
    {
        self.last_run < requested_at
    }
}

impl<V: AnyValue> CollectorInfo<V> {
    pub open spec fn wf(self) -> bool {
        &&& self.all_threads.wf()
        &&& self.type_indexes.wf()
        &&& typed(self.cells(), self.type_indexes@)
    }
}

} // verus!
