//! The word that decides between readers and the collector.

use vstd::prelude::*;

verus! {

/// Set while the collector is trying to collect.
const COLLECTING_BIT: u64 = 0x8000_0000_0000_0000;

/// The largest number of readers.
pub const MAX_READERS: u64 = 0x7FFF_FFFF_FFFF_FFFF;

/// What a [`ReaderState`] says.
pub ghost struct ReaderStateView {
    pub collecting: bool,
    pub readers: nat,
}

/// Whether the collector is trying to collect, in the top bit, and the number
/// of readers that keep it from collecting, in the others.
pub struct ReaderState {
    pub state: u64,
}

/// What became of a reader that offered to yield.
#[derive(Clone, Copy, PartialEq, Eq, Structural, Debug)]
pub enum ReleaseReadResult {
    /// The reader was released, and it was the last one.
    CollectAndUnpark,
    /// The reader was released.
    Collect,
    /// The collector is not trying to collect.
    Noop,
}

impl View for ReaderState {
    type V = ReaderStateView;

    open spec fn view(&self) -> ReaderStateView {
        ReaderStateView {
            collecting: self.state > MAX_READERS,
            readers: if self.state > MAX_READERS {
                (self.state - MAX_READERS - 1) as nat
            } else {
                self.state as nat
            },
        }
    }
}

proof fn lemma_bits(state: u64)
    ensures
        state & COLLECTING_BIT == 0 <==> state <= MAX_READERS,
        state | COLLECTING_BIT == (if state <= MAX_READERS {
            (state + COLLECTING_BIT) as u64
        } else {
            state
        }),
        state & !COLLECTING_BIT == (if state <= MAX_READERS {
            state
        } else {
            (state - COLLECTING_BIT) as u64
        }),
{
    assert(state & 0x8000_0000_0000_0000 == 0 <==> state <= 0x7FFF_FFFF_FFFF_FFFF) by (bit_vector);
    assert(state <= 0x7FFF_FFFF_FFFF_FFFF ==> state | 0x8000_0000_0000_0000 == state
        + 0x8000_0000_0000_0000) by (bit_vector);
    assert(state > 0x7FFF_FFFF_FFFF_FFFF ==> state | 0x8000_0000_0000_0000 == state) by (bit_vector);
    assert(state <= 0x7FFF_FFFF_FFFF_FFFF ==> state & !0x8000_0000_0000_0000 == state) by (bit_vector);
    assert(state > 0x7FFF_FFFF_FFFF_FFFF ==> state & !0x8000_0000_0000_0000 == state
        - 0x8000_0000_0000_0000) by (bit_vector);
}

impl ReaderState {
    /// Returns a state without readers and without a collection.
    pub fn new() -> (created: Self)
        ensures
            created@ == (ReaderStateView { collecting: false, readers: 0 }),
    {
        ReaderState { state: 0 }
    }

    /// Adds a reader unless the collector is trying to collect.
    pub fn read(&mut self) -> (acquired: bool)
        requires
            old(self)@.readers < MAX_READERS,
        ensures
            acquired == !old(self)@.collecting,
            final(self)@ == (if acquired {
                ReaderStateView { readers: old(self)@.readers + 1, ..old(self)@ }
            } else {
                old(self)@
            }),
    {
        proof {
            lemma_bits(self.state);
        }
        if self.state & COLLECTING_BIT == 0 {
            self.state = self.state + 1;
            true
        } else {
            false
        }
    }

    /// Adds a reader for a thread that has one already.
    pub fn read_recursive(&mut self)
        requires
            old(self)@.readers < MAX_READERS,
        ensures
            final(self)@ == (ReaderStateView { readers: old(self)@.readers + 1, ..old(self)@ }),
    {
        self.state = self.state + 1;
    }

    /// Removes a reader. Returns true if the collector waited for this one
    /// only.
    pub fn release_read(&mut self) -> (last: bool)
        requires
            old(self)@.readers > 0,
        ensures
            last == (old(self)@.collecting && old(self)@.readers == 1),
            final(self)@ == (ReaderStateView {
                readers: (old(self)@.readers - 1) as nat,
                ..old(self)@
            }),
    {
        let previous: u64 = self.state;
        self.state = previous - 1;
        proof {
            assert(0x8000_0000_0000_0000u64 | 1 == 0x8000_0000_0000_0001u64) by (bit_vector);
        }
        previous == (COLLECTING_BIT | 1)
    }

    /// Announces a collection. Returns true if there are no readers to wait
    /// for and none was announced before.
    pub fn write(&mut self) -> (alone: bool)
        ensures
            alone == (old(self)@.readers == 0 && !old(self)@.collecting),
            final(self)@ == (ReaderStateView { collecting: true, ..old(self)@ }),
    {
        let current_readers: u64 = self.state;
        proof {
            lemma_bits(self.state);
        }
        self.state = self.state | COLLECTING_BIT;
        current_readers == 0
    }

    /// Withdraws the announcement of a collection.
    pub fn release_write(&mut self)
        ensures
            final(self)@ == (ReaderStateView { collecting: false, ..old(self)@ }),
    {
        proof {
            lemma_bits(self.state);
        }
        self.state = self.state & !COLLECTING_BIT;
    }

    /// Returns true if a collection is announced.
    pub fn collecting(&self) -> (result: bool)
        ensures
            result == self@.collecting,
    {
        proof {
            lemma_bits(self.state);
        }
        self.state & COLLECTING_BIT != 0
    }

    /// Returns the number of readers.
    pub fn readers(&self) -> (readers: u64)
        ensures
            readers == self@.readers,
    {
        proof {
            lemma_bits(self.state);
        }
        self.state & !COLLECTING_BIT
    }

    /// Removes a reader if the collector is trying to collect.
    pub fn release_read_if_collecting(&mut self) -> (result: ReleaseReadResult)
        requires
            old(self)@.readers > 0,
        ensures
            result == (if !old(self)@.collecting {
                ReleaseReadResult::Noop
            } else if old(self)@.readers == 1 {
                ReleaseReadResult::CollectAndUnpark
            } else {
                ReleaseReadResult::Collect
            }),
            final(self)@ == (if old(self)@.collecting {
                ReaderStateView { readers: (old(self)@.readers - 1) as nat, ..old(self)@ }
            } else {
                old(self)@
            }),
    {
        let previous: u64 = self.state;
        proof {
            lemma_bits(self.state);
            assert(0x8000_0000_0000_0000u64 | 1 == 0x8000_0000_0000_0001u64) by (bit_vector);
        }
        if previous & COLLECTING_BIT != 0 {
            self.state = previous - 1;
            if previous == (COLLECTING_BIT | 1) {
                ReleaseReadResult::CollectAndUnpark
            } else {
                ReleaseReadResult::Collect
            }
        } else {
            ReleaseReadResult::Noop
        }
    }
}

} // verus!
