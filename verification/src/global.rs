//! The collector together with what it shares and what is asked of it.

use std::collections::VecDeque;
use vstd::prelude::*;

use crate::any_ref::Addr;
use crate::collector::{
    after_collect, alive_of, collected, finished, kept_generations, kept_handles, kept_layouts,
    marks_ok, next_mark, scheduled, CollectResult, CollectionTimes, Collector, CollectorView,
    INITIAL_AVERAGE,
};
use crate::command::{
    acceptable, alive_after, alive_at_end, all_acceptable, known_after, known_at_end,
    lemma_alive_source, lemma_command_added, lemma_known_forgotten, lemma_known_grows,
    lemma_known_source, CollectorCommand,
};
use crate::heap::{generations_ok, BinAddr};
use crate::info::{waits_for, CollectorInfo, InfoView};
use crate::layout::Layout;
use crate::reach::rooted;
use crate::reader_state::ReaderStateView;
use crate::slab::Cell;
use crate::trace::AnyValue;

verus! {

/// A garbage collector: what the threads share, the collector itself, and the
/// commands that it has not carried out yet.
pub struct GlobalCollector<V> {
    pub info: CollectorInfo<V>,
    pub collector: Collector,
    pub commands: VecDeque<CollectorCommand>,
}

/// What a [`GlobalCollector`] holds, without its commands.
#[verifier::ext_equal]
pub ghost struct GlobalView<V> {
    pub info: InfoView,
    pub collector: CollectorView,
    pub cells: Map<Addr, Cell<V>>,
    /// The generation of every slot: that of the value it holds or held last, or
    /// zero.
    pub generations: Map<Addr, u32>,
    /// How the slots of every bin are used.
    pub layouts: Map<BinAddr, Layout>,
}

/// What the collector does next.
#[derive(Clone, Copy, PartialEq, Eq, Structural, Debug)]
pub enum NextCommand {
    /// Carry out the command.
    Command(CollectorCommand),
    /// Collect: a scheduled collection is due.
    Collect,
    /// Wait for a command, but no longer than until the given time.
    Wait(Option<u128>),
}

impl<V> View for GlobalCollector<V> {
    type V = GlobalView<V>;

    open spec fn view(&self) -> GlobalView<V> {
        GlobalView {
            info: self.info@,
            collector: self.collector@,
            cells: self.info.cells(),
            generations: self.info.generations(),
            layouts: self.info.layouts(),
        }
    }
}

/// The pools that have a handle.
pub open spec fn with_handles(handles: Map<u64, u64>) -> Set<u64> {
    Set::new(|id: u64| handles.dom().contains(id) && handles[id] > 0)
}

/// The commands make sense to the collector, and once they are carried out it
/// knows which pools have handles.
pub open spec fn commands_ok<V>(state: GlobalView<V>, commands: Seq<CollectorCommand>) -> bool {
    let threads = state.collector.threads;
    &&& all_acceptable(alive_of(threads), threads.dom(), commands)
    &&& known_at_end(threads.dom(), commands).subset_of(state.info.handles.dom())
    &&& alive_at_end(alive_of(threads), commands) == with_handles(state.info.handles)
}

/// The state after the command, without the collection that it may ask for.
pub open spec fn accepted<V>(state: GlobalView<V>, command: CollectorCommand, now: u64) -> GlobalView<
    V,
> {
    let collector = state.collector;
    match command {
        CollectorCommand::NewThread(thread) => GlobalView {
            collector: CollectorView {
                threads: collector.threads.insert(thread.id as u64, true),
                active_threads: collector.active_threads + 1,
                ..collector
            },
            ..state
        },
        CollectorCommand::ThreadShutdown(thread) => {
            let pools = collector.threads.dom();
            let forget = collector.active_threads == 1 && state.info.reader_state.readers == 0 && (
            forall|addr: Addr| !(#[trigger] rooted(state.cells, addr)));
            GlobalView {
                collector: CollectorView {
                    threads: if forget {
                        Map::empty()
                    } else {
                        collector.threads.insert(thread.id as u64, false)
                    },
                    active_threads: (collector.active_threads - 1) as nat,
                    ..collector
                },
                cells: if forget {
                    state.cells.restrict(
                        Set::new(|addr: Addr| !pools.contains(addr.thread as u64)),
                    )
                } else {
                    state.cells
                },
                generations: if forget {
                    state.generations.restrict(
                        Set::new(|addr: Addr| !pools.contains(addr.thread as u64)),
                    )
                } else {
                    state.generations
                },
                layouts: if forget {
                    state.layouts.restrict(
                        Set::new(|bin: BinAddr| !pools.contains(bin.thread as u64)),
                    )
                } else {
                    state.layouts
                },
                ..state
            }
        },
        CollectorCommand::Collect(_) => state,
        CollectorCommand::ScheduleCollect => GlobalView {
            collector: CollectorView {
                next_gc: scheduled(
                    collector.next_gc,
                    (now + collector.average_collection * 5) as u128,
                ),
                ..collector
            },
            ..state
        },
    }
}

/// The command asks for a collection that has not happened yet.
pub open spec fn asks_to_collect<V>(state: GlobalView<V>, command: CollectorCommand) -> bool {
    match command {
        CollectorCommand::Collect(requested_at) => waits_for(state.info, requested_at),
        _ => false,
    }
}

/// The state after a collection.
pub open spec fn after_collection<V: AnyValue>(
    state: GlobalView<V>,
    times: CollectionTimes,
) -> GlobalView<V> {
    let cells = collected(state.cells, next_mark(state.collector.mark_bits));
    GlobalView {
        info: InfoView {
            reader_state: ReaderStateView { collecting: false, readers: 0 },
            last_run: times.gc_finish,
            signalled_collector: false,
            handles: kept_handles(state.info.handles, state.collector.threads, cells),
            ..state.info
        },
        collector: finished(
            after_collect(
                CollectorView { next_gc: None, ..state.collector },
                state.cells,
                times.lock_start,
                times.locked,
            ),
            CollectResult::Collected,
            times.gc_start,
            times.gc_finish,
        ),
        cells,
        generations: kept_generations(state.generations, state.collector.threads, cells),
        layouts: kept_layouts(state.layouts, state.collector.threads, state.cells, cells),
    }
}

/// The state after the command and the collection that it may ask for.
pub open spec fn after_command<V: AnyValue>(
    state: GlobalView<V>,
    command: CollectorCommand,
    times: CollectionTimes,
) -> GlobalView<V> {
    let next = accepted(state, command, times.gc_start);
    if asks_to_collect(state, command) {
        after_collection(next, times)
    } else {
        next
    }
}

/// The state after all commands.
pub open spec fn after_commands<V: AnyValue>(
    state: GlobalView<V>,
    commands: Seq<CollectorCommand>,
    times: CollectionTimes,
) -> GlobalView<V>
    decreases commands.len(),
{
    if commands.len() > 0 {
        after_commands(after_command(state, commands[0], times), commands.skip(1), times)
    } else {
        state
    }
}

/// The state after a request to collect was made and served. A collection that
/// was announced before is carried out first.
pub open spec fn after_request<V: AnyValue>(
    state: GlobalView<V>,
    commands: Seq<CollectorCommand>,
    now: u64,
    times: CollectionTimes,
) -> GlobalView<V> {
    let ready = if state.info.reader_state.collecting {
        after_collection(state, times)
    } else {
        state
    };
    after_commands(ready, commands.push(CollectorCommand::Collect(now)), times)
}

/// The state after a collection was asked for.
pub open spec fn signalled<V>(state: GlobalView<V>) -> GlobalView<V> {
    GlobalView { info: InfoView { signalled_collector: true, ..state.info }, ..state }
}

/// The collector agrees with what the threads see.
pub open spec fn state_ok<V>(state: GlobalView<V>) -> bool {
    let threads = state.collector.threads;
    &&& threads.dom().subset_of(state.info.handles.dom())
    &&& alive_of(threads).finite()
    &&& alive_of(threads).len() == state.collector.active_threads
    &&& marks_ok(state.cells, state.collector)
    &&& generations_ok(state.cells, state.generations)
}

/// Carrying out the first command keeps the collector in agreement.
pub proof fn lemma_accepted_ok<V: AnyValue>(
    state: GlobalView<V>,
    command: CollectorCommand,
    rest: Seq<CollectorCommand>,
    now: u64,
)
    requires
        state_ok(state),
        commands_ok(state, seq![command] + rest),
    ensures
        acceptable(alive_of(state.collector.threads), state.collector.threads.dom(), command),
        state_ok(accepted(state, command, now)),
        commands_ok(accepted(state, command, now), rest),
{
    let next = accepted(state, command, now);
    let before = state.collector.threads;
    let threads = next.collector.threads;
    let alive = alive_of(before);
    let all = seq![command] + rest;
    assert(all.skip(1) =~= rest);
    assert(all[0] == command);
    lemma_known_grows(known_after(before.dom(), command), rest);
    match command {
        CollectorCommand::NewThread(thread) => {
            assert(alive_of(threads) =~= alive_after(alive, command));
            assert(threads.dom() =~= known_after(before.dom(), command));
        },
        CollectorCommand::ThreadShutdown(thread) => {
            assert(alive.remove(thread.id as u64).len() == alive.len() - 1);
            if state.collector.active_threads == 1 {
                assert(alive.remove(thread.id as u64) =~= Set::<u64>::empty());
            }
            assert(alive_of(threads) =~= alive_after(alive, command));
            lemma_known_forgotten(alive_of(threads), before.dom(), threads.dom(), rest);
        },
        _ => {},
    }
}

/// A collection keeps the collector in agreement.
pub proof fn lemma_collection_ok<V: AnyValue>(
    state: GlobalView<V>,
    commands: Seq<CollectorCommand>,
    times: CollectionTimes,
)
    requires
        state_ok(state),
        commands_ok(state, commands),
    ensures
        state_ok(after_collection(state, times)),
        commands_ok(after_collection(state, times), commands),
        forall|id: u64| #[trigger]
            with_handles(state.info.handles).contains(id) ==> after_collection(
                state,
                times,
            ).info.handles.dom().contains(id) && after_collection(state, times).info.handles[id]
                == state.info.handles[id],
{
    let next = after_collection(state, times);
    let before = state.collector.threads;
    let threads = next.collector.threads;
    let alive = alive_of(before);
    assert(alive_of(threads) =~= alive);
    lemma_known_forgotten(alive, before.dom(), threads.dom(), commands);
    let known = known_at_end(threads.dom(), commands);
    assert forall|id: u64| known.contains(id) implies next.info.handles.dom().contains(id) by {
        lemma_known_source(alive, before.dom(), threads.dom(), commands, id);
    }
    assert forall|id: u64| #[trigger] with_handles(state.info.handles).contains(id) implies
        next.info.handles.dom().contains(id) && next.info.handles[id] == state.info.handles[id] by {
        lemma_alive_source(alive, before.dom(), commands, id);
    }
    assert(with_handles(next.info.handles) =~= with_handles(state.info.handles));
}

/// Carrying out a command keeps the collector in agreement and every pool that
/// has handles.
pub proof fn lemma_after_command_ok<V: AnyValue>(
    state: GlobalView<V>,
    command: CollectorCommand,
    rest: Seq<CollectorCommand>,
    times: CollectionTimes,
)
    requires
        state_ok(state),
        commands_ok(state, seq![command] + rest),
    ensures
        state_ok(after_command(state, command, times)),
        commands_ok(after_command(state, command, times), rest),
        forall|id: u64| #[trigger]
            with_handles(state.info.handles).contains(id) ==> after_command(
                state,
                command,
                times,
            ).info.handles.dom().contains(id) && after_command(
                state,
                command,
                times,
            ).info.handles[id] == state.info.handles[id],
{
    lemma_accepted_ok(state, command, rest, times.gc_start);
    let next = accepted(state, command, times.gc_start);
    if asks_to_collect(state, command) {
        lemma_collection_ok(next, rest, times);
    }
}

/// Carrying out all commands keeps the collector in agreement and every pool
/// that has handles.
pub proof fn lemma_after_commands_ok<V: AnyValue>(
    state: GlobalView<V>,
    commands: Seq<CollectorCommand>,
    times: CollectionTimes,
)
    requires
        state_ok(state),
        commands_ok(state, commands),
    ensures
        state_ok(after_commands(state, commands, times)),
        commands_ok(after_commands(state, commands, times), Seq::<CollectorCommand>::empty()),
        forall|id: u64| #[trigger]
            with_handles(state.info.handles).contains(id) ==> after_commands(
                state,
                commands,
                times,
            ).info.handles.dom().contains(id) && after_commands(
                state,
                commands,
                times,
            ).info.handles[id] == state.info.handles[id],
    decreases commands.len(),
{
    if commands.len() > 0 {
        assert(seq![commands[0]] + commands.skip(1) =~= commands);
        lemma_after_command_ok(state, commands[0], commands.skip(1), times);
        let next = after_command(state, commands[0], times);
        lemma_after_commands_ok(next, commands.skip(1), times);
        assert forall|id: u64| #[trigger] with_handles(state.info.handles).contains(id) implies
            after_commands(state, commands, times).info.handles.dom().contains(id)
            && after_commands(state, commands, times).info.handles[id] == state.info.handles[id] by {
            assert(with_handles(next.info.handles).contains(id));
        }
    } else {
        assert(commands =~= Seq::<CollectorCommand>::empty());
    }
}

impl<V: AnyValue> GlobalCollector<V> {
    /// All but the commands is well-formed.
    pub open spec fn state_wf(self) -> bool {
        &&& self.info.wf()
        &&& self.collector.wf()
        &&& state_ok(self@)
    }

    pub open spec fn wf(self) -> bool {
        &&& self.state_wf()
        &&& commands_ok(self@, self.commands@)
    }

    /// Returns a collector without pools.
    pub fn new(now: u64) -> (global: Self)
        ensures
            global.wf(),
            global.commands@ == Seq::<CollectorCommand>::empty(),
            global@ == (GlobalView {
                info: InfoView {
                    reader_state: ReaderStateView { collecting: false, readers: 0 },
                    last_run: now,
                    signalled_collector: false,
                    handles: Map::empty(),
                    types: Map::empty(),
                    next_thread_id: 0,
                },
                collector: CollectorView {
                    threads: Map::empty(),
                    active_threads: 0,
                    mark_bits: 0,
                    next_gc: None,
                    pause_failures: 0,
                    average_collection: INITIAL_AVERAGE,
                    average_collection_locking: INITIAL_AVERAGE,
                },
                cells: Map::<Addr, Cell<V>>::empty(),
                generations: Map::<Addr, u32>::empty(),
                layouts: Map::<BinAddr, Layout>::empty(),
            }),
    {
        let global = GlobalCollector {
            info: CollectorInfo::new(now),
            collector: Collector::new(),
            commands: VecDeque::new(),
        };
        proof {
            assert(alive_of(global@.collector.threads) =~= Set::<u64>::empty());
            assert(with_handles(global@.info.handles) =~= Set::<u64>::empty());
        }
        global
    }

    /// Asks for a collection soon, unless that was done already.
    pub fn schedule_collect_if_needed(&mut self)
        requires
            old(self).wf(),
        ensures
            final(self).wf(),
            final(self)@ == signalled(old(self)@),
            final(self).commands@ == (if old(self)@.info.signalled_collector {
                old(self).commands@
            } else {
                old(self).commands@.push(CollectorCommand::ScheduleCollect)
            }),
            final(self).info.all_threads == old(self).info.all_threads,
    {
        if !self.info.signalled_collector {
            self.info.signalled_collector = true;
            proof {
                let threads = self@.collector.threads;
                lemma_command_added(
                    alive_of(threads),
                    threads.dom(),
                    self.commands@,
                    CollectorCommand::ScheduleCollect,
                );
            }
            self.commands.push_back(CollectorCommand::ScheduleCollect);
        }
    }

    /// Takes the next command, or says what else to do at the time `now`.
    pub fn next_command(&mut self, now: u64) -> (next: NextCommand)
        requires
            old(self).wf(),
        ensures
            final(self)@ == old(self)@,
            final(self).info.all_threads == old(self).info.all_threads,
            final(self).state_wf(),
            if old(self).commands@.len() > 0 {
                &&& next == NextCommand::Command(old(self).commands@[0])
                &&& final(self).commands@ == old(self).commands@.skip(1)
            } else {
                &&& final(self).commands@ == old(self).commands@
                &&& next == (match old(self)@.collector.next_gc {
                    Some(time) => if now >= time {
                        NextCommand::Collect
                    } else {
                        NextCommand::Wait(Some(time))
                    },
                    None => NextCommand::Wait(None),
                })
            },
    {
        match self.commands.pop_front() {
            Some(command) => {
                assert(self.commands@ =~= old(self).commands@.skip(1));
                NextCommand::Command(command)
            },
            None => match self.collector.next_gc {
                Some(time) => if now as u128 >= time {
                    NextCommand::Collect
                } else {
                    NextCommand::Wait(Some(time))
                },
                None => NextCommand::Wait(None),
            },
        }
    }

    /// Carries out a command that was taken from the front of the commands.
    /// Returns true if it asks for a collection now.
    pub fn accept(&mut self, command: CollectorCommand, now: u64) -> (collect: bool)
        requires
            old(self).state_wf(),
            commands_ok(old(self)@, seq![command] + old(self).commands@),
        ensures
            final(self).wf(),
            final(self).commands@ == old(self).commands@,
            final(self)@ == accepted(old(self)@, command, now),
            final(self).info.all_threads.no_more_slabs(old(self).info.all_threads),
            collect == asks_to_collect(old(self)@, command),
            !(command is ThreadShutdown) ==> final(self).info.all_threads == old(
                self,
            ).info.all_threads,
    {
        proof {
            lemma_accepted_ok(self@, command, self.commands@, now);
            let all = seq![command] + self.commands@;
            assert(all[0] == command);
        }
        let collect: bool = match command {
            CollectorCommand::NewThread(thread) => {
                self.collector.new_thread(thread);
                false
            },
            CollectorCommand::ThreadShutdown(thread) => {
                self.collector.thread_shutdown(&mut self.info, thread);
                false
            },
            CollectorCommand::Collect(requested_at) => self.info.wait_for_collection(requested_at),
            CollectorCommand::ScheduleCollect => {
                let target: u128 = now as u128 + self.collector.average_collection * 5;
                self.collector.schedule_gc(target);
                false
            },
        };
        proof {
            self.info.all_threads.lemma_no_more_slabs(old(self).info.all_threads);
        }
        collect
    }

    /// Collects. There must be no readers.
    pub fn collect_and_notify(&mut self, times: CollectionTimes)
        requires
            old(self).wf(),
            old(self)@.info.reader_state.readers == 0,
        ensures
            final(self).wf(),
            final(self).commands@ == old(self).commands@,
            final(self)@ == after_collection(old(self)@, times),
            final(self).info.all_threads.no_more_slabs(old(self).info.all_threads),
    {
        proof {
            lemma_collection_ok(self@, self.commands@, times);
        }
        self.collector.collect_and_notify(&mut self.info, times);
        proof {
            self.info.all_threads.lemma_no_more_slabs(old(self).info.all_threads);
        }
    }

    /// Carries out all commands, one after the other. There must be no
    /// readers.
    pub fn run(&mut self, times: CollectionTimes)
        requires
            old(self).wf(),
            old(self)@.info.reader_state.readers == 0,
        ensures
            final(self).wf(),
            final(self).commands@ == Seq::<CollectorCommand>::empty(),
            final(self)@ == after_commands(old(self)@, old(self).commands@, times),
            final(self)@.info.reader_state.readers == 0,
            final(self).info.all_threads.no_more_slabs(old(self).info.all_threads),
    {
        while self.commands.len() > 0
            invariant
                self.wf(),
                self@.info.reader_state.readers == 0,
                self.info.all_threads.no_more_slabs(old(self).info.all_threads),
                after_commands(self@, self.commands@, times) == after_commands(
                    old(self)@,
                    old(self).commands@,
                    times,
                ),
            decreases self.commands@.len(),
        {
            let ghost commands = self.commands@;
            if let NextCommand::Command(command) = self.next_command(times.gc_start) {
                assert(seq![command] + self.commands@ =~= commands);
                if self.accept(command, times.gc_start) {
                    self.collect_and_notify(times);
                }
            }
        }
    }

    /// Requests a collection at the time `now`.
    pub fn request_collection(&mut self, now: u64)
        requires
            old(self).wf(),
        ensures
            final(self).wf(),
            final(self)@ == old(self)@,
            final(self).commands@ == old(self).commands@.push(CollectorCommand::Collect(now)),
            final(self).info.all_threads == old(self).info.all_threads,
    {
        proof {
            let threads = self@.collector.threads;
            lemma_command_added(
                alive_of(threads),
                threads.dom(),
                self.commands@,
                CollectorCommand::Collect(now),
            );
        }
        self.commands.push_back(CollectorCommand::Collect(now));
    }

    /// Requests a collection at the time `now` and waits for it. If a collection
    /// was announced already, that one is waited for. There must be no readers.
    pub fn collect_unchecked(&mut self, now: u64, times: CollectionTimes)
        requires
            old(self).wf(),
            old(self)@.info.reader_state.readers == 0,
            now <= times.gc_finish,
        ensures
            final(self).wf(),
            final(self).commands@ == Seq::<CollectorCommand>::empty(),
            final(self)@ == after_request(old(self)@, old(self).commands@, now, times),
            final(self)@.info.reader_state.readers == 0,
            !final(self)@.info.reader_state.collecting,
            final(self)@.info.last_run >= now,
            final(self).info.all_threads.no_more_slabs(old(self).info.all_threads),
            forall|id: u64| #[trigger]
                with_handles(old(self)@.info.handles).contains(id) ==> {
                    &&& final(self)@.info.handles.dom().contains(id)
                    &&& final(self)@.info.handles[id] == old(self)@.info.handles[id]
                },
    {
        let ghost before = self@;
        if self.info.reader_state.collecting() {
            proof {
                lemma_collection_ok(self@, self.commands@, times);
            }
            self.collect_and_notify(times);
        }
        proof {
            assert forall|id: u64| #[trigger] with_handles(before.info.handles).contains(id) implies
                with_handles(self@.info.handles).contains(id) && self@.info.handles[id]
                == before.info.handles[id] by {}
            let threads = self@.collector.threads;
            lemma_command_added(
                alive_of(threads),
                threads.dom(),
                self.commands@,
                CollectorCommand::Collect(now),
            );
            lemma_request_served(self@, self.commands@, now, times);
            let all = self.commands@.push(CollectorCommand::Collect(now));
            lemma_after_commands_ok(self@, all, times);
            lemma_not_collecting(self@, all, times);
        }
        self.request_collection(now);
        self.run(times);
    }
}

/// Carrying out commands does not leave a collection announced.
proof fn lemma_not_collecting<V: AnyValue>(
    state: GlobalView<V>,
    commands: Seq<CollectorCommand>,
    times: CollectionTimes,
)
    requires
        !state.info.reader_state.collecting,
    ensures
        !after_commands(state, commands, times).info.reader_state.collecting,
    decreases commands.len(),
{
    if commands.len() > 0 {
        lemma_not_collecting(
            after_command(state, commands[0], times),
            commands.skip(1),
            times,
        );
    }
}

/// Once a request is carried out, a collection has finished since it was made.
proof fn lemma_request_served<V: AnyValue>(
    state: GlobalView<V>,
    commands: Seq<CollectorCommand>,
    now: u64,
    times: CollectionTimes,
)
    requires
        now <= times.gc_finish,
    ensures
        after_commands(
            state,
            commands.push(CollectorCommand::Collect(now)),
            times,
        ).info.last_run >= now,
    decreases commands.len(),
{
    reveal_with_fuel(after_commands, 2);
    let all = commands.push(CollectorCommand::Collect(now));
    if commands.len() > 0 {
        assert(all.skip(1) =~= commands.skip(1).push(CollectorCommand::Collect(now)));
        lemma_request_served(
            after_command(state, commands[0], times),
            commands.skip(1),
            now,
            times,
        );
    } else {
        assert(all.skip(1) =~= Seq::<CollectorCommand>::empty());
    }
}

} // verus!
