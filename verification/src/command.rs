//! What is asked of the collector.

use vstd::prelude::*;

use crate::any_ref::CollectorThreadId;

verus! {

/// A request to the collector.
#[derive(Clone, Copy, PartialEq, Eq, Structural, Debug)]
pub enum CollectorCommand {
    /// A pool was created.
    NewThread(CollectorThreadId),
    /// The last handle to a pool is gone.
    ThreadShutdown(CollectorThreadId),
    /// A collection was requested at the given time.
    Collect(u64),
    /// A collection should happen soon.
    ScheduleCollect,
}

/// The pools that have handles once the command is carried out.
pub open spec fn alive_after(alive: Set<u64>, command: CollectorCommand) -> Set<u64> {
    match command {
        CollectorCommand::NewThread(thread) => alive.insert(thread.id as u64),
        CollectorCommand::ThreadShutdown(thread) => alive.remove(thread.id as u64),
        _ => alive,
    }
}

/// The pools that the collector may know of once the command is carried out.
pub open spec fn known_after(known: Set<u64>, command: CollectorCommand) -> Set<u64> {
    match command {
        CollectorCommand::NewThread(thread) => known.insert(thread.id as u64),
        _ => known,
    }
}

/// The command makes sense: a new pool is not known yet, and a pool that is
/// shut down had a handle.
pub open spec fn acceptable(alive: Set<u64>, known: Set<u64>, command: CollectorCommand) -> bool {
    match command {
        CollectorCommand::NewThread(thread) => !known.contains(thread.id as u64),
        CollectorCommand::ThreadShutdown(thread) => alive.contains(thread.id as u64),
        _ => true,
    }
}

/// Each command makes sense once those before it are carried out.
pub open spec fn all_acceptable(
    alive: Set<u64>,
    known: Set<u64>,
    commands: Seq<CollectorCommand>,
) -> bool
    decreases commands.len(),
{
    commands.len() > 0 ==> {
        &&& acceptable(alive, known, commands[0])
        &&& all_acceptable(
            alive_after(alive, commands[0]),
            known_after(known, commands[0]),
            commands.skip(1),
        )
    }
}

/// The pools that have handles once all commands are carried out.
pub open spec fn alive_at_end(alive: Set<u64>, commands: Seq<CollectorCommand>) -> Set<u64>
    decreases commands.len(),
{
    if commands.len() > 0 {
        alive_at_end(alive_after(alive, commands[0]), commands.skip(1))
    } else {
        alive
    }
}

/// The pools that the collector may know of once all commands are carried out.
pub open spec fn known_at_end(known: Set<u64>, commands: Seq<CollectorCommand>) -> Set<u64>
    decreases commands.len(),
{
    if commands.len() > 0 {
        known_at_end(known_after(known, commands[0]), commands.skip(1))
    } else {
        known
    }
}

/// A command that makes sense at the end can be added there.
pub proof fn lemma_command_added(
    alive: Set<u64>,
    known: Set<u64>,
    commands: Seq<CollectorCommand>,
    command: CollectorCommand,
)
    requires
        all_acceptable(alive, known, commands),
        acceptable(alive_at_end(alive, commands), known_at_end(known, commands), command),
    ensures
        all_acceptable(alive, known, commands.push(command)),
        alive_at_end(alive, commands.push(command)) == alive_after(
            alive_at_end(alive, commands),
            command,
        ),
        known_at_end(known, commands.push(command)) == known_after(
            known_at_end(known, commands),
            command,
        ),
    decreases commands.len(),
{
    reveal_with_fuel(all_acceptable, 2);
    reveal_with_fuel(alive_at_end, 2);
    reveal_with_fuel(known_at_end, 2);
    let longer = commands.push(command);
    if commands.len() > 0 {
        lemma_command_added(
            alive_after(alive, commands[0]),
            known_after(known, commands[0]),
            commands.skip(1),
            command,
        );
        assert(longer.skip(1) =~= commands.skip(1).push(command));
        assert(longer[0] == commands[0]);
    } else {
        assert(longer[0] == command);
        assert(longer.skip(1) =~= Seq::<CollectorCommand>::empty());
        assert(commands =~= Seq::<CollectorCommand>::empty());
    }
}

/// Forgetting pools keeps commands acceptable.
pub proof fn lemma_known_forgotten(
    alive: Set<u64>,
    known: Set<u64>,
    fewer: Set<u64>,
    commands: Seq<CollectorCommand>,
)
    requires
        all_acceptable(alive, known, commands),
        fewer.subset_of(known),
    ensures
        all_acceptable(alive, fewer, commands),
        known_at_end(fewer, commands).subset_of(known_at_end(known, commands)),
    decreases commands.len(),
{
    if commands.len() > 0 {
        lemma_known_forgotten(
            alive_after(alive, commands[0]),
            known_after(known, commands[0]),
            known_after(fewer, commands[0]),
            commands.skip(1),
        );
    }
}

/// The collector still knows what it knows now.
pub proof fn lemma_known_grows(known: Set<u64>, commands: Seq<CollectorCommand>)
    ensures
        known.subset_of(known_at_end(known, commands)),
    decreases commands.len(),
{
    if commands.len() > 0 {
        lemma_known_grows(known_after(known, commands[0]), commands.skip(1));
    }
}

/// A pool that becomes known was not known before.
pub proof fn lemma_known_source(
    alive: Set<u64>,
    known: Set<u64>,
    fewer: Set<u64>,
    commands: Seq<CollectorCommand>,
    id: u64,
)
    requires
        all_acceptable(alive, known, commands),
        fewer.subset_of(known),
        known_at_end(fewer, commands).contains(id),
    ensures
        fewer.contains(id) || !known.contains(id),
    decreases commands.len(),
{
    if commands.len() > 0 {
        lemma_known_source(
            alive_after(alive, commands[0]),
            known_after(known, commands[0]),
            known_after(fewer, commands[0]),
            commands.skip(1),
            id,
        );
    }
}

/// A pool that has a handle in the end has one now or is not known yet.
pub proof fn lemma_alive_source(
    alive: Set<u64>,
    known: Set<u64>,
    commands: Seq<CollectorCommand>,
    id: u64,
)
    requires
        all_acceptable(alive, known, commands),
        alive_at_end(alive, commands).contains(id),
    ensures
        alive.contains(id) || !known.contains(id),
    decreases commands.len(),
{
    if commands.len() > 0 {
        lemma_alive_source(
            alive_after(alive, commands[0]),
            known_after(known, commands[0]),
            commands.skip(1),
            id,
        );
    }
}

} // verus!
