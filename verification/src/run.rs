//! What a sequence of commands does to the store.

use std::time::Duration;

use vstd::prelude::*;

use crate::commands::Command;
use crate::compaction::compaction;
use crate::state::{law_installed, law_write_buffers, law_written, KvsState};

verus! {

impl KvsState {
    /// The state once the device that is waited for, if any, has handed back the compaction of the
    /// tables.
    pub open spec fn settled(self, elapsed: Duration) -> Self {
        if self.device_due {
            self.installed(compaction(self.stored()), elapsed)
        } else {
            self
        }
    }

    /// `command` is a get, or can be carried out as a write.
    pub open spec fn may_step(self, command: Command) -> bool {
        command is Get || self.may_write()
    }

    /// The state that `command` leads to by itself.
    pub open spec fn stepped(self, command: Command, elapsed: Duration) -> Self {
        match command {
            Command::Put { key, value } => self.written(key, Some(value), elapsed),
            Command::Delete { key } => self.written(key, None, elapsed),
            Command::Get { .. } => self,
        }
    }

    /// The state after `command`, with the device done where one is waited for.
    pub open spec fn after(self, command: Command, elapsed: Duration) -> Self {
        self.stepped(command, elapsed).settled(elapsed)
    }

    /// The state after the commands, where the compaction that a command leads to takes the time
    /// listed for it.
    pub open spec fn after_all(self, commands: Seq<Command>, elapsed: Seq<Duration>) -> Self
        decreases commands.len(),
    {
        if commands.len() == 0 {
            self
        } else {
            self.after_all(commands.drop_last(), elapsed).after(
                commands.last(),
                elapsed[commands.len() - 1],
            )
        }
    }

    /// Each of the commands can be carried out when its turn comes.
    pub open spec fn may_run(self, commands: Seq<Command>, elapsed: Seq<Duration>) -> bool
        decreases commands.len(),
    {
        commands.len() > 0 ==> {
            &&& self.may_run(commands.drop_last(), elapsed)
            &&& self.after_all(commands.drop_last(), elapsed).may_step(commands.last())
        }
    }
}

/// What a command does to a map: a put inserts, a delete removes, a get does nothing.
pub open spec fn map_after(map: Map<u32, u64>, command: Command) -> Map<u32, u64> {
    match command {
        Command::Put { key, value } => map.insert(key, value),
        Command::Delete { key } => map.remove(key),
        Command::Get { .. } => map,
    }
}

/// What the commands do to a map, one after the other.
pub open spec fn map_after_all(map: Map<u32, u64>, commands: Seq<Command>) -> Map<u32, u64>
    decreases commands.len(),
{
    if commands.len() == 0 {
        map
    } else {
        map_after(map_after_all(map, commands.drop_last()), commands.last())
    }
}

/// How many of the commands are puts or deletes.
pub open spec fn writes(commands: Seq<Command>) -> nat
    decreases commands.len(),
{
    if commands.len() == 0 {
        0
    } else if commands.last() is Get {
        writes(commands.drop_last())
    } else {
        writes(commands.drop_last()) + 1
    }
}

/// A command does to the key-value map of the store what it does to a map: in a faithful state, and
/// in any other unless it leads to tables being replaced.
pub proof fn law_stepped(s: KvsState, command: Command, elapsed: Duration)
    requires
        s.wf(),
        s.may_step(command),
    ensures
        s.stepped(command, elapsed).wf(),
        s.faithful() ==> s.stepped(command, elapsed).faithful(),
        s.faithful() || s.stepped(command, elapsed).next_compaction_id == s.next_compaction_id
            ==> s.stepped(command, elapsed).contents() == map_after(s.contents(), command),
{
    match command {
        Command::Put { key, value } => {
            law_written(s, key, Some(value), elapsed);
        },
        Command::Delete { key } => {
            law_written(s, key, None, elapsed);
        },
        Command::Get { .. } => {},
    }
}

/// Where a command leads to no wait for a device it is done at once, and where it does, it is done
/// once the device is, however long that takes.
pub proof fn law_stepped_settles(s: KvsState, command: Command, elapsed: Duration, wait: Duration)
    ensures
        !s.stepped(command, elapsed).device_due ==> s.stepped(command, elapsed) == s.after(
            command,
            elapsed,
        ),
        !s.device_due && s.stepped(command, elapsed).device_due ==> s.stepped(
            command,
            elapsed,
        ).settled(wait) == s.after(command, wait),
{
}

/// After any commands the store stands for the map that the same commands make of the map it stood
/// for before, whatever was flushed and compacted on the way.
pub proof fn law_store_matches_map(s: KvsState, commands: Seq<Command>, elapsed: Seq<Duration>)
    requires
        s.wf(),
        s.faithful(),
        !s.device_due,
        s.may_run(commands, elapsed),
    ensures
        s.after_all(commands, elapsed).wf(),
        s.after_all(commands, elapsed).faithful(),
        !s.after_all(commands, elapsed).device_due,
        s.after_all(commands, elapsed).contents() == map_after_all(s.contents(), commands),
    decreases commands.len(),
{
    if commands.len() > 0 {
        law_store_matches_map(s, commands.drop_last(), elapsed);
        lemma_after(
            s.after_all(commands.drop_last(), elapsed),
            commands.last(),
            elapsed[commands.len() - 1],
        );
    }
}

/// Sequence numbers are given out in turn, one to each put or delete and none to a get.
pub proof fn law_numbers_in_turn(s: KvsState, commands: Seq<Command>, elapsed: Seq<Duration>)
    requires
        s.wf(),
        !s.device_due,
        s.may_run(commands, elapsed),
    ensures
        s.after_all(commands, elapsed).wf(),
        !s.after_all(commands, elapsed).device_due,
        s.after_all(commands, elapsed).next_seq == s.next_seq + writes(commands),
    decreases commands.len(),
{
    if commands.len() > 0 {
        law_numbers_in_turn(s, commands.drop_last(), elapsed);
        lemma_after(
            s.after_all(commands.drop_last(), elapsed),
            commands.last(),
            elapsed[commands.len() - 1],
        );
    }
}

/// What one command does, with the device done where it is needed.
proof fn lemma_after(s: KvsState, command: Command, elapsed: Duration)
    requires
        s.wf(),
        !s.device_due,
        s.may_step(command),
    ensures
        s.after(command, elapsed).wf(),
        !s.after(command, elapsed).device_due,
        s.after(command, elapsed).next_seq == s.next_seq + if command is Get {
            0int
        } else {
            1
        },
        s.faithful() ==> {
            &&& s.after(command, elapsed).faithful()
            &&& s.after(command, elapsed).contents() == map_after(s.contents(), command)
        },
{
    law_stepped(s, command, elapsed);
    match command {
        Command::Put { key, value } => {
            law_write_buffers(s, key, Some(value), elapsed);
        },
        Command::Delete { key } => {
            law_write_buffers(s, key, None, elapsed);
        },
        Command::Get { .. } => {},
    }
    let t = s.stepped(command, elapsed);
    if t.device_due {
        law_installed(t, compaction(t.stored()), elapsed);
    }
}

} // verus!
