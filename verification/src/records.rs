//! Mutation records and the abstract replay semantics of the log.

use vstd::prelude::*;

verus! {

/// A mutation record: the only unit of durability. A log is a concatenation
/// of serialized records, and the store's state is their net effect.
#[derive(Debug, PartialEq, Eq)]
pub enum KvCommand {
    /// Associate a key with a value.
    Put(String, String),
    /// Delete a key's association.
    Rm(String),
}

/// The mathematical shape of a mutation record: its strings as character
/// sequences.
pub enum CommandModel {
    /// Associate a key with a value.
    Put(Seq<char>, Seq<char>),
    /// Delete a key's association.
    Rm(Seq<char>),
}

impl View for KvCommand {
    type V = CommandModel;

    open spec fn view(&self) -> CommandModel {
        match self {
            KvCommand::Put(k, v) => CommandModel::Put(k@, v@),
            KvCommand::Rm(k) => CommandModel::Rm(k@),
        }
    }
}

/// Errors reported by the store.
#[derive(Debug, Clone, Copy, PartialEq, Eq)]
pub enum KvError {
    /// `remove` was asked for a key that has no live value.
    KeyNotFound,
    /// Replay met a `Rm` record whose key had no live entry; a log written
    /// only through this store never contains one.
    MissingKeyValue,
    /// A record's strings exceed the log format's size limits.
    RecordTooLarge,
}

/// The net effect of a record sequence, applied in log order: the last
/// writer of a key wins, and `Rm` deletes the key.
pub open spec fn replay_map(recs: Seq<CommandModel>) -> Map<Seq<char>, Seq<char>>
    decreases recs.len(),
{
    if recs.len() == 0 {
        Map::empty()
    } else {
        match recs.last() {
            CommandModel::Put(k, v) => replay_map(recs.drop_last()).insert(k, v),
            CommandModel::Rm(k) => replay_map(recs.drop_last()).remove(k),
        }
    }
}

/// A record sequence replays cleanly when every `Rm` meets a live key.
pub open spec fn replay_ok(recs: Seq<CommandModel>) -> bool
    decreases recs.len(),
{
    if recs.len() == 0 {
        true
    } else {
        replay_ok(recs.drop_last()) && match recs.last() {
            CommandModel::Put(_, _) => true,
            CommandModel::Rm(k) => replay_map(recs.drop_last()).contains_key(k),
        }
    }
}

/// Point lookup in a replayed map.
pub open spec fn lookup(m: Map<Seq<char>, Seq<char>>, k: Seq<char>) -> Option<Seq<char>> {
    if m.contains_key(k) {
        Some(m[k])
    } else {
        None
    }
}

} // verus!
