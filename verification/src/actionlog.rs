//! A bounded log of actions: the newest entries, at most
//! [`ACTION_LOG_CAPACITY`] of them.

use vstd::prelude::*;
use std::collections::VecDeque;
use vstd::string::*;
use crate::labels::{next_seed, seed_after};

verus! {

/// How many entries the log keeps.
pub const ACTION_LOG_CAPACITY: usize = 500;

/// One action: when it happened, in milliseconds since the epoch, what it
/// was aimed at, and what kind of action it was.
#[derive(Debug)]
pub struct ActionLogEntry {
    pub timestamp_millis: u64,
    pub target_path: String,
    pub action_type: String,
}

impl Clone for ActionLogEntry {
    fn clone(&self) -> (copy: ActionLogEntry)
        ensures
            copy.timestamp_millis == self.timestamp_millis,
            copy.target_path@ == self.target_path@,
            copy.action_type@ == self.action_type@,
    {
        ActionLogEntry {
            timestamp_millis: self.timestamp_millis,
            target_path: self.target_path.clone(),
            action_type: self.action_type.clone(),
        }
    }
}

/// The log: oldest entry first.
#[derive(Debug)]
pub struct ActionLog {
    entries: VecDeque<ActionLogEntry>,
}

impl View for ActionLog {
    type V = Seq<ActionLogEntry>;

    closed spec fn view(&self) -> Seq<ActionLogEntry> {
        self.entries@
    }
}

/// The log after `entry` is added: the entry comes last, and where the log
/// was full its oldest entry has gone.
pub open spec fn log_after(log: Seq<ActionLogEntry>, entry: ActionLogEntry) -> Seq<ActionLogEntry> {
    if log.len() >= ACTION_LOG_CAPACITY {
        log.drop_first().push(entry)
    } else {
        log.push(entry)
    }
}

impl ActionLog {
    /// The log holds no more than its capacity. Every log that [`new`]
    /// made and the methods below changed is well formed.
    ///
    /// [`new`]: ActionLog::new
    pub open spec fn wf(&self) -> bool {
        self@.len() <= ACTION_LOG_CAPACITY
    }

    /// An empty log.
    pub fn new() -> (log: ActionLog)
        ensures
            log@.len() == 0,
            log.wf(),
    {
        ActionLog { entries: VecDeque::with_capacity(ACTION_LOG_CAPACITY) }
    }

    /// Adds an entry; where the log is full, the oldest entry makes room.
    pub fn push(&mut self, timestamp_millis: u64, target_path: String, action_type: String)
        requires
            old(self).wf(),
        ensures
            final(self).wf(),
            final(self)@ == log_after(
                old(self)@,
                ActionLogEntry { timestamp_millis, target_path, action_type },
            ),
    {
        if self.entries.len() >= ACTION_LOG_CAPACITY {
            let _ = self.entries.pop_front();
        }
        self.entries.push_back(ActionLogEntry { timestamp_millis, target_path, action_type });
        proof {
            assert(self.entries@ =~= log_after(
                old(self)@,
                ActionLogEntry { timestamp_millis, target_path, action_type },
            ));
        }
    }

    /// The newest entry.
    pub fn latest(&self) -> (entry: Option<&ActionLogEntry>)
        ensures
            self@.len() == 0 ==> entry is None,
            self@.len() > 0 ==> entry == Some(&self@.last()),
    {
        let len = self.entries.len();
        if len == 0 {
            None
        } else {
            Some(&self.entries[len - 1])
        }
    }

    /// How many entries the log holds.
    pub fn len(&self) -> (len: usize)
        ensures
            len == self@.len(),
    {
        self.entries.len()
    }

    /// Empties the log.
    pub fn clear(&mut self)
        ensures
            final(self)@.len() == 0,
            final(self).wf(),
    {
        self.entries.clear();
    }
}


/// How many kinds of action there are.
pub const ACTION_KINDS: usize = 6;

/// The name of a kind of action.
pub open spec fn action_text(kind: usize) -> Seq<char> {
    if kind == 0 {
        "inspect"@
    } else if kind == 1 {
        "classify"@
    } else if kind == 2 {
        "correlate"@
    } else if kind == 3 {
        "trace"@
    } else if kind == 4 {
        "verify"@
    } else {
        "highlight"@
    }
}

/// The name of a kind of action.
pub fn action_name(kind: usize) -> (name: String)
    ensures
        name@ == action_text(kind),
{
    if kind == 0 {
        String::from_str("inspect")
    } else if kind == 1 {
        String::from_str("classify")
    } else if kind == 2 {
        String::from_str("correlate")
    } else if kind == 3 {
        String::from_str("trace")
    } else if kind == 4 {
        String::from_str("verify")
    } else {
        String::from_str("highlight")
    }
}

/// A cell picked for an action of some kind.
#[derive(Debug, Clone, Copy, PartialEq, Eq, Structural)]
pub struct Pick {
    pub cell: usize,
    pub kind: usize,
}

/// The seed of the pick number `offset`, from the seed before it.
pub open spec fn pick_seed(before: u64, offset: usize) -> u64 {
    seed_after(before ^ (((offset + 1) * 0x9E37_79B9) as u64))
}

/// The first `count` picks among `total` cells, from `seed` on, with the
/// seed after the last.
pub open spec fn picks_from(seed: u64, total: usize, count: nat) -> (Seq<Pick>, u64)
    decreases count,
{
    if count == 0 || total == 0 {
        (Seq::empty(), seed)
    } else {
        let earlier = picks_from(seed, total, (count - 1) as nat);
        let next = pick_seed(earlier.1, (count - 1) as usize);
        (
            earlier.0.push(
                Pick { cell: (next % (total as u64)) as usize, kind: (next % 6) as usize },
            ),
            next,
        )
    }
}

/// The cells that a simulated burst of activity touches: as many as there
/// are kinds of action, or as there are cells if those are fewer, each
/// with its kind of action, drawn from `seed`.
pub fn pick_actions(seed: u64, total: usize) -> (picks: Vec<Pick>)
    ensures
        picks@ == picks_from(
            seed,
            total,
            if total < ACTION_KINDS {
                total as nat
            } else {
                ACTION_KINDS as nat
            },
        ).0,
        forall|i: int| 0 <= i < picks@.len() ==> (#[trigger] picks@[i]).cell < total && picks@[i].kind
            < ACTION_KINDS,
{
    let count: usize = if total < ACTION_KINDS {
        total
    } else {
        ACTION_KINDS
    };
    let mut picks: Vec<Pick> = Vec::new();
    let mut current: u64 = seed;
    let mut offset: usize = 0;
    while offset < count
        invariant
            offset <= count <= ACTION_KINDS,
            count <= total,
            (picks@, current) == picks_from(seed, total, offset as nat),
            forall|i: int|
                0 <= i < picks@.len() ==> (#[trigger] picks@[i]).cell < total && picks@[i].kind
                    < ACTION_KINDS,
        decreases count - offset,
    {
        current = next_seed(current ^ (((offset as u64) + 1) * 0x9E37_79B9));
        picks.push(
            Pick { cell: (current % (total as u64)) as usize, kind: (current % 6) as usize },
        );
        offset += 1;
    }
    picks
}

} // verus!
