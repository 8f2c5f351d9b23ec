//! Starting a node from its storage.

use crate::log::{EntryView, Log, LogEntry, LogView};
use crate::model::NodeView;
use crate::raft::{RaftNode, State};
use crate::text::append_decimal;
use crate::traits::StateMachine;
use crate::types::{Config, NodeId};
use vstd::prelude::*;
use vstd::string::*;

verus! {

/// The log of a node that starts from a snapshot, given by index and term, and from
/// the stored entries.  Entries inside the snapshot are left out.
pub open spec fn recovered_log(snapshot: Option<(u64, u64)>, entries: Seq<EntryView>) -> LogView {
    let empty = LogView {
        snapshot_index: 0,
        snapshot_term: 0,
        slots: seq![EntryView::dummy()],
        dropped_client_id: 0,
    };
    let start = match snapshot {
        Some((index, term)) => if index > 0 {
            empty.set_snapshot(index, term)
        } else {
            empty
        },
        None => empty,
    };
    start.append(entries.filter(|e: EntryView| e.index > start.snapshot_index))
}

/// The node that starts with this term, this vote and this log.
pub open spec fn recovered_node<T>(
    config: Config,
    term: u64,
    voted_for: Option<NodeId>,
    log: LogView,
) -> NodeView<T> {
    NodeView {
        config,
        state: State::Follower,
        current_term: term,
        voted_for,
        log,
        commit_index: log.snapshot_index,
        last_applied: log.snapshot_index,
        leader: None,
        current_leader: None,
    }
}

/// Why a node does not start from such a log.
pub open spec fn recovery_error(log: LogView) -> Option<Seq<char>> {
    if log.snapshot_index == 0 && log.first_index() > 1 {
        Some(
            "FATAL: Log is truncated, but no snapshot found. Data might be corrupted. Manual recovery required."@,
        )
    } else if log.len() > 0 && log.first_index() != log.snapshot_index + 1 {
        Some(
            "FATAL: Log is not consistent: snapshot_index = "@ + crate::text::decimal(
                log.snapshot_index as nat,
            ) + ", first_log_index = "@ + crate::text::decimal(log.first_index() as nat),
        )
    } else {
        None
    }
}

/// Restores the stored snapshot, given by index, term and data, in the state machine.
/// A snapshot at index zero stands for none.
pub fn restore_snapshot<S: StateMachine>(
    state_machine: &mut S,
    snapshot: Option<(u64, u64, Vec<u8>)>,
) -> (r: Result<Option<(u64, u64)>, String>)
    ensures
        match snapshot {
            Some((index, term, data)) => if index > 0 {
                exists|error: Option<Seq<char>>|
                    {
                        &&& #[trigger] old(state_machine).restores(
                            data@,
                            error,
                            *final(state_machine),
                        )
                        &&& match error {
                            None => r == Ok::<Option<(u64, u64)>, String>(Some((index, term))),
                            Some(text) => r matches Err(message) && message@
                                == "StateMachine restore failed: "@ + text,
                        }
                    }
            } else {
                *final(state_machine) == *old(state_machine) && r == Ok::<Option<(u64, u64)>, String>(None)
            },
            None => *final(state_machine) == *old(state_machine) && r == Ok::<Option<(u64, u64)>, String>(None),
        },
{
    match snapshot {
        Some((index, term, data)) => {
            if index == 0 {
                return Ok(None);
            }
            match state_machine.restore(data.as_slice()) {
                Ok(_) => Ok(Some((index, term))),
                Err(text) => {
                    let mut message = "StateMachine restore failed: ".to_string();
                    message.append(text.as_str());
                    Err(message)
                },
            }
        },
        None => Ok(None),
    }
}

/// The entries with an index above `floor`, in their order.
fn entries_above(entries: &Vec<LogEntry>, floor: u64) -> (r: Vec<LogEntry>)
    ensures
        EntryView::all(r@) == EntryView::all(entries@).filter(|e: EntryView| e.index > floor),
{
    let ghost keep = |e: EntryView| e.index > floor;
    let ghost all = EntryView::all(entries@);
    let mut found: Vec<LogEntry> = Vec::new();
    let mut i: usize = 0;
    proof {
        reveal(Seq::filter);
        assert(EntryView::all(found@) =~= all.take(0).filter(keep));
    }
    while i < entries.len()
        invariant
            i <= entries@.len(),
            all == EntryView::all(entries@),
            keep == (|e: EntryView| e.index > floor),
            EntryView::all(found@) == all.take(i as int).filter(keep),
        decreases entries.len() - i,
    {
        let ghost before = found@;
        proof {
            reveal(Seq::filter);
            assert(all.take(i + 1).drop_last() =~= all.take(i as int));
        }
        if entries[i].index > floor {
            let copy = entries[i].clone();
            found.push(copy);
            assert(EntryView::all(found@) =~= EntryView::all(before).push(copy@));
        }
        i = i + 1;
    }
    assert(all.take(i as int) =~= all);
    found
}

impl<T> RaftNode<T> {
    /// Starts a node.  `term` and `voted_for` are what the storage has of the vote,
    /// `snapshot` is the index and term of the snapshot that was restored, and
    /// `log_entries` the stored log.
    pub fn new(
        config: Config,
        term: u64,
        voted_for: Option<NodeId>,
        snapshot: Option<(u64, u64)>,
        log_entries: Vec<LogEntry>,
    ) -> (r: Result<Self, String>)
        requires
            snapshot matches Some((index, _)) ==> index < u64::MAX,
        ensures
            ({
                let log = recovered_log(snapshot, EntryView::all(log_entries@));
                match r {
                    Ok(node) => {
                        &&& recovery_error(log) is None
                        &&& node@ == recovered_node::<T>(config, term, voted_for, log)
                    },
                    Err(message) => recovery_error(log) == Some(message@),
                }
            }),
    {
        let ghost expected = recovered_log(snapshot, EntryView::all(log_entries@));
        let mut log = Log::new();
        let mut applied: u64 = 0;
        if let Some((index, snapshot_term)) = snapshot {
            if index > 0 {
                log.set_snapshot(index, snapshot_term);
                applied = index;
            }
        }
        let snapshot_index: u64 = log.snapshot_index();
        let kept = entries_above(&log_entries, snapshot_index);
        log.append(kept);
        assert(log@ == expected);
        let first_index: u64 = log.first_index();
        if first_index > 1 && applied == 0 {
            return Err(
                "FATAL: Log is truncated, but no snapshot found. Data might be corrupted. Manual recovery required.".to_string(),
            );
        }
        if !log.is_empty() && first_index != snapshot_index + 1 {
            let mut message = "FATAL: Log is not consistent: snapshot_index = ".to_string();
            append_decimal(&mut message, snapshot_index);
            message.append(", first_log_index = ");
            append_decimal(&mut message, first_index);
            return Err(message);
        }
        Ok(
            RaftNode {
                config,
                state: State::Follower,
                current_term: term,
                voted_for,
                log,
                commit_index: applied,
                last_applied: applied,
                leader_state: None,
                current_leader: None,
            },
        )
    }
}

} // verus!
