//! What the calls of the library give.
//!
//! Each law speaks of a call that was made and of what came of it, whatever the body of the
//! function does to get there, and says which calls can be made.

use crate::apply::Applied;
use crate::client::{ClientStep, RaftClient};
use crate::election::{ElectionStart, VoteOutcome};
use crate::events::{RaftEvent, Reaction};
use crate::laws::{elections, followers, leaders, logs, sessions};
use crate::log::{EntryView, Log, LogEntry};
use crate::messages::{
    AppendEntriesRequest, AppendEntriesResponse, ClientCommandRequest, InstallSnapshotRequest,
    InstallSnapshotResponse, RequestVoteRequest, RequestVoteResponse,
};
use crate::model::{
    FollowerMessage, NodeView, SnapshotOffer, StorageOp, StorageOpView,
};
use crate::raft::{LeaderState, RaftNode, State};
use crate::replication::ProgressOutcome;
use crate::sessions::{ClientOutcome, Farewell};
use crate::snapshot::{SnapshotLoad, SnapshotStart};
use crate::table::RequestTable;
use crate::traits::StateMachine;
use crate::types::{
    ClientId, ClientRequest, CommandResult, Config, NodeId, RaftCommand, ResultView, SeqNum,
};
use std::collections::HashMap;
use std::sync::Arc;
use vstd::prelude::*;

verus! {

// ---- the log ----

/// Reading the log can always be done, and tells what stands in its slots.
pub proof fn reading_the_log(log: Log, index: u64, other: u64)
    ensures
        call_requires(Log::last_index, (&log,)),
        forall|r: u64| call_ensures(Log::last_index, (&log,), r) ==> r == logs::end(log@),
        call_requires(Log::last_term, (&log,)),
        forall|r: u64| call_ensures(Log::last_term, (&log,), r) ==> r == logs::end_term(log@),
        call_requires(Log::snapshot_index, (&log,)),
        forall|r: u64|
            call_ensures(Log::snapshot_index, (&log,), r) ==> r == log@.snapshot_index,
        call_requires(Log::snapshot_term, (&log,)),
        forall|r: u64| call_ensures(Log::snapshot_term, (&log,), r) ==> r == log@.snapshot_term,
        call_requires(Log::get, (&log, index)),
        forall|r: Option<&LogEntry>| #[trigger]
            call_ensures(Log::get, (&log, index), r) ==> {
                &&& r is Some <==> logs::filled(log@, index as int)
                &&& r matches Some(e) ==> e@ == logs::entry(log@, index as int)
            },
        call_requires(Log::highest_client_id, (&log,)),
        forall|r: u64|
            call_ensures(Log::highest_client_id, (&log,), r) ==> logs::is_highest_id(log@, r),
        call_requires(Log::holds_all, (&log, index, other)),
        forall|r: bool|
            call_ensures(Log::holds_all, (&log, index, other), r) ==> (r <==> forall|i: int|
                index < i <= other ==> #[trigger] logs::filled(log@, i)),
        log@.snapshot_index > 0 || log@.slots.len() > 0 ==> call_requires(Log::len, (&log,))
            && call_requires(Log::is_empty, (&log,)),
        forall|r: usize| #[trigger]
            call_ensures(Log::len, (&log,), r) ==> r == log@.slots.len() - if log@.snapshot_index
                == 0 {
                1int
            } else {
                0
            },
        forall|r: bool| #[trigger]
            call_ensures(Log::is_empty, (&log,), r) ==> (r <==> log@.slots.len()
                == if log@.snapshot_index == 0 {
                1int
            } else {
                0
            }),
        log@.snapshot_index < u64::MAX ==> call_requires(Log::first_index, (&log,)),
        forall|r: u64| #[trigger]
            call_ensures(Log::first_index, (&log,), r) ==> r == if logs::filled(
                log@,
                log@.snapshot_index + 1,
            ) {
                logs::entry(log@, log@.snapshot_index + 1).index as int
            } else {
                log@.snapshot_index + 1
            },
{
    log@.log_ends_with_its_last_slot();
    log@.entries_stand_in_their_slots(index as int);
    log@.highest_id_is_found();
    log@.span_lists_what_is_there(index as int, other as int);
}

/// A range of the log can always be had, and lists the entries with an index from `start` on
/// and before `end`.
pub proof fn reading_a_range(log: Log, start: u64, end: u64, r: Vec<LogEntry>, n: u64)
    requires
        call_ensures(Log::get_range, (&log, start, end), r),
        call_ensures(Log::range_len, (&log, start, end), n),
    ensures
        call_requires(Log::get_range, (&log, start, end)),
        call_requires(Log::range_len, (&log, start, end)),
        n == r@.len(),
        start <= log@.snapshot_index || end <= start ==> r@.len() == 0,
        start > log@.snapshot_index && start < end ==> {
            &&& forall|i: int|
                start <= i < end && #[trigger] logs::filled(log@, i) ==> i - start < r@.len()
                    && r@[i - start]@ == logs::entry(log@, i)
            &&& r@.len() <= end - start
            &&& forall|k: int|
                0 <= k < r@.len() ==> logs::filled(log@, start + k) && (#[trigger] r@[k])@
                    == logs::entry(log@, start + k)
        },
{
    log@.range_lists_its_indices(start, end);
    let found = log@.range(start, end);
    assert(found.len() == r@.len());
    assert forall|k: int| 0 <= k < r@.len() implies (#[trigger] r@[k])@ == found[k] by {
        assert(EntryView::all(r@)[k] == r@[k]@);
    }
    if start > log@.snapshot_index && start < end {
        assert forall|i: int|
            start <= i < end && #[trigger] logs::filled(log@, i) implies i - start < r@.len()
            && r@[i - start]@ == logs::entry(log@, i) by {
            assert(found[i - start] == logs::entry(log@, i));
        }
        assert forall|k: int| 0 <= k < r@.len() implies logs::filled(log@, start + k) && (
        #[trigger] r@[k])@ == logs::entry(log@, start + k) by {
            assert(logs::filled(log@, start + k));
            assert(found[start + k - start] == logs::entry(log@, start + k));
        }
    }
}

/// A new log has the dummy entry and no snapshot.
pub proof fn making_a_log(log: Log)
    requires
        call_ensures(Log::new, (), log),
    ensures
        log@.slots.len() == 1,
        log@.slots[0] == EntryView::dummy(),
        log@.snapshot_index == 0,
        log@.snapshot_term == 0,
        log@.dropped_client_id == 0,
        logs::in_sequence(log@),
{
}

/// Entries are appended behind those that are there.
pub proof fn appending_to_the_log(log: &mut Log, entries: Vec<LogEntry>)
    requires
        call_ensures(Log::append, (log, entries), ()),
    ensures
        call_requires(Log::append, (log, entries)),
        final(log)@.slots.len() == old(log)@.slots.len() + entries@.len(),
        forall|k: int|
            0 <= k < old(log)@.slots.len() ==> #[trigger] final(log)@.slots[k]
                == old(log)@.slots[k],
        forall|k: int|
            0 <= k < entries@.len() ==> (#[trigger] entries@[k])@
                == final(log)@.slots[old(log)@.slots.len() + k],
        final(log)@.snapshot_index == old(log)@.snapshot_index,
        final(log)@.snapshot_term == old(log)@.snapshot_term,
{
}

/// Truncation keeps the slots before that of the index.
pub proof fn truncating_the_log(log: &mut Log, index: u64)
    requires
        call_ensures(Log::truncate_from, (log, index), ()),
    ensures
        call_requires(Log::truncate_from, (log, index)),
        final(log)@.snapshot_index == old(log)@.snapshot_index,
        final(log)@.snapshot_term == old(log)@.snapshot_term,
        index <= old(log)@.snapshot_index ==> final(log)@ == old(log)@,
        index > old(log)@.snapshot_index ==> {
            &&& final(log)@.slots.len() == if logs::filled(old(log)@, index as int) {
                logs::place(old(log)@, index as int)
            } else {
                old(log)@.slots.len() as int
            }
            &&& forall|k: int|
                0 <= k < final(log)@.slots.len() ==> #[trigger] final(log)@.slots[k]
                    == old(log)@.slots[k]
        },
{
    old(log)@.truncation_keeps_what_comes_before(index);
}

/// Compaction drops the entries up to the index, and no others.
pub proof fn compacting_the_log(log: &mut Log, index: u64, term: u64)
    requires
        call_ensures(Log::compact, (log, index, term), ()),
    ensures
        call_requires(Log::compact, (log, index, term)),
        index <= old(log)@.snapshot_index ==> final(log)@ == old(log)@,
        index > old(log)@.snapshot_index ==> {
            &&& final(log)@.snapshot_index == index
            &&& final(log)@.snapshot_term == term
            &&& index > logs::end(old(log)@) ==> final(log)@.slots.len() == 0
            &&& forall|i: int|
                i > index && index <= logs::end(old(log)@) ==> (#[trigger] logs::filled(
                    final(log)@,
                    i,
                ) <==> logs::filled(old(log)@, i)) && (logs::filled(old(log)@, i)
                    ==> logs::entry(final(log)@, i) == logs::entry(old(log)@, i))
            &&& forall|i: int| i <= index ==> !(#[trigger] logs::filled(final(log)@, i))
        },
        logs::is_highest_id(old(log)@, final(log)@.highest_client_id()),
{
    old(log)@.compaction_drops_what_the_snapshot_holds(index, term);
}

/// A log that is set to a snapshot starts after it.
pub proof fn starting_the_log_after_a_snapshot(log: &mut Log, index: u64, term: u64)
    requires
        call_ensures(Log::set_snapshot, (log, index, term), ()),
    ensures
        call_requires(Log::set_snapshot, (log, index, term)),
        final(log)@.snapshot_index == index,
        final(log)@.snapshot_term == term,
        index > 0 ==> final(log)@.slots.len() == 0,
        index == 0 ==> final(log)@.slots == old(log)@.slots,
{
    old(log)@.log_starts_after_its_snapshot(index, term);
}

// ---- elections ----

/// The majority of a cluster is more than half of it.
pub proof fn counting_a_majority(config: Config, r: usize)
    requires
        call_ensures(Config::majority, (&config,), r),
    ensures
        call_requires(Config::majority, (&config,)),
        r == (config.peers@.len() + 1) / 2 + 1,
{
    elections::majority_is_more_than_half(config);
}

/// A node votes for a candidate of a later term, or of its own if it has voted for nobody
/// else in it, whose log is at least as recent; and for no other.  The vote is saved.
pub proof fn voting<T>(
    node: &mut RaftNode<T>,
    req: RequestVoteRequest,
    r: (RequestVoteResponse, Vec<StorageOp>),
)
    requires
        call_ensures(RaftNode::<T>::handle_request_vote, (node, req), r),
    ensures
        call_requires(RaftNode::<T>::handle_request_vote, (node, req)),
        ({
            let before = old(node)@;
            let after = final(node)@;
            let free = req.term > before.current_term || (req.term == before.current_term && (
            before.voted_for is None || before.voted_for == Some(req.candidate_id)));
            let recent = req.last_log_term > logs::end_term(before.log) || (req.last_log_term
                == logs::end_term(before.log) && req.last_log_index >= logs::end(before.log));
            &&& r.0.vote_granted <==> free && recent
            &&& r.0.term == if req.term > before.current_term {
                req.term
            } else {
                before.current_term
            }
            &&& free && recent ==> {
                &&& after.voted_for == Some(req.candidate_id)
                &&& after.current_term == req.term
                &&& r.1@.len() > 0
                &&& r.1@[r.1@.len() - 1]@ == (StorageOpView::SaveTerm {
                    term: req.term,
                    voted_for: Some(req.candidate_id),
                })
            }
            &&& req.term > before.current_term ==> after.state is Follower && after.leader is None
                && after.current_leader is None && after.current_term == req.term && (!recent
                ==> after.voted_for is None)
            &&& req.term <= before.current_term ==> after.state == before.state && after.leader
                == before.leader && after.current_leader == before.current_leader
                && after.current_term == before.current_term && (!(free && recent)
                ==> after.voted_for == before.voted_for)
            &&& elections::keeps_the_rest(before, after)
        }),
{
    old(node)@.who_gets_the_vote(req);
    old(node)@.vote_is_the_same_in_every_role(req);
    let ops = StorageOpView::all(r.1@);
    assert(ops.len() == r.1@.len());
    if ops.len() > 0 {
        assert(ops[ops.len() - 1] == r.1@[r.1@.len() - 1]@);
    }
}

/// A node that steps down keeps its vote within its term, and saves what it then has.
pub proof fn following<T>(node: &mut RaftNode<T>, term: u64, save: StorageOp)
    requires
        call_ensures(RaftNode::<T>::become_follower, (node, term), save),
    ensures
        call_requires(RaftNode::<T>::become_follower, (node, term)),
        ({
            let before = old(node)@;
            let after = final(node)@;
            let vote = if term == before.current_term {
                before.voted_for
            } else {
                None
            };
            &&& elections::keeps_the_rest(before, after)
            &&& after.state is Follower
            &&& after.current_term == term
            &&& after.voted_for == vote
            &&& after.leader is None
            &&& after.current_leader is None
            &&& save@ == (StorageOpView::SaveTerm { term, voted_for: vote })
        }),
{
    old(node)@.stepping_down(term);
}

/// A candidate runs in the next term, votes for itself, saves that vote and tells the others
/// where its log ends.
pub proof fn running<T>(node: &mut RaftNode<T>, r: ElectionStart)
    requires
        old(node)@.current_term < u64::MAX,
        call_ensures(RaftNode::<T>::start_new_election, (node,), r) || call_ensures(
            RaftNode::<T>::begin_candidacy,
            (node,),
            r,
        ),
    ensures
        call_requires(RaftNode::<T>::start_new_election, (node,)),
        call_requires(RaftNode::<T>::begin_candidacy, (node,)),
        ({
            let before = old(node)@;
            let after = final(node)@;
            let term = before.current_term + 1;
            &&& elections::keeps_the_rest(before, after)
            &&& after.state is Candidate
            &&& after.current_term == term
            &&& after.voted_for == Some(before.config.node_id)
            &&& after.leader == before.leader
            &&& r.votes_granted == 1
            &&& r.save@ == (StorageOpView::SaveTerm {
                term: after.current_term,
                voted_for: Some(before.config.node_id),
            })
            &&& r.request.term == term
            &&& r.request.candidate_id == before.config.node_id
            &&& r.request.last_log_term == logs::end_term(before.log)
            &&& r.request.last_log_index == logs::end(before.log)
            &&& after.current_leader == before.current_leader || after.current_leader is None
            &&& call_ensures(RaftNode::<T>::begin_candidacy, (node,), r) ==> after.current_leader
                is None
        }),
{
    old(node)@.running_for_leadership();
}

/// A follower that waits in vain becomes a candidate and forgets its leader.
pub proof fn timing_out<T>(node: &mut RaftNode<T>)
    requires
        call_ensures(RaftNode::<T>::election_timeout, (node,), ()),
    ensures
        call_requires(RaftNode::<T>::election_timeout, (node,)),
        elections::keeps_the_rest(old(node)@, final(node)@),
        final(node)@.state is Candidate,
        final(node)@.current_leader is None,
        final(node)@.current_term == old(node)@.current_term,
        final(node)@.voted_for == old(node)@.voted_for,
        final(node)@.leader == old(node)@.leader,
{
}

/// A candidate counts each vote that it is given, and is elected once it has those of more
/// than half of the nodes.  An answer from a later term makes it follow; a node that is no
/// candidate counts nothing.
pub proof fn counting_votes<T>(
    node: &mut RaftNode<T>,
    resp: RequestVoteResponse,
    votes: &mut usize,
    r: VoteOutcome,
)
    requires
        call_ensures(RaftNode::<T>::handle_vote_response, (node, resp, votes), r),
    ensures
        *old(votes) < usize::MAX ==> call_requires(
            RaftNode::<T>::handle_vote_response,
            (node, resp, votes),
        ),
        ({
            let before = old(node)@;
            let after = final(node)@;
            let later = resp.term > before.current_term;
            let counts = !later && resp.vote_granted && before.state is Candidate;
            &&& later ==> {
                &&& elections::follows_anew(before, after, resp.term)
                &&& r matches VoteOutcome::SteppedDown { save } && save@
                    == (StorageOpView::SaveTerm { term: resp.term, voted_for: None })
            }
            &&& !later ==> after == before
            &&& counts ==> *final(votes) == *old(votes) + 1
            &&& !counts ==> *final(votes) == *old(votes)
            &&& r is Elected <==> counts && *old(votes) + 1 >= (before.config.peers@.len() + 1) / 2
                + 1
            &&& r is SteppedDown <==> later
        }),
{
    old(node)@.stepping_down(resp.term);
    elections::majority_is_more_than_half(old(node)@.config);
}

/// A new leader goes on from what its storage has, or from nothing if that cannot be read,
/// and from the ids in its log.
pub proof fn leading<T>(
    node: &mut RaftNode<T>,
    loaded: Result<(ClientId, HashMap<u64, SeqNum>), String>,
)
    requires
        old(node)@.config.peers@.len() > 0 ==> logs::end(old(node)@.log) < u64::MAX,
        call_ensures(RaftNode::<T>::become_leader, (node, loaded), ()),
    ensures
        call_requires(RaftNode::<T>::become_leader, (node, loaded)),
        ({
            let before = old(node)@;
            let after = final(node)@;
            let leader = after.leader->0;
            let peers = before.config.peers@;
            &&& elections::keeps_the_rest(before, after)
            &&& after.state is Leader
            &&& after.leader is Some
            &&& after.current_term == before.current_term
            &&& after.voted_for == before.voted_for
            &&& after.current_leader == Some(before.config.node_id)
            &&& forall|p: NodeId| #[trigger]
                leader.next_index.contains_key(p) <==> peers.contains(p)
            &&& forall|p: NodeId| #[trigger]
                leader.match_index.contains_key(p) <==> peers.contains(p)
            &&& forall|p: NodeId|
                peers.contains(p) ==> #[trigger] leader.next_index[p] == logs::end(before.log) + 1
            &&& forall|p: NodeId|
                peers.contains(p) ==> #[trigger] leader.match_index[p] == 0
            &&& leader.pending_clients.dom().is_empty()
            &&& leader.client_results.dom().is_empty()
            &&& loaded matches Ok(known) ==> leader.last_seq_nums == known.1@
                && leader.last_client_id.0 >= known.0.0 && (leader.last_client_id == known.0
                || logs::is_highest_id(before.log, leader.last_client_id.0))
            &&& loaded is Err ==> leader.last_seq_nums.dom().is_empty() && (
            leader.last_client_id.0 == 0 || logs::is_highest_id(
                before.log,
                leader.last_client_id.0,
            ))
            &&& forall|k: int|
                0 <= k < before.log.slots.len() ==> leader.last_client_id.0 >= (
                #[trigger] before.log.slots[k]).client_id.0
        }),
{
    match loaded {
        Ok(known) => old(node)@.leading_begins(known.0, known.1@),
        Err(_) => old(node)@.leading_begins(ClientId(0), Map::empty()),
    }
}

/// The time that a follower waits lies between the limits of the settings.
pub proof fn waiting_time<T>(node: RaftNode<T>, r: u64)
    requires
        call_ensures(RaftNode::<T>::random_election_timeout, (&node,), r),
    ensures
        node.config.election_timeout_min <= node.config.election_timeout_max ==> call_requires(
            RaftNode::<T>::random_election_timeout,
            (&node,),
        ),
        node.config.election_timeout_min <= r <= node.config.election_timeout_max,
{
}

// ---- events ----

/// What is done with an event is what the role of the node calls for; a node can be asked
/// whether it can take it.
pub proof fn handling_an_event<T>(node: &mut RaftNode<T>, event: RaftEvent<T>, r: Reaction<T>)
    requires
        call_ensures(RaftNode::<T>::handle_event, (node, event), r),
    ensures
        old(node)@.event_defined(event@) ==> call_requires(
            RaftNode::<T>::handle_event,
            (node, event),
        ),
        final(node)@ == old(node)@.after_event(event@),
        r@ == old(node)@.reaction(event@),
        r@.reset_timer == r.reset_timer,
        r@.leave == r.leave,
{
}

/// The same, in each of the roles.
pub proof fn handling_an_event_in_a_role<T>(
    node: &mut RaftNode<T>,
    event: RaftEvent<T>,
    r: Reaction<T>,
)
    requires
        ({
            ||| old(node)@.state is Follower && call_ensures(
                RaftNode::<T>::follower_event,
                (node, event),
                r,
            )
            ||| old(node)@.state is Candidate && call_ensures(
                RaftNode::<T>::candidate_event,
                (node, event),
                r,
            )
            ||| old(node)@.state is Leader && call_ensures(
                RaftNode::<T>::leader_event,
                (node, event),
                r,
            )
        }),
    ensures
        final(node)@ == old(node)@.after_event(event@),
        r@ == old(node)@.reaction(event@),
{
}

/// A node says that it can take an event exactly where it can.
pub proof fn asking_before_an_event<T>(node: RaftNode<T>, event: RaftEvent<T>, r: bool)
    requires
        call_ensures(RaftNode::<T>::can_handle_event, (&node, &event), r),
    ensures
        call_requires(RaftNode::<T>::can_handle_event, (&node, &event)),
        r == node@.event_defined(event@),
{
}

// ---- entries from a leader ----

/// A node that knows the entry before those of a request takes every one of them and answers
/// success; one that does not names the index where the logs part.  A leader of an earlier
/// term is refused.
pub proof fn taking_entries<T>(
    node: &mut RaftNode<T>,
    req: AppendEntriesRequest,
    r: (AppendEntriesResponse, Vec<StorageOp>),
)
    requires
        req.prev_log_index < u64::MAX,
        req.entries@.len() > 0 ==> req.entries@[req.entries@.len() - 1].index < u64::MAX,
        call_ensures(RaftNode::<T>::handle_append_entries, (node, req), r),
    ensures
        call_requires(RaftNode::<T>::handle_append_entries, (node, req)),
        ({
            let before = old(node)@;
            let after = final(node)@;
            let prev = req.prev_log_index;
            let next = logs::place(before.log, prev + 1);
            let kept = if next < before.log.slots.len() {
                next
            } else {
                before.log.slots.len() as int
            };
            let knows = prev == 0 || req.prev_log_term == (if prev == before.log.snapshot_index {
                before.log.snapshot_term
            } else if logs::filled(before.log, prev as int) {
                logs::entry(before.log, prev as int).term
            } else {
                0
            });
            let known = prev < before.log.snapshot_index;
            &&& req.term < before.current_term ==> {
                &&& after == before
                &&& !r.0.success
                &&& r.0.term == before.current_term
                &&& r.0.conflict_index == 0
                &&& r.1@.len() == 0
            }
            &&& req.term >= before.current_term ==> {
                &&& after.config == before.config
                &&& after.current_term == req.term
                &&& after.current_leader == Some(req.leader_id)
                &&& req.term > before.current_term ==> after.state is Follower && after.voted_for
                    is None && after.leader is None
                &&& req.term == before.current_term ==> after.state == before.state
                    && after.voted_for == before.voted_for && after.leader == before.leader
                &&& r.0.term == req.term
                &&& r.0.success <==> known || knows
                &&& r.0.success ==> r.0.conflict_index == 0
                &&& !r.0.success ==> r.0.conflict_index == prev
                &&& known || !knows || req.entries@.len() == 0 ==> after.log == before.log
                &&& known || !knows ==> after.commit_index == before.commit_index
                &&& !known && knows && req.entries@.len() > 0 ==> {
                    &&& after.log.slots.len() == kept + req.entries@.len()
                    &&& forall|k: int|
                        0 <= k < kept ==> #[trigger] after.log.slots[k] == before.log.slots[k]
                    &&& forall|k: int|
                        0 <= k < req.entries@.len() ==> (#[trigger] req.entries@[k])@
                            == after.log.slots[kept + k]
                    &&& r.1@.len() > 0 && r.1@[r.1@.len() - 1]@ is AppendLog
                }
                &&& !known && knows ==> {
                    &&& req.leader_commit <= before.commit_index ==> after.commit_index
                        == before.commit_index
                    &&& req.leader_commit > before.commit_index && req.leader_commit <= logs::end(
                        after.log,
                    ) ==> after.commit_index == req.leader_commit
                    &&& req.leader_commit > before.commit_index && req.leader_commit > logs::end(
                        after.log,
                    ) ==> after.commit_index == logs::end(after.log)
                }
            }
            &&& r.0.last_log_index == logs::end(after.log)
            &&& after.last_applied == before.last_applied
        }),
{
    let taken = old(node)@.after_append_entries(req@);
    let before = NodeView { state: State::Follower, ..old(node)@ };
    let view = req@;
    assert(before.append_verdict(view) == old(node)@.append_verdict(view));
    assert(before.after_append_entries(view) == (NodeView { state: State::Follower, ..taken }));
    let n = req.entries@.len();
    assert(view.entries.len() == n);
    assert forall|k: int| 0 <= k < n implies (#[trigger] req.entries@[k])@ == view.entries[k] by {}
    before.request_is_taken_alike(view);
    before.requests_with_room_can_be_taken(view);
    let ops = StorageOpView::all(r.1@);
    assert(ops.len() == r.1@.len());
    if ops.len() > 0 {
        assert(ops[ops.len() - 1] == r.1@[r.1@.len() - 1]@);
    }
    if view.term < before.current_term {
        before.stale_leader_is_refused(view);
    } else {
        before.leader_is_followed(view);
        if view.prev_log_index < before.log.snapshot_index {
            before.entries_in_the_snapshot_are_known(view);
        } else if followers::knows_the_entry_before(before, view) {
            before.agreeing_node_takes_every_entry(view);
            before.follower_commits_with_the_leader(view);
            let after = final(node)@;
            let next = logs::place(before.log, view.prev_log_index + 1);
            let kept = if next < before.log.slots.len() {
                next
            } else {
                before.log.slots.len() as int
            };
            assert forall|k: int| 0 <= k < n && n > 0 implies (#[trigger] req.entries@[k])@
                == after.log.slots[kept + k] by {
                assert(view.entries[k] == after.log.slots[kept + k]);
            }
        } else {
            before.parting_logs_are_told(view);
        }
    }
}

/// A node can be asked whether it can take a request, and whether it commits with it.
pub proof fn asking_before_entries<T>(
    node: RaftNode<T>,
    req: AppendEntriesRequest,
    r: bool,
    c: bool,
)
    requires
        call_ensures(RaftNode::<T>::can_append, (&node, &req), r),
        call_ensures(RaftNode::<T>::commits_on, (&node, &req), c),
    ensures
        call_requires(RaftNode::<T>::can_append, (&node, &req)),
        call_requires(RaftNode::<T>::commits_on, (&node, &req)),
        req.prev_log_index < u64::MAX && (req.entries@.len() > 0
            ==> req.entries@[req.entries@.len() - 1].index < u64::MAX) ==> r,
        r == node@.append_defined(req@),
        c <==> req.term >= node@.current_term && req.prev_log_index >= node@.log.snapshot_index
            && followers::knows_the_entry_before(node@, req@) && req.leader_commit
            > node@.commit_index,
{
    let n = req.entries@.len();
    if n > 0 {
        assert(req@.entries[n - 1] == req.entries@[n - 1]@);
    }
    if req.prev_log_index < u64::MAX && (n > 0 ==> req.entries@[n - 1].index < u64::MAX) {
        node@.requests_with_room_can_be_taken(req@);
    }
}

// ---- what a leader sends and is answered ----

/// With a success a leader notes how far the follower agrees and commits every entry of its
/// own term that a majority holds, itself counted; a refusal makes it go back and send again;
/// a later term makes it follow.
pub proof fn taking_an_answer<T>(
    node: &mut RaftNode<T>,
    resp: AppendEntriesResponse,
    follower: NodeId,
    index: u64,
    r: ProgressOutcome,
)
    requires
        old(node)@.leader is Some,
        leaders::known_match(old(node)@, follower) < u64::MAX,
        index < u64::MAX,
        call_ensures(
            RaftNode::<T>::handle_append_entries_response,
            (node, resp, follower, index),
            r,
        ),
    ensures
        logs::in_sequence(old(node)@.log) && old(node)@.log.snapshot_index
            <= old(node)@.commit_index < u64::MAX ==> call_requires(
            RaftNode::<T>::handle_append_entries_response,
            (node, resp, follower, index),
        ),
        ({
            let before = old(node)@;
            let after = final(node)@;
            let later = resp.term > before.current_term;
            let next = leaders::known_next(before, follower);
            &&& later ==> {
                &&& elections::follows_anew(before, after, resp.term)
                &&& r matches ProgressOutcome::SteppedDown { save } && save@
                    == (StorageOpView::SaveTerm { term: resp.term, voted_for: None })
            }
            &&& !later ==> leaders::leads_on(before, after)
            &&& !later && resp.success ==> {
                &&& leaders::notes_success(before, after, follower, index)
                &&& after.commit_index >= before.commit_index
                &&& forall|i: int|
                    before.commit_index < i <= logs::end(before.log) && #[trigger] logs::filled(
                        before.log,
                        i,
                    ) && logs::entry(before.log, i).term == before.current_term
                        && leaders::holders(after.leader->0.match_index, i) + 1 >= (
                    before.config.peers@.len() + 1) / 2 + 1 ==> after.commit_index >= i
                &&& after.commit_index > before.commit_index ==> {
                    &&& logs::filled(before.log, after.commit_index as int)
                    &&& logs::entry(before.log, after.commit_index as int).term
                        == before.current_term
                    &&& leaders::holders(
                        after.leader->0.match_index,
                        after.commit_index as int,
                    ) + 1 >= (before.config.peers@.len() + 1) / 2 + 1
                }
                &&& r is Committed <==> after.commit_index > before.commit_index
                &&& r is Nothing <==> after.commit_index == before.commit_index
            }
            &&& !later && !resp.success ==> {
                &&& after.commit_index == before.commit_index
                &&& after.leader->0.match_index == before.leader->0.match_index
                &&& after.leader->0.next_index.contains_key(follower)
                &&& next > index ==> r is Nothing && after.leader->0.next_index[follower] == next
                &&& next <= index ==> {
                    &&& r is Resend
                    &&& 0 < resp.conflict_index < next ==> after.leader->0.next_index[follower]
                        == resp.conflict_index
                    &&& !(0 < resp.conflict_index < next) && next > 1
                        ==> after.leader->0.next_index[follower] == next - 1
                    &&& next <= 1 ==> after.leader->0.next_index[follower] == 1
                }
            }
        }),
{
    let before = NodeView { state: State::Leader, ..old(node)@ };
    old(node)@.answers_do_not_depend_on_the_role(resp, follower, index, State::Leader);
    let snapshot = InstallSnapshotResponse { term: 0, success: false };
    before.answers_are_taken_alike(resp, follower, index);
    if logs::in_sequence(before.log) && before.log.snapshot_index <= before.commit_index
        < u64::MAX {
        before.answers_can_be_taken(resp, snapshot, follower, index);
    }
    if resp.term > before.current_term {
        before.later_term_ends_leading(resp, snapshot, follower, index);
    } else if resp.success {
        before.leader_commits_what_most_hold(resp, follower, index);
        let after = final(node)@;
        assert forall|i: int|
            before.commit_index < i <= logs::end(before.log) && #[trigger] logs::filled(
                before.log,
                i,
            ) && logs::entry(before.log, i).term == before.current_term && leaders::holders(
                after.leader->0.match_index,
                i,
            ) + 1 >= (before.config.peers@.len() + 1) / 2 + 1 implies after.commit_index >= i by {
            assert(leaders::most_hold(after, i));
        }
    } else {
        before.leader_backs_up(resp, follower, index);
    }
}

/// A follower that has installed a snapshot is sent what follows; a later term makes the
/// leader follow.
pub proof fn taking_an_answer_to_a_snapshot<T>(
    node: &mut RaftNode<T>,
    resp: InstallSnapshotResponse,
    follower: NodeId,
    index: u64,
    r: ProgressOutcome,
)
    requires
        old(node)@.leader is Some,
        leaders::known_match(old(node)@, follower) < u64::MAX,
        index < u64::MAX,
        call_ensures(
            RaftNode::<T>::handle_install_snapshot_response,
            (node, resp, follower, index),
            r,
        ),
    ensures
        call_requires(
            RaftNode::<T>::handle_install_snapshot_response,
            (node, resp, follower, index),
        ),
        ({
            let before = old(node)@;
            let after = final(node)@;
            let later = resp.term > before.current_term;
            &&& later ==> {
                &&& elections::follows_anew(before, after, resp.term)
                &&& r matches ProgressOutcome::SteppedDown { save } && save@
                    == (StorageOpView::SaveTerm { term: resp.term, voted_for: None })
            }
            &&& !later && resp.success ==> {
                &&& leaders::leads_on(before, after)
                &&& leaders::notes_success(before, after, follower, index)
                &&& after.commit_index == before.commit_index
                &&& r is Resend
            }
            &&& !later && !resp.success ==> after == before && r is Nothing
        }),
{
    old(node)@.stepping_down(resp.term);
    old(node)@.success_is_noted(follower, index);
}

/// A leader sends a follower every entry from the next one on, or its snapshot where it no
/// longer has the entry before.
pub proof fn sending_to_a_follower<T>(
    node: RaftNode<T>,
    follower: NodeId,
    r: FollowerMessage,
    c: bool,
)
    requires
        node@.leader is Some,
        logs::in_sequence(node@.log),
        logs::end(node@.log) < u64::MAX,
        node@.leader->0.next_index.contains_key(follower) ==> 1
            <= node@.leader->0.next_index[follower] <= logs::end(node@.log) + 1,
        call_ensures(RaftNode::<T>::append_entries_for, (&node, follower), r),
        call_ensures(RaftNode::<T>::can_send_to, (&node, follower), c),
    ensures
        call_requires(RaftNode::<T>::append_entries_for, (&node, follower)),
        call_requires(RaftNode::<T>::can_send_to, (&node, follower)),
        c,
        ({
            let next = if node@.leader->0.next_index.contains_key(follower) {
                node@.leader->0.next_index[follower] as int
            } else {
                logs::end(node@.log) + 1
            };
            let log = node@.log;
            &&& next <= log.snapshot_index ==> (r matches FollowerMessage::InstallSnapshot { offer }
                && offer.term == node@.current_term && offer.leader_id == node@.config.node_id
                && offer.last_included_index == log.snapshot_index && offer.last_included_term
                == log.snapshot_term)
            &&& next > log.snapshot_index ==> (r matches FollowerMessage::AppendEntries {
                request,
                match_target,
            } && {
                &&& request.term == node@.current_term
                &&& request.leader_id == node@.config.node_id
                &&& request.leader_commit == node@.commit_index
                &&& request.prev_log_index == next - 1
                &&& request.prev_log_term == if next == 1 {
                    0
                } else if next == log.snapshot_index + 1 {
                    log.snapshot_term
                } else {
                    logs::entry(log, next - 1).term
                }
                &&& request.entries@.len() == logs::end(log) + 1 - next
                &&& forall|i: int|
                    next <= i <= logs::end(log) ==> request.entries@[i - next]@
                        == #[trigger] logs::entry(log, i)
                &&& match_target == logs::end(log)
            })
        }),
{
    node@.leader_sends_what_follows(follower);
    if let FollowerMessage::AppendEntries { request, match_target } = r {
        let entries = request@.entries;
        assert(entries.len() == request.entries@.len());
        assert forall|k: int| 0 <= k < entries.len() implies #[trigger] entries[k]
            == request.entries@[k]@ by {}
        let next = if node@.leader->0.next_index.contains_key(follower) {
            node@.leader->0.next_index[follower] as int
        } else {
            logs::end(node@.log) + 1
        };
        if next > node@.log.snapshot_index {
            assert forall|i: int| next <= i <= logs::end(node@.log) implies request.entries@[i
                - next]@ == #[trigger] logs::entry(node@.log, i) by {
                assert(entries[i - next] == logs::entry(node@.log, i));
            }
        }
    }
}

/// A leader sends to each of its peers what it sends to that one.
pub proof fn sending_to_everyone<T>(node: RaftNode<T>, r: Vec<(NodeId, FollowerMessage)>)
    requires
        call_ensures(RaftNode::<T>::broadcast, (&node,), r),
    ensures
        r@.len() == node@.config.peers@.len(),
        forall|i: int|
            0 <= i < r@.len() ==> (#[trigger] r@[i]).0 == node@.config.peers@[i] && r@[i].1@
                == node@.message_for(r@[i].0),
{
}

// ---- applying ----

/// A snapshot is due where enough was applied since the last one and the log has the last
/// applied entry.
pub proof fn looking_for_a_snapshot<T>(node: RaftNode<T>, r: Option<(u64, u64)>)
    requires
        call_ensures(RaftNode::<T>::snapshot_due, (&node,), r),
    ensures
        node@.log.snapshot_index <= node@.last_applied ==> call_requires(
            RaftNode::<T>::snapshot_due,
            (&node,),
        ),
        ({
            let applied = node@.last_applied as int;
            let due = applied - node@.log.snapshot_index >= node@.config.snapshot_threshold
                && logs::filled(node@.log, applied);
            &&& r is Some <==> due
            &&& due ==> r == Some(
                (logs::entry(node@.log, applied).index, logs::entry(node@.log, applied).term),
            )
        }),
{
    node@.when_a_snapshot_is_due();
}

/// A leader applies every entry that is committed and not yet applied, each once and in its
/// order, answers those who wait with the results, and takes a snapshot where one is due.
pub proof fn applying_as_the_leader<T, S: StateMachine>(
    node: &mut RaftNode<T>,
    state_machine: &mut S,
    r: Applied<T>,
)
    requires
        call_ensures(RaftNode::<T>::apply_committed_as_leader, (node, state_machine), r),
    ensures
        old(node).apply_defined() ==> call_requires(
            RaftNode::<T>::apply_committed_as_leader,
            (node, state_machine),
        ),
        ({
            let before = old(node)@;
            let after = final(node)@;
            let entries = before.log.span(before.last_applied as int, before.commit_index as int);
            let applied = after.last_applied as int;
            let due = applied - after.log.snapshot_index >= after.config.snapshot_threshold
                && logs::filled(after.log, applied);
            &&& after.last_applied == if before.commit_index > before.last_applied {
                before.commit_index
            } else {
                before.last_applied
            }
            &&& after.log == before.log
            &&& after.commit_index == before.commit_index
            &&& after.current_term == before.current_term
            &&& after.voted_for == before.voted_for
            &&& after.state == before.state
            &&& after.config == before.config
            &&& exists|results: Seq<ResultView>|
                {
                    &&& #[trigger] crate::apply::executes_all(
                        *old(state_machine),
                        entries,
                        results,
                        *final(state_machine),
                    )
                    &&& after.leader == Some(before.leader->0.record_all(entries, results))
                    &&& r.answers_view() == before.leader->0.answers(entries, results)
                }
            &&& r.answers_view().len() == r.answers@.len()
            &&& forall|k: int|
                0 <= k < r.answers@.len() ==> r.answers_view()[k] == ((
                #[trigger] r.answers@[k]).0, r.answers@[k].1@)
            &&& r.save_client_state <==> !after.leader->0.last_seq_nums.dom().is_empty()
            &&& r.snapshot is Some <==> due
            &&& due ==> r.snapshot == Some(
                (logs::entry(after.log, applied).index, logs::entry(after.log, applied).term),
            )
        }),
{
    final(node)@.when_a_snapshot_is_due();
}

/// A node that does not lead applies every entry that is committed, not yet applied and not
/// in the snapshot (`from` being the later of the last applied index and that of the
/// snapshot), each once and in its order.
pub proof fn applying<T, S: StateMachine>(node: &mut RaftNode<T>, state_machine: &mut S, from: int)
    requires
        from >= old(node)@.last_applied && from >= old(node)@.log.snapshot_index,
        from == old(node)@.last_applied || from == old(node)@.log.snapshot_index,
        call_ensures(RaftNode::<T>::apply_committed, (node, state_machine), ()),
    ensures
        (forall|i: int|
            from < i <= old(node)@.commit_index ==> #[trigger] logs::filled(old(node)@.log, i))
            ==> call_requires(RaftNode::<T>::apply_committed, (node, state_machine)),
        final(node)@ == (NodeView {
            last_applied: if old(node)@.commit_index > old(node)@.last_applied {
                old(node)@.commit_index
            } else {
                old(node)@.last_applied
            },
            ..old(node)@
        }),
        exists|results: Seq<ResultView>|
            crate::apply::executes_all(
                *old(state_machine),
                old(node)@.log.span(from, old(node)@.commit_index as int),
                results,
                *final(state_machine),
            ),
{
    old(node)@.log.span_lists_what_is_there(from, old(node)@.commit_index as int);
}

/// A node can be asked whether it has the entries that it is to apply.
pub proof fn asking_before_applying<T>(node: RaftNode<T>, follows: bool, leads: bool)
    requires
        call_ensures(RaftNode::<T>::can_apply, (&node,), follows),
        call_ensures(RaftNode::<T>::can_apply_as_leader, (&node,), leads),
    ensures
        call_requires(RaftNode::<T>::can_apply, (&node,)),
        call_requires(RaftNode::<T>::can_apply_as_leader, (&node,)),
        follows <==> forall|i: int|
            node@.last_applied < i <= node@.commit_index && i > node@.log.snapshot_index
                ==> #[trigger] logs::filled(node@.log, i),
        leads <==> {
            &&& node@.leader is Some
            &&& forall|i: int|
                node@.last_applied < i <= node@.commit_index ==> #[trigger] logs::filled(
                    node@.log,
                    i,
                )
            &&& node@.log.snapshot_index <= node@.last_applied || node@.log.snapshot_index
                <= node@.commit_index
        },
{
    let from = if node@.last_applied > node@.log.snapshot_index {
        node@.last_applied as int
    } else {
        node@.log.snapshot_index as int
    };
    node@.log.span_lists_what_is_there(from, node@.commit_index as int);
    node@.log.span_lists_what_is_there(node@.last_applied as int, node@.commit_index as int);
}

/// The result of an entry is filed, and who waits for it is told.
pub proof fn filing_a_result<T>(
    leader: &mut LeaderState<T>,
    entry: LogEntry,
    result: CommandResult,
    r: Option<T>,
)
    requires
        call_ensures(LeaderState::<T>::record_result, (leader, &entry, result), r),
    ensures
        call_requires(LeaderState::<T>::record_result, (leader, &entry, result)),
        ({
            let before = old(leader)@;
            let after = final(leader)@;
            let key = (entry.client_id, entry.seq_num);
            &&& after.client_results == before.client_results.insert(key, result@)
            &&& after.pending_clients == before.pending_clients.remove(key)
            &&& after.last_seq_nums == if entry.client_id.0 > 0 {
                before.last_seq_nums.insert(entry.client_id.0, entry.seq_num)
            } else {
                before.last_seq_nums
            }
            &&& r is Some <==> before.pending_clients.contains_key(key)
            &&& r matches Some(to) ==> to == before.pending_clients[key]
        }),
{
    old(leader)@.result_is_filed(entry@, result@);
}

/// A command is answered with what applying it gave.
pub proof fn answering_a_command(outcome: Result<Vec<u8>, String>, r: CommandResult)
    requires
        call_ensures(crate::apply::command_result, (outcome,), r),
    ensures
        call_requires(crate::apply::command_result, (outcome,)),
        outcome matches Ok(bytes) ==> r@ == ResultView::Success(bytes@),
        outcome matches Err(text) ==> r@ == ResultView::Error(text@),
{
}

// ---- requests of clients ----

/// A leader answers a request that is not new, and enters a new one; a node that does not
/// lead names the leader that it knows.
pub proof fn taking_a_request<T>(
    node: &mut RaftNode<T>,
    req: ClientRequest<T>,
    r: ClientOutcome<T>,
)
    requires
        call_ensures(RaftNode::<T>::handle_client_request, (node, req), r),
        old(node)@.client_request_defined(req@),
    ensures
        call_requires(RaftNode::<T>::handle_client_request, (node, req)),
        ({
            let before = old(node)@;
            let after = final(node)@;
            let key = (req.client_id, req.seq_num);
            let len = before.log.slots.len() as int;
            &&& before.leader is None ==> {
                &&& after == before
                &&& r matches ClientOutcome::Answer { to, result } && to == req.response_tx
                    && result@ == match before.current_leader {
                    Some(id) => ResultView::Redirect(id),
                    None => ResultView::Error("Node is not a leader"@),
                }
            }
            &&& before.leader is Some && !sessions::is_new(before, req@) ==> {
                &&& after.log == before.log
                &&& after.leader->0.pending_clients == before.leader->0.pending_clients
                &&& r matches ClientOutcome::Answer { to, result } && to == req.response_tx
                    && result@ == (if sessions::result_is_known(before, req@) {
                    before.leader->0.client_results[key]
                } else if sessions::was_carried_out(before, req@) {
                    ResultView::Success(Seq::empty())
                } else {
                    ResultView::Error("Duplicate request is already in progress"@)
                })
            }
            &&& before.leader is Some && sessions::is_new(before, req@) ==> {
                let e = after.log.slots[len];
                &&& r matches ClientOutcome::Replicate { storage }
                &&& storage@.len() == 1
                &&& storage@[0]@ matches StorageOpView::AppendLog { entries }
                &&& entries.len() == 1 && entries[0] == e
                &&& after.log.slots.len() == len + 1
                &&& forall|k: int|
                    0 <= k < len ==> #[trigger] after.log.slots[k] == before.log.slots[k]
                &&& e.term == before.current_term
                &&& e.index == logs::end(before.log) + 1
                &&& e.command == req.command@
                &&& req.command is ClientCommand ==> (e.client_id, e.seq_num) == key
                &&& req.command is RegisterClient ==> e.client_id.0
                    == before.leader->0.last_client_id.0 + 1 && e.seq_num.0 == 0
                    && after.leader->0.last_client_id == e.client_id
                &&& after.leader->0.pending_clients == before.leader->0.pending_clients.insert(
                    (e.client_id, e.seq_num),
                    req.response_tx,
                )
                &&& after.leader->0.last_seq_nums == if req.command is RegisterClient {
                    before.leader->0.last_seq_nums.insert(e.client_id.0, SeqNum(0))
                } else {
                    before.leader->0.last_seq_nums
                }
            }
            &&& after.state == before.state
            &&& after.current_term == before.current_term
            &&& after.commit_index == before.commit_index
        }),
{
    let before = old(node)@;
    let leader = NodeView { state: State::Leader, ..before };
    let view = req@;
    before.requests_are_taken_alike(view);
    if let ClientOutcome::Replicate { storage } = r {
        let ops = StorageOpView::all(storage@);
        assert(ops.len() == storage@.len());
        assert(ops[0] == storage@[0]@);
    }
    if before.leader is None {
        leader.clients_are_sent_to_the_leader(view);
    } else {
        leader.received_results_are_dropped(view);
        leader.requests_can_be_taken(view);
        if sessions::is_new(leader, view) {
            leader.new_requests_are_entered(view);
        } else {
            leader.old_requests_are_answered(view);
        }
    }
}

/// A node can be asked whether it can take a request.
pub proof fn asking_before_a_request<T>(node: RaftNode<T>, req: ClientRequest<T>, r: bool)
    requires
        call_ensures(RaftNode::<T>::can_take_request, (&node, &req), r),
    ensures
        call_requires(RaftNode::<T>::can_take_request, (&node, &req)),
        r == node@.client_request_defined(req@),
        node@.leader is None ==> r,
        node@.leader is Some ==> (r <==> (sessions::is_new(node@, req@) ==> {
            &&& logs::end(node@.log) < u64::MAX
            &&& req.command is RegisterClient ==> node@.leader->0.last_client_id.0 < u64::MAX
        })),
{
    let leader = NodeView { state: State::Leader, ..node@ };
    node@.requests_are_taken_alike(req@);
    if node@.leader is Some {
        leader.requests_can_be_taken(req@);
    }
}

/// Only a leader registers clients; any other node names the leader that it knows.
pub proof fn registering<T>(
    node: RaftNode<T>,
    response_tx: T,
    r: Result<ClientRequest<T>, CommandResult>,
)
    requires
        call_ensures(RaftNode::<T>::register_client, (&node, response_tx), r),
    ensures
        call_requires(RaftNode::<T>::register_client, (&node, response_tx)),
        node@.state is Leader ==> (r matches Ok(req) && req.command is RegisterClient
            && req.client_id.0 == 0 && req.seq_num.0 == 0 && req.last_received_seq.0 == 0
            && req.response_tx == response_tx),
        !(node@.state is Leader) ==> (r matches Err(result) && result@
            == match node@.current_leader {
            Some(id) => ResultView::Redirect(id),
            None => ResultView::Error("Node is not a leader and current leader is unknown"@),
        }),
{
    if let Ok(req) = r {
        crate::laws::sessions::requests_are_seen_whole(req);
    }
}

/// Everyone who waits is told that the node shuts down, each once; its term is saved, and
/// what it knows of its clients if it knows anything.
pub proof fn shutting_down<T>(node: &mut RaftNode<T>, r: Farewell<T>)
    requires
        call_ensures(RaftNode::<T>::shutdown, (node,), r),
    ensures
        call_requires(RaftNode::<T>::shutdown, (node,)),
        ({
            let before = old(node)@;
            let after = final(node)@;
            &&& r.result@ == ResultView::Error("Node is shutting down"@)
            &&& r.save_term@ == (StorageOpView::SaveTerm {
                term: before.current_term,
                voted_for: before.voted_for,
            })
            &&& r.save_client_state <==> before.leader is Some
                && !before.leader->0.last_seq_nums.dom().is_empty()
            &&& before.leader is None ==> r.waiting@.len() == 0 && after == before
            &&& before.leader is Some ==> {
                &&& forall|k: (ClientId, SeqNum)|
                    before.leader->0.pending_clients.contains_key(k) <==> #[trigger] r.waiting@.contains(
                    (k, before.leader->0.pending_clients[k]))
                &&& forall|i: int, j: int|
                    0 <= i < r.waiting@.len() && 0 <= j < r.waiting@.len() && (
                    #[trigger] r.waiting@[i]).0 == (#[trigger] r.waiting@[j]).0 ==> i == j
                &&& after.leader is Some && after.leader->0.pending_clients.dom().is_empty()
                &&& after.leader->0.last_seq_nums == before.leader->0.last_seq_nums
                &&& after.leader->0.last_client_id == before.leader->0.last_client_id
                &&& after.leader->0.client_results == before.leader->0.client_results
            }
        }),
{
    let before = old(node)@;
    if before.leader is Some {
        assert forall|k: (ClientId, SeqNum)|
            before.leader->0.pending_clients.contains_key(k) <==> #[trigger] r.waiting@.contains(
            (k, before.leader->0.pending_clients[k])) by {
            sessions::lists_are_complete(r.waiting@, before.leader->0.pending_clients, k);
        }
        sessions::lists_are_complete(
            r.waiting@,
            before.leader->0.pending_clients,
            (ClientId(0), SeqNum(0)),
        );
    }
}

/// A client that registers gets the answer, or is told what went wrong.
pub proof fn ending_a_registration(sent: bool, reply: Option<CommandResult>, r: CommandResult)
    requires
        call_ensures(crate::sessions::registration_result, (sent, reply), r),
    ensures
        call_requires(crate::sessions::registration_result, (sent, reply)),
        !sent ==> r@ == ResultView::Error("Node internal error or shutdown"@),
        sent && reply is None ==> r@ == ResultView::Error("Raft core dropped response channel"@),
        sent && reply is Some ==> r@ == (reply->0)@,
{
}

/// What a leader knows of its clients is worth saving if it knows a number.
pub proof fn looking_for_client_state<T>(node: RaftNode<T>, r: bool)
    requires
        call_ensures(RaftNode::<T>::has_client_state, (&node,), r),
    ensures
        call_requires(RaftNode::<T>::has_client_state, (&node,)),
        r <==> node@.leader is Some && !node@.leader->0.last_seq_nums.dom().is_empty(),
{
}

// ---- snapshots ----

/// The snapshot that a leader has loaded is sent if it is the one that its log starts with.
pub proof fn loading_a_snapshot(
    offer: SnapshotOffer,
    loaded: Result<Option<(u64, u64, Vec<u8>)>, String>,
    r: SnapshotLoad,
)
    requires
        call_ensures(SnapshotOffer::complete, (offer, loaded), r),
    ensures
        call_requires(SnapshotOffer::complete, (offer, loaded)),
        loaded matches Ok(Some(stored)) ==> {
            &&& stored.0 == offer.last_included_index && stored.1 == offer.last_included_term
                ==> (r matches SnapshotLoad::Send { request } && request.term == offer.term
                && request.leader_id == offer.leader_id && request.last_included_index
                == offer.last_included_index && request.last_included_term
                == offer.last_included_term && request.data@ == stored.2@)
            &&& stored.0 != offer.last_included_index || stored.1 != offer.last_included_term
                ==> (r matches SnapshotLoad::Mismatch { index, term } && index == stored.0 && term
                == stored.1)
        },
        loaded matches Ok(None) ==> r is Missing,
        loaded matches Err(text) ==> (r matches SnapshotLoad::Unavailable { error } && error@
            == text@),
{
}

/// A snapshot of a leader of an earlier term is refused, any other is taken up.
pub proof fn taking_up_a_snapshot<T>(
    node: &mut RaftNode<T>,
    req: InstallSnapshotRequest,
    r: SnapshotStart,
)
    requires
        call_ensures(RaftNode::<T>::handle_install_snapshot, (node, &req), r),
    ensures
        call_requires(RaftNode::<T>::handle_install_snapshot, (node, &req)),
        ({
            let before = old(node)@;
            let after = final(node)@;
            &&& req.term < before.current_term ==> {
                &&& after == before
                &&& r matches SnapshotStart::Refused { response } && !response.success
                    && response.term == before.current_term
            }
            &&& req.term >= before.current_term ==> {
                &&& elections::keeps_the_rest(before, after)
                &&& after.current_term == req.term
                &&& after.current_leader == Some(req.leader_id)
                &&& req.term > before.current_term ==> after.state is Follower && after.voted_for
                    is None && after.leader is None
                &&& req.term == before.current_term ==> after.state == before.state
                    && after.voted_for == before.voted_for && after.leader == before.leader
                &&& r matches SnapshotStart::Proceed { storage }
                &&& req.term == before.current_term ==> storage@.len() == 0
                &&& req.term > before.current_term ==> storage@.len() == 1 && storage@[0]@ == (
                StorageOpView::SaveTerm { term: req.term, voted_for: None })
            }
        }),
{
    if let SnapshotStart::Proceed { storage } = r {
        let ops = StorageOpView::all(storage@);
        assert(ops.len() == storage@.len());
        if ops.len() > 0 {
            assert(ops[0] == storage@[0]@);
        }
    }
}

/// A snapshot that was restored and saved stands for every entry up to its end; one that was
/// not changes nothing.
pub proof fn ending_a_snapshot<T>(
    node: &mut RaftNode<T>,
    req: InstallSnapshotRequest,
    installed: bool,
    r: (InstallSnapshotResponse, Vec<StorageOp>),
)
    requires
        call_ensures(RaftNode::<T>::finish_install_snapshot, (node, &req, installed), r),
    ensures
        call_requires(RaftNode::<T>::finish_install_snapshot, (node, &req, installed)),
        r.0.success == installed,
        r.0.term == old(node)@.current_term,
        !installed ==> final(node)@ == old(node)@ && r.1@.len() == 0,
        installed ==> {
            let before = old(node)@;
            let after = final(node)@;
            let index = req.last_included_index;
            &&& r.1@.len() == 1 && r.1@[0]@ == (StorageOpView::TruncateLog { index })
            &&& index > before.log.snapshot_index ==> {
                &&& after.log.snapshot_index == index
                &&& after.log.snapshot_term == req.last_included_term
                &&& forall|i: int| i <= index ==> !(#[trigger] logs::filled(after.log, i))
                &&& index > logs::end(before.log) ==> after.log.slots.len() == 0
                &&& forall|i: int|
                    i > index && index <= logs::end(before.log) && #[trigger] logs::filled(
                        before.log,
                        i,
                    ) ==> logs::filled(after.log, i) && logs::entry(after.log, i) == logs::entry(
                        before.log,
                        i,
                    )
            }
            &&& index <= before.log.snapshot_index ==> after.log == before.log
            &&& after.commit_index == if index > before.commit_index {
                index
            } else {
                before.commit_index
            }
            &&& after.last_applied == if index > before.last_applied {
                index
            } else {
                before.last_applied
            }
            &&& after.current_leader == Some(req.leader_id)
            &&& after.state == before.state && after.current_term == before.current_term
                && after.voted_for == before.voted_for && after.leader == before.leader
        },
{
    let before = old(node)@;
    before.snapshot_is_installed(req@);
    before.log.compaction_drops_what_the_snapshot_holds(
        req.last_included_index,
        req.last_included_term,
    );
    if installed {
        let ops = StorageOpView::all(r.1@);
        assert(ops.len() == r.1@.len());
        assert(ops[0] == r.1@[0]@);
        let index = req.last_included_index;
        if index > before.log.snapshot_index {
            let after = final(node)@;
            assert forall|i: int|
                i > index && index <= logs::end(before.log) && #[trigger] logs::filled(
                    before.log,
                    i,
                ) implies logs::filled(after.log, i) && logs::entry(after.log, i) == logs::entry(
                before.log,
                i,
            ) by {
                assert(logs::filled(after.log, i) <==> logs::filled(before.log, i));
            }
        }
    }
}

// ---- starting ----

/// A node starts with the term and the vote of its storage, the snapshot that was restored
/// and the stored entries after it; or it says why it does not.
pub proof fn starting_a_node<T>(
    config: Config,
    term: u64,
    voted_for: Option<NodeId>,
    snapshot: Option<(u64, u64)>,
    entries: Vec<LogEntry>,
    r: Result<RaftNode<T>, String>,
)
    requires
        call_ensures(RaftNode::<T>::new, (config, term, voted_for, snapshot, entries), r),
    ensures
        (snapshot matches Some(held) ==> held.0 < u64::MAX) ==> call_requires(
            RaftNode::<T>::new,
            (config, term, voted_for, snapshot, entries),
        ),
        ({
            let log = crate::recovery::recovered_log(snapshot, EntryView::all(entries@));
            let error = crate::recovery::recovery_error(log);
            &&& r is Ok <==> error is None
            &&& r matches Err(text) ==> error == Some(text@)
            &&& r matches Ok(node) ==> {
                &&& node@.log == log
                &&& node@.config == config
                &&& node@.state is Follower
                &&& node@.current_term == term
                &&& node@.voted_for == voted_for
                &&& node@.commit_index == log.snapshot_index
                &&& node@.last_applied == log.snapshot_index
                &&& node@.leader is None
                &&& node@.current_leader is None
            }
        }),
{
}

/// The stored snapshot is restored, unless there is none or it is at index zero.
pub proof fn restoring_a_snapshot<S: StateMachine>(
    state_machine: &mut S,
    snapshot: Option<(u64, u64, Vec<u8>)>,
    r: Result<Option<(u64, u64)>, String>,
)
    requires
        call_ensures(crate::recovery::restore_snapshot::<S>, (state_machine, snapshot), r),
    ensures
        call_requires(crate::recovery::restore_snapshot::<S>, (state_machine, snapshot)),
        snapshot is None ==> *final(state_machine) == *old(state_machine) && r is Ok && r->Ok_0
            is None,
        snapshot matches Some(stored) ==> {
            &&& stored.0 == 0 ==> *final(state_machine) == *old(state_machine) && r is Ok
                && r->Ok_0 is None
            &&& stored.0 > 0 && r is Ok ==> r->Ok_0 == Some((stored.0, stored.1)) && old(
                state_machine,
            ).restores(stored.2@, None, *final(state_machine))
            &&& stored.0 > 0 && r is Err ==> exists|text: Seq<char>|
                #![trigger old(state_machine).restores(stored.2@, Some(text), *final(state_machine))]
                old(state_machine).restores(stored.2@, Some(text), *final(state_machine))
                    && r->Err_0@ == "StateMachine restore failed: "@ + text
        },
{
}

// ---- the client ----

/// A client follows a redirection to the node that it names and turns to the next peer after
/// an error, as often as it has peers; then it gives the command up.  A success ends it.
pub proof fn sending_a_command<T>(
    client: &mut RaftClient<T>,
    attempts: usize,
    reply: CommandResult,
    r: ClientStep<Vec<u8>>,
)
    requires
        attempts <= old(client)@.peers.len(),
        reply is Error ==> old(client)@.peers.len() > 0,
        reply is Success || attempts == old(client)@.peers.len() ==> old(client)@.next_seq_num.0
            < u64::MAX,
        call_ensures(RaftClient::<T>::send_command_step, (client, attempts, reply), r),
    ensures
        call_requires(RaftClient::<T>::send_command_step, (client, attempts, reply)),
        ({
            let before = old(client)@;
            let after = final(client)@;
            &&& reply matches CommandResult::Success(bytes) ==> {
                &&& after.last_received_seq == before.next_seq_num
                &&& after.next_seq_num.0 == before.next_seq_num.0 + 1
                &&& after.current_leader == before.current_leader
                &&& r matches ClientStep::Done { outcome: Ok(payload) } && payload@ == bytes@
            }
            &&& reply matches CommandResult::Redirect(id) ==> after.current_leader == id
            &&& reply is Error ==> after.current_leader == before.next_peer()
            &&& !(reply is Success) ==> {
                &&& after.last_received_seq == before.last_received_seq
                &&& attempts < before.peers.len() ==> after.next_seq_num == before.next_seq_num
                    && r == (ClientStep::<Vec<u8>>::Retry {
                    target: after.current_leader,
                    attempts: (attempts + 1) as usize,
                })
                &&& attempts == before.peers.len() ==> after.next_seq_num.0
                    == before.next_seq_num.0 + 1 && (r matches ClientStep::Done {
                    outcome: Err(text),
                } && text@ == "Command execution failed: Cluster leader timeout or split-brain"@)
            }
            &&& after.client_id == before.client_id
            &&& after.peers == before.peers
            &&& after.transport == before.transport
        }),
{
    let before = old(client)@;
    if before.next_seq_num.0 < u64::MAX {
        before.session_counts_its_commands(ClientId(0));
        before.look_elsewhere(reply@).session_counts_its_commands(ClientId(0));
    }
    if let CommandResult::Redirect(id) = reply {
        before.redirection_is_followed(id);
    }
}

/// A client that registers has the id that it is told, and starts counting anew.
pub proof fn starting_a_session<T>(
    client: &mut RaftClient<T>,
    attempts: usize,
    reply: CommandResult,
    r: ClientStep<()>,
)
    requires
        attempts <= old(client)@.peers.len(),
        reply is Error ==> old(client)@.peers.len() > 0,
        call_ensures(RaftClient::<T>::init_session_step, (client, attempts, reply), r),
    ensures
        call_requires(RaftClient::<T>::init_session_step, (client, attempts, reply)),
        ({
            let before = old(client)@;
            let after = final(client)@;
            &&& reply matches CommandResult::Success(bytes) ==> {
                &&& bytes@.len() == 8 ==> {
                    &&& after.client_id matches Some(id) && id.0 == crate::bytes::le_value(bytes@)
                    &&& after.next_seq_num.0 == 1
                    &&& after.last_received_seq.0 == 0
                    &&& after.current_leader == before.current_leader
                    &&& r matches ClientStep::Done { outcome } && outcome is Ok
                }
                &&& bytes@.len() != 8 ==> after == before && (r matches ClientStep::Done {
                    outcome: Err(text),
                } && text@ == "Invalid ClientId bytes length from leader"@)
            }
            &&& reply matches CommandResult::Redirect(id) ==> after.current_leader == id
            &&& reply is Error ==> after.current_leader == before.next_peer()
            &&& !(reply is Success) ==> {
                &&& crate::laws::clients::same_session(before, after)
                &&& attempts < before.peers.len() ==> r == (ClientStep::<()>::Retry {
                    target: after.current_leader,
                    attempts: (attempts + 1) as usize,
                })
                &&& attempts == before.peers.len() ==> (r matches ClientStep::Done {
                    outcome: Err(text),
                } && text@ == "Failed to register client: Cluster unavailable"@)
            }
            &&& after.peers == before.peers
            &&& after.transport == before.transport
        }),
{
    let before = old(client)@;
    if let CommandResult::Redirect(id) = reply {
        before.redirection_is_followed(id);
    }
    if let CommandResult::Success(bytes) = reply {
        if bytes@.len() == 8 {
            crate::laws::starting::bytes_of_a_number_are_its_own(0, bytes@);
            crate::laws::starting::bytes_stand_for_a_number(bytes@);
        }
    }
}

/// The request of a client carries its id, the number of the command, the number that it has
/// received last, and the command.
pub proof fn asking_for_a_command<T>(
    client: RaftClient<T>,
    command: Vec<u8>,
    r: Result<ClientCommandRequest, String>,
)
    requires
        call_ensures(RaftClient::<T>::command_request, (&client, &command), r),
    ensures
        call_requires(RaftClient::<T>::command_request, (&client, &command)),
        client@.client_id matches Some(id) ==> r matches Ok(request) && request.client_id == id
            && request.seq_num == client@.next_seq_num && request.last_received_seq
            == client@.last_received_seq && request.command@ == command@,
        client@.client_id is None ==> (r matches Err(text) && text@
            == "Client session is not initialized. Call init_session first."@),
{
}

/// A client tells whom it asks, whether it has peers, and how far it can count.
pub proof fn reading_a_client<T>(client: RaftClient<T>, attempts: usize)
    ensures
        forall|r: NodeId|
            call_ensures(RaftClient::<T>::target, (&client,), r) ==> r == client@.current_leader,
        forall|r: bool|
            call_ensures(RaftClient::<T>::has_peers, (&client,), r) ==> (r <==> client@.peers.len()
                > 0),
        forall|r: bool|
            call_ensures(RaftClient::<T>::can_count_on, (&client,), r) ==> (r
                <==> client@.next_seq_num.0 < u64::MAX),
        forall|r: bool|
            call_ensures(RaftClient::<T>::is_last_attempt, (&client, attempts), r) ==> (r
                <==> attempts >= client@.peers.len()),
        client@.peers.len() > 0 ==> call_requires(RaftClient::<T>::pick_next_peer, (&client,)),
        forall|r: NodeId|
            call_ensures(RaftClient::<T>::pick_next_peer, (&client,), r) ==> r
                == client@.next_peer(),
{
}

/// A new client is not registered, asks the node that it is given first, and starts at the
/// number one.
pub proof fn making_a_client<T>(
    first: NodeId,
    peers: Vec<NodeId>,
    transport: Arc<T>,
    client: RaftClient<T>,
)
    requires
        call_ensures(RaftClient::<T>::new, (first, peers, transport), client),
    ensures
        call_requires(RaftClient::<T>::new, (first, peers, transport)),
        client@.client_id is None,
        client@.next_seq_num.0 == 1,
        client@.last_received_seq.0 == 0,
        client@.current_leader == first,
        client@.peers == peers@,
        client@.transport == transport,
{
}

// ---- requests by client and number ----

/// A table of requests gives back what was filed under a request, until it is taken out.
pub proof fn filing_requests<V>(
    table: &mut RequestTable<V>,
    client: ClientId,
    seq: SeqNum,
    value: V,
)
    requires
        call_ensures(RequestTable::<V>::insert, (table, client, seq, value), ()),
    ensures
        call_requires(RequestTable::<V>::insert, (table, client, seq, value)),
        forall|k: (ClientId, SeqNum)| #[trigger]
            final(table)@.contains_key(k) <==> k == (client, seq) || old(table)@.contains_key(k),
        final(table)@[(client, seq)] == value,
        forall|k: (ClientId, SeqNum)|
            k != (client, seq) && old(table)@.contains_key(k) ==> #[trigger] final(table)@[k]
                == old(table)@[k],
{
}

/// What is taken out of a table is what was filed, and only that goes.
pub proof fn taking_requests_out<V>(
    table: &mut RequestTable<V>,
    client: ClientId,
    seq: SeqNum,
    r: Option<V>,
)
    requires
        call_ensures(RequestTable::<V>::remove, (table, client, seq), r),
    ensures
        call_requires(RequestTable::<V>::remove, (table, client, seq)),
        r is Some <==> old(table)@.contains_key((client, seq)),
        r matches Some(value) ==> value == old(table)@[(client, seq)],
        forall|k: (ClientId, SeqNum)| #[trigger]
            final(table)@.contains_key(k) <==> k != (client, seq) && old(table)@.contains_key(k),
        forall|k: (ClientId, SeqNum)|
            final(table)@.contains_key(k) ==> #[trigger] final(table)@[k] == old(table)@[k],
{
}

/// Forgetting takes out the requests of one client up to a number, and no others.
pub proof fn forgetting_requests<V>(table: &mut RequestTable<V>, client: ClientId, up_to: SeqNum)
    requires
        call_ensures(RequestTable::<V>::forget, (table, client, up_to), ()),
    ensures
        call_requires(RequestTable::<V>::forget, (table, client, up_to)),
        forall|k: (ClientId, SeqNum)| #[trigger]
            final(table)@.contains_key(k) <==> old(table)@.contains_key(k) && (k.0 != client
                || k.1.0 > up_to.0),
        forall|k: (ClientId, SeqNum)|
            final(table)@.contains_key(k) ==> #[trigger] final(table)@[k] == old(table)@[k],
{
}

/// A table can be read: what it has under a request, and which requests it has, each once.
pub proof fn reading_a_table<V>(table: RequestTable<V>, client: ClientId, seq: SeqNum)
    ensures
        forall|r: bool|
            call_ensures(RequestTable::<V>::contains, (&table, client, seq), r) ==> (r
                <==> table@.contains_key((client, seq))),
        forall|r: Option<&V>| #[trigger]
            call_ensures(RequestTable::<V>::get, (&table, client, seq), r) ==> {
                &&& r is Some <==> table@.contains_key((client, seq))
                &&& r matches Some(value) ==> *value == table@[(client, seq)]
            },
        forall|r: Vec<(ClientId, SeqNum)>| #[trigger]
            call_ensures(RequestTable::<V>::keys, (&table,), r) ==> {
                &&& forall|k: (ClientId, SeqNum)| #[trigger]
                    r@.contains(k) <==> table@.contains_key(k)
                &&& r@.no_duplicates()
            },
        forall|r: RequestTable<V>|
            call_ensures(RequestTable::<V>::new, (), r) ==> r@.dom().is_empty(),
{
    assert forall|r: Vec<(ClientId, SeqNum)>| #[trigger]
        call_ensures(RequestTable::<V>::keys, (&table,), r) implies {
        &&& forall|k: (ClientId, SeqNum)| #[trigger] r@.contains(k) <==> table@.contains_key(k)
        &&& r@.no_duplicates()
    } by {
        assert forall|k: (ClientId, SeqNum)| #[trigger]
            r@.contains(k) <==> table@.contains_key(k) by {
            assert(r@.to_set().contains(k) <==> table@.dom().contains(k));
        }
    }
}

// ---- values ----

/// What stands for a node in the laws is what it holds, field by field.
pub proof fn nodes_are_seen_whole<T>(
    node: RaftNode<T>,
    leader: LeaderState<T>,
    client: ClientId,
    seq: SeqNum,
)
    ensures
        node@.config == node.config,
        node@.state == node.state,
        node@.current_term == node.current_term,
        node@.voted_for == node.voted_for,
        node@.log == node.log@,
        node@.commit_index == node.commit_index,
        node@.last_applied == node.last_applied,
        node@.current_leader == node.current_leader,
        node.leader_state is None <==> node@.leader is None,
        node.leader_state matches Some(held) ==> node@.leader == Some(held@),
        leader@.next_index == leader.next_index@,
        leader@.match_index == leader.match_index@,
        leader@.pending_clients == leader.pending_clients@,
        leader@.last_seq_nums == leader.last_seq_nums@,
        leader@.last_client_id == leader.last_client_id,
        leader@.client_results.contains_key((client, seq)) <==> leader.client_results@.contains_key(
            (client, seq),
        ),
        leader.client_results@.contains_key((client, seq)) ==> leader@.client_results[(client, seq)]
            == leader.client_results@[(client, seq)]@,
{
}

/// An entry, a client id and a sequence number hold what they are made of.
pub proof fn making_values(
    term: u64,
    index: u64,
    command: RaftCommand,
    client_id: ClientId,
    seq_num: SeqNum,
    number: u64,
)
    ensures
        forall|e: LogEntry| #[trigger]
            call_ensures(LogEntry::new, (term, index, command, client_id, seq_num), e) ==> {
                &&& e.term == term
                &&& e.index == index
                &&& e.command == command
                &&& e.client_id == client_id
                &&& e.seq_num == seq_num
            },
        forall|r: ClientId| call_ensures(ClientId::new, (number,), r) ==> r.0 == number,
        forall|r: u64| call_ensures(ClientId::to_u64, (client_id,), r) ==> r == client_id.0,
        forall|r: SeqNum| call_ensures(SeqNum::new, (number,), r) ==> r.0 == number,
        forall|r: u64| call_ensures(SeqNum::to_u64, (seq_num,), r) ==> r == seq_num.0,
{
}

/// Settings that nothing was set in.
pub proof fn making_settings(config: Config)
    requires
        call_ensures(<Config as Default>::default, (), config),
    ensures
        config.node_id == 1,
        config.peers@.len() == 0,
        config.election_timeout_min == 150,
        config.election_timeout_max == 300,
        config.heartbeat_interval == 50,
        config.snapshot_threshold == 500,
{
}

// ---- numbers ----

/// Numbers are given as their eight bytes, read from them, and written in decimal.
pub proof fn writing_numbers(x: u64, bytes: Vec<u8>, back: u64)
    requires
        call_ensures(crate::bytes::u64_to_le_bytes, (x,), bytes),
        call_ensures(crate::bytes::u64_from_le_bytes, (&bytes,), back),
    ensures
        call_requires(crate::bytes::u64_to_le_bytes, (x,)),
        call_requires(crate::bytes::u64_from_le_bytes, (&bytes,)),
        bytes@.len() == 8,
        back == x,
        x == bytes@[0] + 0x100 * (bytes@[1] + 0x100 * (bytes@[2] + 0x100 * (bytes@[3] + 0x100 * (
        bytes@[4] + 0x100 * (bytes@[5] + 0x100 * (bytes@[6] + 0x100 * bytes@[7])))))),
{
    crate::bytes::lemma_le_round_trip(x);
    crate::laws::starting::bytes_of_a_number_are_its_own(x, bytes@);
}

/// A number is written at the end of a text.
pub proof fn writing_decimals(text: &mut String, n: u64)
    requires
        call_ensures(crate::text::append_decimal, (text, n), ()),
    ensures
        call_requires(crate::text::append_decimal, (text, n)),
        final(text)@ == old(text)@ + crate::text::decimal(n as nat),
{
}

} // verus!
