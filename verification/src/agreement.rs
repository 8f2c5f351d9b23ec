//! How the logs and the state machines of two nodes come to agree.

use crate::log::{EntryView, LogView};
use crate::messages::{AppendEntriesView, InstallSnapshotView};
use crate::model::{FollowerMessageView, NodeView};
use crate::traits::StateMachine;
use crate::types::{CommandView, ResultView};
use vstd::prelude::*;

verus! {

impl LogView {
    /// The two logs have the same entry for every index after `from` and up to `to`.
    pub open spec fn agrees(self, other: LogView, from: int, to: int) -> bool {
        forall|i: int|
            from < i <= to ==> #[trigger] self.entry_at(i) is Some && self.entry_at(i)
                == other.entry_at(i)
    }
}

impl<T> NodeView<T> {
    /// A follower that accepts the message of a leader holds what the leader holds after
    /// the index at which the message starts.  With entries in it, the message makes the
    /// log of the follower end where that of the leader ends; a heartbeat leaves the log of
    /// the follower alone.
    pub proof fn accepted_message_brings_agreement(self, leader: NodeView<T>)
        requires
            self.log.contiguous(),
            leader.consistent(),
            leader.state is Leader,
            leader.log.last_index() < u64::MAX,
            leader.has_terms(),
            leader.message_for(self.config.node_id) is AppendEntries,
            self.append_verdict(
                leader.message_for(self.config.node_id)->request,
            ) is Accepted,
        ensures
            ({
                let request = leader.message_for(self.config.node_id)->request;
                let target = leader.message_for(self.config.node_id)->match_target;
                let after = self.after_append_entries(request);
                &&& after.log.contiguous()
                &&& self.append_response(request).success
                &&& target == leader.log.last_index()
                &&& after.log.agrees(leader.log, request.prev_log_index as int, target as int)
                &&& request.entries.len() > 0 ==> after.log.last_index() == target
                &&& request.entries.len() == 0 ==> after.log == self.log
            }),
    {
        let follower = self.config.node_id;
        let request = leader.message_for(follower)->request;
        leader.leader_messages_are_orderly(follower);
        self.lemma_append_keeps_order(request);
        let after = self.after_append_entries(request);
        let target = leader.message_for(follower)->match_target;
        assert forall|i: int| request.prev_log_index < i <= target implies #[trigger] after.log.entry_at(
            i,
        ) is Some && after.log.entry_at(i) == leader.log.entry_at(i) by {
            let k = i - request.prev_log_index - 1;
            assert(leader.log.entry_at(i) == Some(request.entries[k]));
            assert(after.log.entry_at(request.prev_log_index + 1 + k) == Some(request.entries[k]));
        }
    }

    /// If the logs of a leader and of a follower agree up to the index at which an accepted
    /// message starts, they agree up to the end of the message.
    pub proof fn agreement_grows(self, leader: NodeView<T>, from: int)
        requires
            self.log.contiguous(),
            leader.consistent(),
            leader.state is Leader,
            leader.log.last_index() < u64::MAX,
            leader.has_terms(),
            leader.message_for(self.config.node_id) is AppendEntries,
            self.append_verdict(
                leader.message_for(self.config.node_id)->request,
            ) is Accepted,
            self.log.agrees(
                leader.log,
                from,
                leader.message_for(self.config.node_id)->request.prev_log_index as int,
            ),
        ensures
            self.after_append_entries(
                leader.message_for(self.config.node_id)->request,
            ).log.agrees(
                leader.log,
                from,
                leader.message_for(self.config.node_id)->match_target as int,
            ),
    {
        self.accepted_message_brings_agreement(leader);
        let request = leader.message_for(self.config.node_id)->request;
        leader.leader_messages_are_orderly(self.config.node_id);
        self.lemma_append_keeps_order(request);
        let after = self.after_append_entries(request);
        let target = leader.message_for(self.config.node_id)->match_target as int;
        assert forall|i: int| from < i <= target implies #[trigger] after.log.entry_at(i) is Some
            && after.log.entry_at(i) == leader.log.entry_at(i) by {
            if i <= request.prev_log_index {
                assert(self.log.entry_at(i) is Some);
            }
        }
    }

    /// A snapshot takes the place of the entries up to its index, and everything in it
    /// counts as applied.  The entries after it are kept; a log that ends before the
    /// snapshot has none, and ends with the snapshot from then on.
    pub proof fn snapshot_replaces_entries(self, req: InstallSnapshotView)
        requires
            self.log.contiguous(),
            self.log.snapshot_index < req.last_included_index,
        ensures
            ({
                let after = self.after_snapshot(req);
                &&& after.log.snapshot_index == req.last_included_index
                &&& after.log.snapshot_term == req.last_included_term
                &&& after.commit_index >= req.last_included_index
                &&& after.last_applied >= req.last_included_index
                &&& forall|i: int|
                    i > req.last_included_index ==> #[trigger] after.log.entry_at(i)
                        == self.log.entry_at(i)
                &&& forall|i: int|
                    i <= req.last_included_index ==> (#[trigger] after.log.entry_at(i)) is None
                &&& self.log.last_index() <= req.last_included_index ==> {
                    &&& after.log.last_index() == req.last_included_index
                    &&& after.log.last_term() == req.last_included_term
                }
            }),
    {
        self.log.lemma_contiguous();
        let after = self.after_snapshot(req).log;
        self.log.lemma_compact(req.last_included_index, req.last_included_term);
        after.lemma_contiguous();
    }

    /// A follower that has installed a snapshot takes the entries that follow it, however
    /// far its own log reached.
    pub proof fn snapshot_lets_the_follower_catch_up(
        self,
        req: InstallSnapshotView,
        next: AppendEntriesView,
    )
        requires
            self.log.snapshot_index < req.last_included_index,
            next.term >= self.current_term,
            next.prev_log_index == req.last_included_index,
            next.prev_log_term == req.last_included_term,
        ensures
            self.after_snapshot(req).append_verdict(next) is Accepted,
            self.after_snapshot(req).append_response(next).success,
    {
    }

    /// What a leader offers to a follower that lags behind its log is the snapshot with
    /// which its own log starts.
    pub proof fn lagging_follower_gets_the_snapshot(self, follower: u64)
        requires
            self.send_after(follower) < self.log.snapshot_index,
        ensures
            self.message_for(follower) matches FollowerMessageView::InstallSnapshot { offer }
                && offer.last_included_index == self.log.snapshot_index
                && offer.last_included_term == self.log.snapshot_term,
    {
    }

    /// A snapshot that is due ends with the last applied entry.
    pub proof fn snapshot_covers_what_is_applied(self)
        requires
            self.consistent(),
            self.snapshot_due() is Some,
            self.last_applied > 0,
        ensures
            (self.snapshot_due()->0).0 == self.last_applied,
            self.last_applied <= self.log.last_index(),
            self.last_applied - self.log.snapshot_index >= self.config.snapshot_threshold,
    {
        self.log.lemma_contiguous();
    }
}

// ---- state machines ----

/// Every command has one outcome, and leads to one state.
pub open spec fn deterministic<S: StateMachine>() -> bool {
    forall|
        before: S,
        command: Seq<u8>,
        outcome: Result<Seq<u8>, Seq<char>>,
        after: S,
        other_outcome: Result<Seq<u8>, Seq<char>>,
        other_after: S,
    |
        #[trigger] before.applies(command, outcome, after) && #[trigger] before.applies(
            command,
            other_outcome,
            other_after,
        ) ==> outcome == other_outcome && after == other_after
}

proof fn lemma_same_entry_same_state<S: StateMachine>(
    before: S,
    e: EntryView,
    result: ResultView,
    after: S,
    other_result: ResultView,
    other_after: S,
)
    requires
        deterministic::<S>(),
        crate::apply::executes(before, e, result, after),
        crate::apply::executes(before, e, other_result, other_after),
    ensures
        result == other_result,
        after == other_after,
{
    if let CommandView::ClientCommand(command) = e.command {
        let outcome: Result<Seq<u8>, Seq<char>> = match result {
            ResultView::Success(bytes) => Ok(bytes),
            ResultView::Error(text) => Err(text),
            ResultView::Redirect(_) => Ok(Seq::empty()),
        };
        let other: Result<Seq<u8>, Seq<char>> = match other_result {
            ResultView::Success(bytes) => Ok(bytes),
            ResultView::Error(text) => Err(text),
            ResultView::Redirect(_) => Ok(Seq::empty()),
        };
        assert(before.applies(command, outcome, after));
        assert(before.applies(command, other, other_after));
    }
}

/// Deterministic state machines that start alike and carry out the same entries give the
/// same results and end alike.
pub proof fn same_entries_same_state<S: StateMachine>(
    before: S,
    entries: Seq<EntryView>,
    results: Seq<ResultView>,
    after: S,
    other_results: Seq<ResultView>,
    other_after: S,
)
    requires
        deterministic::<S>(),
        crate::apply::executes_all(before, entries, results, after),
        crate::apply::executes_all(before, entries, other_results, other_after),
    ensures
        results == other_results,
        after == other_after,
    decreases entries.len(),
{
    if entries.len() > 0 {
        let between = choose|between: S|
            {
                &&& crate::apply::executes_all(
                    before,
                    entries.drop_last(),
                    results.drop_last(),
                    between,
                )
                &&& #[trigger] crate::apply::executes(
                    between,
                    entries.last(),
                    results.last(),
                    after,
                )
            };
        let other_between = choose|between: S|
            {
                &&& crate::apply::executes_all(
                    before,
                    entries.drop_last(),
                    other_results.drop_last(),
                    between,
                )
                &&& #[trigger] crate::apply::executes(
                    between,
                    entries.last(),
                    other_results.last(),
                    other_after,
                )
            };
        same_entries_same_state(
            before,
            entries.drop_last(),
            results.drop_last(),
            between,
            other_results.drop_last(),
            other_between,
        );
        lemma_same_entry_same_state(
            between,
            entries.last(),
            results.last(),
            after,
            other_results.last(),
            other_after,
        );
        assert(results =~= results.drop_last().push(results.last()));
        assert(other_results =~= other_results.drop_last().push(other_results.last()));
    } else {
        assert(results =~= other_results);
    }
}

/// It makes no difference whether entries are applied at once or in two batches.
pub proof fn batches_make_no_difference<S: StateMachine>(
    before: S,
    first: Seq<EntryView>,
    first_results: Seq<ResultView>,
    between: S,
    second: Seq<EntryView>,
    second_results: Seq<ResultView>,
    after: S,
)
    requires
        crate::apply::executes_all(before, first, first_results, between),
        crate::apply::executes_all(between, second, second_results, after),
    ensures
        crate::apply::executes_all(before, first + second, first_results + second_results, after),
    decreases second.len(),
{
    let entries = first + second;
    let results = first_results + second_results;
    if second.len() == 0 {
        assert(entries =~= first);
        assert(results =~= first_results);
    } else {
        let last = choose|last: S|
            {
                &&& crate::apply::executes_all(
                    between,
                    second.drop_last(),
                    second_results.drop_last(),
                    last,
                )
                &&& #[trigger] crate::apply::executes(
                    last,
                    second.last(),
                    second_results.last(),
                    after,
                )
            };
        batches_make_no_difference(
            before,
            first,
            first_results,
            between,
            second.drop_last(),
            second_results.drop_last(),
            last,
        );
        assert(entries.drop_last() =~= first + second.drop_last());
        assert(results.drop_last() =~= first_results + second_results.drop_last());
        assert(crate::apply::executes(last, entries.last(), results.last(), after));
    }
}

/// A snapshot holds the whole state: what is restored from it is the state from which it was
/// made, whatever it is restored over.
pub open spec fn snapshots_hold_the_state<S: StateMachine>() -> bool {
    forall|state: S, snapshot: Seq<u8>, over: S, restored: S|
        #[trigger] state.serialises(snapshot) && #[trigger] over.restores(
            snapshot,
            None,
            restored,
        ) ==> restored == state
}

/// A state machine that is restored from a snapshot and carries out the entries after it is
/// one that has carried out every entry.  If it is deterministic, it is in the same state as
/// any other that has, and that gave the same results.
pub proof fn snapshot_stands_for_its_entries<S: StateMachine>(
    before: S,
    first: Seq<EntryView>,
    first_results: Seq<ResultView>,
    state: S,
    snapshot: Seq<u8>,
    over: S,
    restored: S,
    rest: Seq<EntryView>,
    rest_results: Seq<ResultView>,
    after: S,
    all_results: Seq<ResultView>,
    all_after: S,
)
    requires
        snapshots_hold_the_state::<S>(),
        crate::apply::executes_all(before, first, first_results, state),
        state.serialises(snapshot),
        over.restores(snapshot, None, restored),
        crate::apply::executes_all(restored, rest, rest_results, after),
    ensures
        restored == state,
        crate::apply::executes_all(before, first + rest, first_results + rest_results, after),
        deterministic::<S>() && crate::apply::executes_all(
            before,
            first + rest,
            all_results,
            all_after,
        ) ==> after == all_after && first_results + rest_results == all_results,
{
    batches_make_no_difference(
        before,
        first,
        first_results,
        state,
        rest,
        rest_results,
        after,
    );
    if deterministic::<S>() && crate::apply::executes_all(
        before,
        first + rest,
        all_results,
        all_after,
    ) {
        same_entries_same_state(
            before,
            first + rest,
            first_results + rest_results,
            after,
            all_results,
            all_after,
        );
    }
}

/// Nodes whose logs agree on what they apply take deterministic state machines that start
/// alike to the same state, with the same results.
pub proof fn agreeing_logs_same_state<S: StateMachine>(
    log: LogView,
    other: LogView,
    from: int,
    to: int,
    before: S,
    results: Seq<ResultView>,
    after: S,
    other_results: Seq<ResultView>,
    other_after: S,
)
    requires
        deterministic::<S>(),
        log.agrees(other, from, to),
        crate::apply::executes_all(before, log.span(from, to), results, after),
        crate::apply::executes_all(before, other.span(from, to), other_results, other_after),
    ensures
        results == other_results,
        after == other_after,
{
    assert forall|i: int| 0 <= i < log.span(from, to).len() implies log.span(from, to)[i]
        == other.span(from, to)[i] by {
        assert(log.entry_at(from + 1 + i) is Some);
    }
    assert(log.span(from, to) =~= other.span(from, to));
    same_entries_same_state(
        before,
        log.span(from, to),
        results,
        after,
        other_results,
        other_after,
    );
}

} // verus!
