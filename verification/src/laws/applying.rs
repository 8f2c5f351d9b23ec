//! What applying committed entries promises.

use crate::laws::logs;
use crate::log::EntryView;
use crate::model::{LeaderView, NodeView};
use crate::raft::RaftNode;
use crate::traits::StateMachine;
use crate::types::{ClientId, CommandView, ResultView, SeqNum};
use vstd::prelude::*;

verus! {

impl<T> NodeView<T> {
    /// A snapshot is due exactly where at least as many entries as the settings say were
    /// applied after the last one, and the log has the last of them; it ends with that entry.
    pub proof fn when_a_snapshot_is_due(self)
        ensures
            ({
                let applied = self.last_applied as int;
                let enough = applied - self.log.snapshot_index >= self.config.snapshot_threshold;
                &&& enough && logs::filled(self.log, applied) ==> self.snapshot_due() == Some(
                    (
                        logs::entry(self.log, applied).index,
                        logs::entry(self.log, applied).term,
                    ),
                )
                &&& !enough || !logs::filled(self.log, applied) ==> self.snapshot_due() is None
            }),
    {
    }

    /// Where the log is in sequence and reaches the last applied entry, a snapshot is due as
    /// soon as enough was applied, however many entries were applied at once.
    pub proof fn snapshot_becomes_due(self)
        requires
            logs::in_sequence(self.log),
            self.log.snapshot_index < self.last_applied <= logs::end(self.log),
        ensures
            self.last_applied - self.log.snapshot_index >= self.config.snapshot_threshold
                <==> self.snapshot_due() is Some,
            self.snapshot_due() matches Some(due) ==> due.0 == self.last_applied && due.1
                == logs::entry(self.log, self.last_applied as int).term,
    {
        self.log.sequence_is_contiguity();
        self.log.lemma_contiguous();
        assert(self.log.entry_at(self.last_applied as int) is Some);
    }

    /// Applying moves the node up to what is committed, and touches nothing else but what a
    /// leader knows of its clients.
    pub proof fn applying_catches_up(self, results: Seq<ResultView>)
        ensures
            ({
                let after = self.applied(results);
                &&& after.last_applied >= self.commit_index && after.last_applied
                    >= self.last_applied
                &&& after.last_applied == self.commit_index || after.last_applied
                    == self.last_applied
                &&& after.config == self.config
                &&& after.state == self.state
                &&& after.current_term == self.current_term
                &&& after.voted_for == self.voted_for
                &&& after.log == self.log
                &&& after.commit_index == self.commit_index
                &&& after.current_leader == self.current_leader
                &&& self.leader is None ==> after.leader is None
                &&& self.leader is Some ==> after.leader == Some(
                    self.leader->0.record_all(
                        self.log.span(self.last_applied as int, self.commit_index as int),
                        results,
                    ),
                )
            }),
    {
    }
}

impl<T> LeaderView<T> {
    /// With the result of an entry the leader knows the result of the request, the client has
    /// carried out that number, and nobody waits for it any more.  Clients without a session
    /// have no number.  Nothing else changes.
    pub proof fn result_is_filed(self, e: EntryView, result: ResultView)
        ensures
            ({
                let after = self.record(e, result);
                let key = (e.client_id, e.seq_num);
                &&& after.client_results == self.client_results.insert(key, result)
                &&& e.client_id.0 > 0 ==> after.last_seq_nums == self.last_seq_nums.insert(
                    e.client_id.0,
                    e.seq_num,
                )
                &&& e.client_id.0 == 0 ==> after.last_seq_nums == self.last_seq_nums
                &&& after.pending_clients == self.pending_clients.remove(key)
                &&& after.next_index == self.next_index
                &&& after.match_index == self.match_index
                &&& after.last_client_id == self.last_client_id
                &&& self.pending_clients.contains_key(key) ==> self.waiting_for(e) == Some(
                    self.pending_clients[key],
                )
                &&& !self.pending_clients.contains_key(key) ==> self.waiting_for(e) is None
            }),
    {
    }

    /// Results are filed and answered one after the other: after those of some entries comes
    /// that of the next, and whoever waits for it then is answered with it, last.
    pub proof fn results_are_filed_in_order(
        self,
        entries: Seq<EntryView>,
        results: Seq<ResultView>,
        e: EntryView,
        result: ResultView,
    )
        ensures
            self.record_all(Seq::empty(), Seq::empty()) == self,
            self.answers(Seq::empty(), Seq::empty()).len() == 0,
            ({
                let before = self.record_all(entries, results);
                let key = (e.client_id, e.seq_num);
                &&& self.record_all(entries.push(e), results.push(result)) == before.record(
                    e,
                    result,
                )
                &&& self.answers(entries.push(e), results.push(result))
                    == if before.pending_clients.contains_key(key) {
                    self.answers(entries, results).push((before.pending_clients[key], result))
                } else {
                    self.answers(entries, results)
                }
            }),
    {
        assert(entries.push(e).drop_last() =~= entries);
        assert(results.push(result).drop_last() =~= results);
    }

    /// Once entries are applied, the number of a client is that of its last entry, and a
    /// client without an entry keeps the number that it had.
    pub proof fn number_is_that_of_the_last_entry(
        self,
        entries: Seq<EntryView>,
        results: Seq<ResultView>,
        client: ClientId,
    )
        requires
            client.0 > 0,
            entries.len() == results.len(),
        ensures
            ({
                let numbers = self.record_all(entries, results).last_seq_nums;
                &&& forall|k: int|
                    0 <= k < entries.len() && (#[trigger] entries[k]).client_id == client && (
                    forall|j: int|
                        k < j < entries.len() ==> (#[trigger] entries[j]).client_id != client)
                        ==> numbers.contains_key(client.0) && numbers[client.0]
                        == entries[k].seq_num
                &&& (forall|k: int|
                    0 <= k < entries.len() ==> (#[trigger] entries[k]).client_id != client) ==> (
                numbers.contains_key(client.0) <==> self.last_seq_nums.contains_key(client.0)) && (
                numbers.contains_key(client.0) ==> numbers[client.0]
                    == self.last_seq_nums[client.0])
            }),
        decreases entries.len(),
    {
        if entries.len() > 0 {
            let shorter = entries.drop_last();
            let fewer = results.drop_last();
            let last = entries.len() - 1;
            self.number_is_that_of_the_last_entry(shorter, fewer, client);
            assert(entries.last() == entries[last]);
            let numbers = self.record_all(entries, results).last_seq_nums;
            assert forall|k: int|
                0 <= k < entries.len() && (#[trigger] entries[k]).client_id == client && (forall|
                    j: int,
                |
                    k < j < entries.len() ==> (#[trigger] entries[j]).client_id
                        != client) implies numbers.contains_key(client.0) && numbers[client.0]
                == entries[k].seq_num by {
                if k < last {
                    assert(entries[last].client_id != client);
                    assert(shorter[k] == entries[k]);
                    assert forall|j: int| k < j < shorter.len() implies (
                    #[trigger] shorter[j]).client_id != client by {
                        assert(entries[j].client_id != client);
                    }
                }
            }
            if forall|k: int|
                0 <= k < entries.len() ==> (#[trigger] entries[k]).client_id != client {
                assert(entries[last].client_id != client);
                assert forall|j: int| 0 <= j < shorter.len() implies (
                #[trigger] shorter[j]).client_id != client by {
                    assert(entries[j].client_id != client);
                }
            }
        }
    }
}

/// A registration leaves the state machine alone and is answered with the eight bytes of the
/// id; a command is applied, and answered with what that gave.
pub proof fn entries_are_carried_out<S: StateMachine>(
    before: S,
    e: EntryView,
    result: ResultView,
    after: S,
)
    ensures
        e.command is RegisterClient ==> (crate::apply::executes(before, e, result, after) <==> {
            &&& after == before
            &&& result matches ResultView::Success(bytes) && bytes.len() == 8
                && crate::bytes::le_value(bytes) == e.client_id.0
        }),
        e.command matches CommandView::ClientCommand(command) ==> (crate::apply::executes(
            before,
            e,
            result,
            after,
        ) <==> {
            ||| result matches ResultView::Success(bytes) && before.applies(
                command,
                Ok(bytes),
                after,
            )
            ||| result matches ResultView::Error(text) && before.applies(command, Err(text), after)
        }),
{
    if e.command is RegisterClient {
        crate::bytes::lemma_le_round_trip(e.client_id.0);
        if let ResultView::Success(bytes) = result {
            if bytes.len() == 8 && crate::bytes::le_value(bytes) == e.client_id.0 {
                crate::laws::starting::bytes_of_a_number_are_its_own(e.client_id.0, bytes);
            }
        }
    }
}

/// Entries are carried out one after the other, each in the state that the one before has
/// left, and each with its own result; none is left out.
pub proof fn entries_are_carried_out_in_order<S: StateMachine>(
    before: S,
    entries: Seq<EntryView>,
    results: Seq<ResultView>,
    e: EntryView,
    result: ResultView,
    after: S,
)
    ensures
        crate::apply::executes_all(before, Seq::empty(), Seq::empty(), after) <==> after == before,
        crate::apply::executes_all(before, entries.push(e), results.push(result), after)
            <==> exists|between: S|
            {
                &&& crate::apply::executes_all(before, entries, results, between)
                &&& #[trigger] crate::apply::executes(between, e, result, after)
            },
{
    let more = entries.push(e);
    let more_results = results.push(result);
    assert(more.drop_last() =~= entries);
    assert(more_results.drop_last() =~= results);
    assert(more.last() == e && more_results.last() == result);
    if crate::apply::executes_all(before, more, more_results, after) {
        let between = choose|between: S|
            {
                &&& crate::apply::executes_all(
                    before,
                    more.drop_last(),
                    more_results.drop_last(),
                    between,
                )
                &&& #[trigger] crate::apply::executes(
                    between,
                    more.last(),
                    more_results.last(),
                    after,
                )
            };
        assert(crate::apply::executes(between, e, result, after));
    }
    if exists|between: S|
        {
            &&& crate::apply::executes_all(before, entries, results, between)
            &&& #[trigger] crate::apply::executes(between, e, result, after)
        } {
        let between = choose|between: S|
            {
                &&& crate::apply::executes_all(before, entries, results, between)
                &&& #[trigger] crate::apply::executes(between, e, result, after)
            };
        assert(crate::apply::executes(between, more.last(), more_results.last(), after));
    }
}

/// A leader can apply as long as its log has what is to be applied.
pub proof fn leader_can_apply<T>(node: RaftNode<T>)
    requires
        node@.leader is Some,
        forall|i: int|
            node@.last_applied < i <= node@.commit_index ==> #[trigger] logs::filled(node@.log, i),
        node@.log.snapshot_index <= node@.last_applied || node@.log.snapshot_index
            <= node@.commit_index,
    ensures
        node.apply_defined(),
{
    node@.log.span_lists_what_is_there(node@.last_applied as int, node@.commit_index as int);
}

} // verus!
