//! Applying committed entries to the state machine.

use crate::bytes::u64_to_le_bytes;
use crate::log::EntryView;
use crate::model::NodeView;
use crate::raft::{LeaderState, RaftNode};
use crate::traits::StateMachine;
use crate::types::{CommandResult, CommandView, RaftCommand, ResultView};
use vstd::prelude::*;

verus! {

broadcast use vstd::std_specs::hash::group_hash_axioms;

/// Carrying out the entry `e` takes a state machine from `before` to `after`, with
/// this result.  A registration is answered with the id of the client and leaves
/// the state machine alone.
pub open spec fn executes<S: StateMachine>(
    before: S,
    e: EntryView,
    result: ResultView,
    after: S,
) -> bool {
    match e.command {
        CommandView::RegisterClient => {
            &&& after == before
            &&& result == ResultView::Success(crate::bytes::le_bytes(e.client_id.0))
        },
        CommandView::ClientCommand(command) => match result {
            ResultView::Success(bytes) => before.applies(command, Ok(bytes), after),
            ResultView::Error(text) => before.applies(command, Err(text), after),
            ResultView::Redirect(_) => false,
        },
    }
}

/// Carrying out `entries` one after the other takes a state machine from `before`
/// to `after`, with these results.
pub open spec fn executes_all<S: StateMachine>(
    before: S,
    entries: Seq<EntryView>,
    results: Seq<ResultView>,
    after: S,
) -> bool
    decreases entries.len(),
{
    &&& results.len() == entries.len()
    &&& if entries.len() == 0 {
        after == before
    } else {
        exists|between: S|
            {
                &&& executes_all(before, entries.drop_last(), results.drop_last(), between)
                &&& #[trigger] executes(between, entries.last(), results.last(), after)
            }
    }
}

/// One more entry is carried out.
proof fn lemma_executes_push<S: StateMachine>(
    before: S,
    entries: Seq<EntryView>,
    results: Seq<ResultView>,
    between: S,
    e: EntryView,
    result: ResultView,
    after: S,
)
    requires
        executes_all(before, entries, results, between),
        executes(between, e, result, after),
    ensures
        executes_all(before, entries.push(e), results.push(result), after),
{
    assert(entries.push(e).drop_last() =~= entries);
    assert(results.push(result).drop_last() =~= results);
    assert(executes(between, entries.push(e).last(), results.push(result).last(), after));
}

/// The answer to the client whose command had this outcome.
pub fn command_result(outcome: Result<Vec<u8>, String>) -> (r: CommandResult)
    ensures
        r@ == match outcome {
            Ok(bytes) => ResultView::Success(bytes@),
            Err(text) => ResultView::Error(text@),
        },
{
    match outcome {
        Ok(bytes) => CommandResult::Success(bytes),
        Err(text) => CommandResult::Error(text),
    }
}

/// Answers to clients as mathematical values.
pub open spec fn answers_view<T>(answers: Seq<(T, CommandResult)>) -> Seq<(T, ResultView)> {
    answers.map_values(|a: (T, CommandResult)| (a.0, a.1@))
}

/// What is left to do after a leader has applied entries.
#[derive(Debug)]
pub struct Applied<T> {
    /// The answers to the clients that waited, in the order of their entries.
    pub answers: Vec<(T, CommandResult)>,
    /// What the leader knows of its clients is to be saved.
    pub save_client_state: bool,
    /// The index and term of the snapshot to take.
    pub snapshot: Option<(u64, u64)>,
}

impl<T> Applied<T> {
    pub open spec fn answers_view(self) -> Seq<(T, ResultView)> {
        answers_view(self.answers@)
    }
}

impl<T> LeaderState<T> {
    /// Files the result of an applied entry.  Returns who waits for it.
    pub fn record_result(
        &mut self,
        entry: &crate::log::LogEntry,
        result: CommandResult,
    ) -> (r: Option<T>)
        ensures
            final(self)@ == old(self)@.record(entry@, result@),
            r == old(self)@.waiting_for(entry@),
    {
        let ghost filed = result@;
        self.client_results.insert(entry.client_id, entry.seq_num, result);
        if entry.client_id.0 > 0 {
            self.last_seq_nums.insert(entry.client_id.0, entry.seq_num);
        }
        let waiting = self.pending_clients.remove(entry.client_id, entry.seq_num);
        assert(self@.client_results =~= old(self)@.record(entry@, filed).client_results);
        waiting
    }
}

impl<T> RaftNode<T> {
    /// The entries that are committed and not yet applied are in the log.
    pub fn can_apply(&self) -> (r: bool)
        ensures
            r == self@.log.holds_all(
                crate::model::max_u64(self.last_applied, self@.log.snapshot_index) as int,
                self.commit_index as int,
            ),
    {
        let snapshot_index: u64 = self.log.snapshot_index();
        if self.last_applied >= snapshot_index {
            self.log.holds_all(self.last_applied, self.commit_index)
        } else {
            self.log.holds_all(snapshot_index, self.commit_index)
        }
    }

    /// Applies what is committed and not yet applied, as a node that does not lead.
    pub fn apply_committed<S: StateMachine>(&mut self, state_machine: &mut S)
        requires
            old(self)@.log.holds_all(
                crate::model::max_u64(
                    old(self).last_applied,
                    old(self)@.log.snapshot_index,
                ) as int,
                old(self).commit_index as int,
            ),
        ensures
            final(self)@ == (NodeView {
                last_applied: crate::model::max_u64(
                    old(self).last_applied,
                    old(self).commit_index,
                ),
                ..old(self)@
            }),
            exists|results: Seq<ResultView>|
                executes_all(
                    *old(state_machine),
                    old(self)@.log.span(
                        crate::model::max_u64(
                            old(self).last_applied,
                            old(self)@.log.snapshot_index,
                        ) as int,
                        old(self).commit_index as int,
                    ),
                    results,
                    *final(state_machine),
                ),
    {
        let ghost start = crate::model::max_u64(self.last_applied, self@.log.snapshot_index) as int;
        let ghost mut results: Seq<ResultView> = Seq::empty();
        let ghost first = self.last_applied;
        assert(self@.log.span(start, start) =~= Seq::empty());
        while self.last_applied < self.commit_index
            invariant
                self@ == (NodeView { last_applied: self.last_applied, ..old(self)@ }),
                first == old(self).last_applied,
                first <= self.last_applied,
                self.last_applied <= crate::model::max_u64(first, self.commit_index),
                start == crate::model::max_u64(first, self@.log.snapshot_index),
                self@.log.holds_all(start, self.commit_index as int),
                executes_all(
                    *old(state_machine),
                    self@.log.span(start, self.last_applied as int),
                    results,
                    *state_machine,
                ),
            decreases self.commit_index - self.last_applied,
        {
            let next: u64 = self.last_applied + 1;
            let ghost before = self@.log.span(start, self.last_applied as int);
            if next <= self.log.snapshot_index() {
                self.last_applied = next;
                assert(self@.log.span(start, next as int) =~= before);
                continue;
            }
            assert(self@.log.entry_at(next as int) is Some);
            let entry = self.log.get(next).unwrap();
            let ghost e = entry@;
            let ghost between = *state_machine;
            match &entry.command {
                RaftCommand::RegisterClient => {
                    proof {
                        let result = ResultView::Success(crate::bytes::le_bytes(e.client_id.0));
                        lemma_executes_push(
                            *old(state_machine),
                            before,
                            results,
                            between,
                            e,
                            result,
                            *state_machine,
                        );
                        results = results.push(result);
                    }
                },
                RaftCommand::ClientCommand(command) => {
                    let outcome = state_machine.apply(command.as_slice());
                    proof {
                        let result = match outcome {
                            Ok(bytes) => ResultView::Success(bytes@),
                            Err(text) => ResultView::Error(text@),
                        };
                        lemma_executes_push(
                            *old(state_machine),
                            before,
                            results,
                            between,
                            e,
                            result,
                            *state_machine,
                        );
                        results = results.push(result);
                    }
                },
            }
            self.last_applied = next;
            assert(self@.log.span(start, next as int) =~= before.push(e));
        }
        assert(self@.log.span(start, self.commit_index as int) =~= self@.log.span(
            start,
            self.last_applied as int,
        ));
    }

    /// The entries that the leader is about to apply are in its log, and the log does
    /// not start after them.
    pub open spec fn apply_defined(self) -> bool {
        &&& self@.leader is Some
        &&& self@.log.holds_all(self.last_applied as int, self.commit_index as int)
        &&& self@.log.snapshot_index <= crate::model::max_u64(self.last_applied, self.commit_index)
    }

    pub fn can_apply_as_leader(&self) -> (r: bool)
        ensures
            r == self.apply_defined(),
    {
        let snapshot_index: u64 = self.log.snapshot_index();
        self.leader_state.is_some() && self.log.holds_all(self.last_applied, self.commit_index) && (
        snapshot_index <= self.last_applied || snapshot_index <= self.commit_index)
    }

    /// Applies what is committed and not yet applied, as the leader.
    pub fn apply_committed_as_leader<S: StateMachine>(
        &mut self,
        state_machine: &mut S,
    ) -> (r: Applied<T>)
        requires
            old(self).apply_defined(),
        ensures
            ({
                let entries = old(self)@.log.span(
                    old(self).last_applied as int,
                    old(self).commit_index as int,
                );
                exists|results: Seq<ResultView>|
                    {
                        &&& #[trigger] executes_all(
                            *old(state_machine),
                            entries,
                            results,
                            *final(state_machine),
                        )
                        &&& final(self)@.leader == Some(
                            old(self)@.leader->0.record_all(entries, results),
                        )
                        &&& r.answers_view() == old(self)@.leader->0.answers(entries, results)
                    }
            }),
            final(self)@ == (NodeView {
                last_applied: crate::model::max_u64(
                    old(self).last_applied,
                    old(self).commit_index,
                ),
                leader: final(self)@.leader,
                ..old(self)@
            }),
            r.save_client_state == !final(self)@.leader->0.last_seq_nums.is_empty(),
            r.snapshot == final(self)@.snapshot_due(),
    {
        let ghost start = self.last_applied as int;
        let ghost mut results: Seq<ResultView> = Seq::empty();
        let mut answers: Vec<(T, CommandResult)> = Vec::new();
        let mut leader = self.leader_state.take().unwrap();
        let ghost first = leader@;
        assert(self@.log.span(start, start) =~= Seq::empty());
        assert(answers_view(answers@) =~= Seq::empty());
        while self.last_applied < self.commit_index
            invariant
                self@ == (NodeView {
                    last_applied: self.last_applied,
                    leader: None,
                    ..old(self)@
                }),
                first == old(self)@.leader->0,
                start == old(self).last_applied,
                start <= self.last_applied,
                self.last_applied <= crate::model::max_u64(
                    old(self).last_applied,
                    self.commit_index,
                ),
                self@.log.holds_all(start, self.commit_index as int),
                executes_all(
                    *old(state_machine),
                    self@.log.span(start, self.last_applied as int),
                    results,
                    *state_machine,
                ),
                leader@ == first.record_all(
                    self@.log.span(start, self.last_applied as int),
                    results,
                ),
                answers_view(answers@) == first.answers(
                    self@.log.span(start, self.last_applied as int),
                    results,
                ),
            decreases self.commit_index - self.last_applied,
        {
            let next: u64 = self.last_applied + 1;
            let ghost before = self@.log.span(start, self.last_applied as int);
            assert(self@.log.entry_at(next as int) is Some);
            let entry = self.log.get(next).unwrap();
            let ghost e = entry@;
            let ghost between = *state_machine;
            let result = match &entry.command {
                RaftCommand::RegisterClient => CommandResult::Success(
                    u64_to_le_bytes(entry.client_id.0),
                ),
                RaftCommand::ClientCommand(command) => command_result(
                    state_machine.apply(command.as_slice()),
                ),
            };
            let ghost answers_before = answers@;
            if let Some(to) = leader.record_result(entry, result.clone()) {
                answers.push((to, result));
                assert(answers_view(answers@) =~= answers_view(answers_before).push((to, result@)));
            }
            proof {
                lemma_executes_push(
                    *old(state_machine),
                    before,
                    results,
                    between,
                    e,
                    result@,
                    *state_machine,
                );
                assert(self@.log.span(start, next as int) =~= before.push(e));
                assert(before.push(e).drop_last() =~= before);
                assert(results.push(result@).drop_last() =~= results);
                results = results.push(result@);
            }
            self.last_applied = next;
        }
        assert(self@.log.span(start, self.commit_index as int) =~= self@.log.span(
            start,
            self.last_applied as int,
        ));
        let save_client_state: bool = !leader.last_seq_nums.is_empty();
        self.leader_state = Some(leader);
        let snapshot = self.snapshot_due();
        Applied { answers, save_client_state, snapshot }
    }

    /// The index and term of the snapshot that is due, if one is.
    pub fn snapshot_due(&self) -> (r: Option<(u64, u64)>)
        requires
            self@.log.snapshot_index <= self.last_applied,
        ensures
            r == self@.snapshot_due(),
    {
        if self.last_applied - self.log.snapshot_index() >= self.config.snapshot_threshold {
            match self.log.get(self.last_applied) {
                Some(entry) => Some((entry.index, entry.term)),
                None => None,
            }
        } else {
            None
        }
    }
}

} // verus!
