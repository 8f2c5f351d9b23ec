//! What holds of a node over any run of moves, whatever happens in it.

use crate::events::{EventView, StepView};
use crate::messages::{
    AppendEntriesResponse, AppendEntriesView, InstallSnapshotView, RequestVoteRequest,
};
use crate::model::{NodeView, StorageOpView};
use crate::raft::State;
use crate::types::{ClientId, ClientRequestView, NodeId, ResultView, SeqNum};
use vstd::prelude::*;

verus! {

/// One move of a node.
pub enum Move<T> {
    /// The node takes an event.  If the event calls for it, what is then committed is
    /// applied, with these results.
    Event { event: EventView<T>, results: Seq<ResultView> },
    /// A follower has not heard from a leader in time.
    TimedOut,
    /// A candidate enters the race.
    Candidacy,
    /// A candidate has not won in time and runs again.
    Election,
    /// A candidate is told of a later term in answer to its request.
    LaterTerm { term: u64 },
    /// A candidate has won; what its storage has of the clients is loaded.
    Victory { last_client_id: ClientId, last_seq_nums: Map<u64, SeqNum> },
    /// The snapshot of a leader is restored and saved.
    Installed { req: InstallSnapshotView },
}

impl<T> StepView<T> {
    /// The storage operations of the step.
    pub open spec fn storage_ops(self) -> Seq<StorageOpView> {
        match self {
            StepView::Replicate { storage } => storage,
            StepView::AppendEntries { storage, .. } => storage,
            StepView::Vote { storage, .. } => storage,
            StepView::InstallSnapshot { storage, .. } => storage,
            StepView::Persist { storage } => storage,
            _ => Seq::empty(),
        }
    }

    /// What is committed is applied with the step.
    pub open spec fn applies(self) -> bool {
        match self {
            StepView::AppendEntries { apply, .. } => apply,
            StepView::Apply => true,
            _ => false,
        }
    }
}

/// The term and the vote that the storage has after the operations.
pub open spec fn saved_vote(
    before: (u64, Option<NodeId>),
    ops: Seq<StorageOpView>,
) -> (u64, Option<NodeId>)
    decreases ops.len(),
{
    if ops.len() == 0 {
        before
    } else {
        match ops.last() {
            StorageOpView::SaveTerm { term, voted_for } => (term, voted_for),
            _ => saved_vote(before, ops.drop_last()),
        }
    }
}

/// Operations one after the other save what the later ones save.
proof fn lemma_saved_vote_concat(
    before: (u64, Option<NodeId>),
    first: Seq<StorageOpView>,
    second: Seq<StorageOpView>,
)
    ensures
        saved_vote(before, first + second) == saved_vote(saved_vote(before, first), second),
    decreases second.len(),
{
    if second.len() == 0 {
        assert(first + second =~= first);
    } else {
        assert((first + second).drop_last() =~= first + second.drop_last());
        lemma_saved_vote_concat(before, first, second.drop_last());
    }
}

impl<T> NodeView<T> {
    /// The node once it has applied what is committed, with these results.
    pub open spec fn applied(self, results: Seq<ResultView>) -> NodeView<T> {
        NodeView {
            leader: match self.leader {
                Some(leader) => Some(
                    leader.record_all(
                        self.log.span(self.last_applied as int, self.commit_index as int),
                        results,
                    ),
                ),
                None => None,
            },
            ..self.settled()
        }
    }

    /// The node is in a state in which the move can be made.
    pub open spec fn possible(self, m: Move<T>) -> bool {
        match m {
            Move::Event { event, .. } => self.event_defined(event),
            Move::TimedOut => self.state is Follower,
            Move::Candidacy => self.state is Candidate && self.current_term < u64::MAX,
            Move::Election => self.state is Candidate && self.current_term < u64::MAX,
            Move::LaterTerm { term } => self.state is Candidate && term > self.current_term,
            Move::Victory { .. } => self.state is Candidate && self.log.last_index() < u64::MAX,
            Move::Installed { req } => self.state is Follower && req.term == self.current_term,
        }
    }

    pub open spec fn after_move(self, m: Move<T>) -> NodeView<T> {
        match m {
            Move::Event { event, results } => {
                if self.reaction(event).step.applies() {
                    self.after_event(event).applied(results)
                } else {
                    self.after_event(event)
                }
            },
            Move::TimedOut => NodeView { current_leader: None, state: State::Candidate, ..self },
            Move::Candidacy => NodeView { current_leader: None, ..self.start_election() },
            Move::Election => self.start_election(),
            Move::LaterTerm { term } => self.step_down(term),
            Move::Victory { last_client_id, last_seq_nums } => self.become_leader(
                last_client_id,
                last_seq_nums,
            ),
            Move::Installed { req } => self.after_snapshot(req),
        }
    }

    /// The storage operations that go with the move.
    pub open spec fn move_ops(self, m: Move<T>) -> Seq<StorageOpView> {
        match m {
            Move::Event { event, .. } => self.reaction(event).step.storage_ops(),
            Move::TimedOut => Seq::empty(),
            Move::Candidacy => seq![self.start_election().save_op()],
            Move::Election => seq![self.start_election().save_op()],
            Move::LaterTerm { term } => seq![self.step_down(term).save_op()],
            Move::Victory { .. } => Seq::empty(),
            Move::Installed { req } => seq![
                StorageOpView::TruncateLog { index: req.last_included_index },
            ],
        }
    }

    /// The operation that saves the term and the vote of the node.
    pub open spec fn save_op(self) -> StorageOpView {
        StorageOpView::SaveTerm { term: self.current_term, voted_for: self.voted_for }
    }

    /// The node after the moves, one after the other.
    pub open spec fn after_run(self, run: Seq<Move<T>>) -> NodeView<T>
        decreases run.len(),
    {
        if run.len() == 0 {
            self
        } else {
            self.after_run(run.drop_last()).after_move(run.last())
        }
    }

    /// Each of the moves can be made when its turn comes.
    pub open spec fn possible_run(self, run: Seq<Move<T>>) -> bool
        decreases run.len(),
    {
        run.len() > 0 ==> {
            &&& self.possible_run(run.drop_last())
            &&& self.after_run(run.drop_last()).possible(run.last())
        }
    }

    /// The term and the vote that the storage has after the run.
    pub open spec fn saved_after_run(
        self,
        before: (u64, Option<NodeId>),
        run: Seq<Move<T>>,
    ) -> (u64, Option<NodeId>)
        decreases run.len(),
    {
        if run.len() == 0 {
            before
        } else {
            saved_vote(
                self.saved_after_run(before, run.drop_last()),
                self.after_run(run.drop_last()).move_ops(run.last()),
            )
        }
    }

    /// The term of a node never goes back.
    pub proof fn term_never_decreases(self, run: Seq<Move<T>>)
        requires
            self.possible_run(run),
        ensures
            self.after_run(run).current_term >= self.current_term,
        decreases run.len(),
    {
        if run.len() > 0 {
            self.term_never_decreases(run.drop_last());
        }
    }

    /// A node that has voted keeps its vote for as long as it stays in the term.
    pub proof fn vote_is_kept(self, run: Seq<Move<T>>)
        requires
            self.possible_run(run),
            self.voted_for is Some,
            self.after_run(run).current_term == self.current_term,
        ensures
            self.after_run(run).voted_for == self.voted_for,
        decreases run.len(),
    {
        if run.len() > 0 {
            let before = self.after_run(run.drop_last());
            self.term_never_decreases(run.drop_last());
            assert(before.after_run(seq![run.last()]) == before.after_move(run.last())) by {
                assert(seq![run.last()].drop_last() =~= Seq::empty());
                reveal_with_fuel(NodeView::after_run, 2);
            }
            assert(before.possible_run(seq![run.last()])) by {
                assert(seq![run.last()].drop_last() =~= Seq::empty());
                reveal_with_fuel(NodeView::possible_run, 2);
            }
            before.term_never_decreases(seq![run.last()]);
            self.vote_is_kept(run.drop_last());
        }
    }

    /// At most one candidate gets the vote of a node in a term: if the node votes now and
    /// again after any run, it is for the same candidate.
    pub proof fn one_vote_per_term(
        self,
        first: RequestVoteRequest,
        run: Seq<Move<T>>,
        second: RequestVoteRequest,
    )
        requires
            self.grants_vote(first),
            self.after_vote_request(first).possible_run(run),
            self.after_vote_request(first).after_run(run).grants_vote(second),
            first.term == second.term,
        ensures
            first.candidate_id == second.candidate_id,
    {
        let voted = self.after_vote_request(first);
        voted.term_never_decreases(run);
        voted.vote_is_kept(run);
    }

    /// A vote goes only to a candidate whose log is at least as recent.
    pub proof fn vote_needs_recent_log(self, req: RequestVoteRequest)
        requires
            self.grants_vote(req),
        ensures
            req.last_log_term >= self.log.last_term(),
            req.last_log_term == self.log.last_term() ==> req.last_log_index
                >= self.log.last_index(),
            self.after_vote_request(req).voted_for == Some(req.candidate_id),
            self.after_vote_request(req).current_term == req.term,
    {
    }

    /// The storage has the term and the vote of the node after every move, so that a node
    /// that starts again from its storage has not forgotten its vote.  Of its log
    /// [`NodeView::log_is_saved`] says the same.
    pub proof fn vote_is_saved(self, before: (u64, Option<NodeId>), run: Seq<Move<T>>)
        requires
            before == (self.current_term, self.voted_for),
        ensures
            self.saved_after_run(before, run) == (
                self.after_run(run).current_term,
                self.after_run(run).voted_for,
            ),
        decreases run.len(),
    {
        if run.len() > 0 {
            self.vote_is_saved(before, run.drop_last());
            self.after_run(run.drop_last()).lemma_move_saves_vote(run.last());
        }
    }

    pub(crate) proof fn lemma_move_saves_vote(self, m: Move<T>)
        ensures
            saved_vote((self.current_term, self.voted_for), self.move_ops(m)) == (
                self.after_move(m).current_term,
                self.after_move(m).voted_for,
            ),
    {
        reveal_with_fuel(saved_vote, 2);
        if let Move::Event { event, .. } = m {
            let now = (self.current_term, self.voted_for);
            match event {
                EventView::AppendEntriesReceived(req) => {
                    if self.state is Candidate && req.term >= self.current_term {
                        let following = self.step_down(req.term);
                        let save = seq![following.save_op()];
                        lemma_saved_vote_concat(now, save, following.append_ops(req));
                        following.lemma_append_saves_vote(req);
                    } else {
                        self.lemma_append_saves_vote(req);
                    }
                },
                EventView::VoteRequestReceived(req) => {
                    if self.grants_vote(req) {
                        assert(self.vote_ops(req).last() == StorageOpView::SaveTerm {
                            term: req.term,
                            voted_for: Some(req.candidate_id),
                        });
                    }
                },
                _ => {},
            }
        }
    }

    proof fn lemma_append_saves_vote(self, req: AppendEntriesView)
        ensures
            saved_vote((self.current_term, self.voted_for), self.append_ops(req)) == (
                self.after_append_entries(req).current_term,
                self.after_append_entries(req).voted_for,
            ),
    {
        reveal_with_fuel(saved_vote, 2);
        if self.append_verdict(req) is Accepted && req.entries.len() > 0 {
            assert(self.append_ops(req).drop_last() =~= self.observe_term_ops(req.term));
        }
    }
}

// ---- consistency ----

impl<T> NodeView<T> {
    /// A move as correct nodes cause it, by a node whose indices have not run out.
    pub open spec fn orderly_move(self, m: Move<T>) -> bool {
        match m {
            Move::Event { event, .. } => {
                &&& self.orderly(event)
                &&& self.state is Leader ==> {
                    &&& self.log.last_index() < u64::MAX
                    &&& self.commit_index < u64::MAX
                }
            },
            _ => self.possible(m),
        }
    }

    /// Each of the moves is orderly when its turn comes.
    pub open spec fn orderly_run(self, run: Seq<Move<T>>) -> bool
        decreases run.len(),
    {
        run.len() > 0 ==> {
            &&& self.orderly_run(run.drop_last())
            &&& self.after_run(run.drop_last()).orderly_move(run.last())
        }
    }

    /// A consistent node can make every orderly move, what it then has committed is in its
    /// log, and it is consistent afterwards.
    pub proof fn move_stays_consistent(self, m: Move<T>)
        requires
            self.consistent(),
            self.orderly_move(m),
        ensures
            self.possible(m),
            self.after_move(m).consistent(),
            m matches Move::Event { event, .. } ==> self.after_event(event).log.holds_all(
                self.last_applied as int,
                self.after_event(event).commit_index as int,
            ),
    {
        match m {
            Move::Event { event, results } => {
                match self.state {
                    State::Follower => self.follower_stays_consistent(event),
                    State::Candidate => self.candidate_stays_consistent(event),
                    State::Leader => self.leader_stays_consistent(event),
                }
                let after = self.after_event(event);
                if after.leader is Some {
                    after.apply_stays_consistent(results);
                }
            },
            Move::TimedOut => self.election_stays_consistent(),
            Move::Candidacy => self.election_stays_consistent(),
            Move::Election => self.election_stays_consistent(),
            Move::LaterTerm { .. } => {},
            Move::Victory { last_client_id, last_seq_nums } => self.victory_stays_consistent(
                last_client_id,
                last_seq_nums,
            ),
            Move::Installed { req } => self.snapshot_stays_consistent(req),
        }
    }

    /// A consistent node stays consistent over every orderly run, and every move of such a
    /// run can be made.
    pub proof fn run_stays_consistent(self, run: Seq<Move<T>>)
        requires
            self.consistent(),
            self.orderly_run(run),
        ensures
            self.after_run(run).consistent(),
            self.possible_run(run),
        decreases run.len(),
    {
        if run.len() > 0 {
            self.run_stays_consistent(run.drop_last());
            self.after_run(run.drop_last()).move_stays_consistent(run.last());
        }
    }

    /// What was applied stays applied.
    pub proof fn applied_never_decreases(self, run: Seq<Move<T>>)
        ensures
            self.after_run(run).last_applied >= self.last_applied,
        decreases run.len(),
    {
        if run.len() > 0 {
            self.applied_never_decreases(run.drop_last());
        }
    }
}

// ---- leadership ----

impl<T> NodeView<T> {
    /// For as long as it leads, a leader neither overwrites nor drops an entry of its log,
    /// other than by moving it into a snapshot.
    pub proof fn leader_keeps_its_entries(self, event: EventView<T>)
        requires
            self.state is Leader,
            self.event_defined(event),
            self.log.contiguous(),
        ensures
            forall|i: int|
                i > self.after_event(event).log.snapshot_index && self.log.entry_at(i) is Some
                    ==> #[trigger] self.after_event(event).log.entry_at(i) == self.log.entry_at(i),
            self.after_event(event).log.snapshot_index >= self.log.snapshot_index,
    {
        match event {
            EventView::ClientRequest(req) => {
                if self.client_verdict(req) is Append {
                    self.log.lemma_append(seq![self.entry_for(req)]);
                }
            },
            EventView::SnapshotCompleted(index, term) => {
                if self.log.snapshot_index < index {
                    self.log.lemma_compact(index, term);
                }
            },
            _ => {},
        }
    }

    /// What a leader has committed stays committed for as long as it leads.
    pub proof fn leader_commit_never_decreases(self, event: EventView<T>)
        requires
            self.state is Leader,
            self.event_defined(event),
        ensures
            self.after_event(event).commit_index >= self.commit_index,
    {
        if let EventView::AppendEntriesResponse(resp, follower, target) = event {
            let noted = self.with_match(follower, target);
            noted.lemma_highest_committable(noted.log.last_index() as int);
        }
    }

    /// The node accepts entries that end before what it has committed.
    pub open spec fn uncommits(self, event: EventView<T>) -> bool {
        event matches EventView::AppendEntriesReceived(req) && {
            &&& self.append_verdict(req) is Accepted
            &&& req.leader_commit > self.commit_index
            &&& self.log_after_append(req).last_index() < self.commit_index
        }
    }

    /// What a follower or a candidate has committed stays committed, except where it
    /// accepts entries that end before that.
    pub proof fn follower_commit_never_decreases(self, event: EventView<T>)
        requires
            !(self.state is Leader),
            !self.uncommits(event),
        ensures
            self.after_event(event).commit_index >= self.commit_index,
    {
    }

    /// A leader commits an entry only if it is of its own term and a majority, the leader
    /// counted, is known to hold it, and then it commits the highest such entry.
    pub proof fn leader_commits_by_majority(
        self,
        resp: AppendEntriesResponse,
        follower: NodeId,
        target: u64,
    )
        requires
            self.append_answer_defined(resp, follower, target),
            self.after_append_answer(resp, follower, target).commit_index > self.commit_index,
        ensures
            ({
                let after = self.after_append_answer(resp, follower, target);
                &&& resp.success && resp.term <= self.current_term
                &&& after.log.entry_at(after.commit_index as int) matches Some(e) && e.term
                    == self.current_term
                &&& crate::model::replicas(
                    after.leader->0.match_index,
                    after.commit_index as int,
                ) + 1 >= self.config.majority_view()
                &&& forall|i: int|
                    after.commit_index < i <= after.log.last_index() ==> !(
                    #[trigger] after.committable(i))
            }),
    {
        let noted = self.with_match(follower, target);
        let top = noted.log.last_index() as int;
        noted.lemma_highest_committable(top);
        let after = self.after_append_answer(resp, follower, target);
        assert(after.commit_index == noted.highest_committable(top));
        assert forall|i: int| after.commit_index < i <= after.log.last_index() implies !(
        #[trigger] after.committable(i)) by {
            assert(!noted.committable(i));
        }
    }

    /// Each refusal that is not out of date moves a leader at least one entry back, down to
    /// the first one, so that it ends at an entry on which the logs agree or at the start.
    pub proof fn refusal_moves_back(self, follower: NodeId, conflict_index: u64, target: u64)
        requires
            1 < self.next_for(follower) <= target,
        ensures
            1 <= self.next_after_refusal(follower, conflict_index, target) < self.next_for(
                follower,
            ),
    {
    }

    /// Only a leader enters the request of a client in its log; any other node leaves
    /// everything as it is and answers.
    pub proof fn only_a_leader_takes_requests(self, req: ClientRequestView<T>)
        requires
            !(self.state is Leader),
        ensures
            self.after_event(EventView::ClientRequest(req)) == self,
            self.reaction(EventView::ClientRequest(req)).step matches StepView::Answer {
                to,
                result,
            } && to == req.response_tx && !(result is Success),
    {
    }
}

} // verus!
