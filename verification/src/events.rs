//! What a node does with an event, by its role.

use crate::messages::{
    AppendEntriesRequest, AppendEntriesResponse, AppendEntriesView, InstallSnapshotRequest,
    InstallSnapshotResponse, InstallSnapshotView, RequestVoteRequest, RequestVoteResponse,
};
use crate::model::{NodeView, StorageOp, StorageOpView};
use crate::raft::{RaftNode, State};
use crate::replication::ProgressOutcome;
use crate::sessions::ClientOutcome;
use crate::snapshot::SnapshotStart;
use crate::types::{ClientRequest, ClientRequestView, CommandResult, NodeId, ResultView};
use vstd::prelude::*;

verus! {

/// Something that happens to a node.
#[derive(Debug)]
pub enum RaftEvent<T> {
    ClientRequest(ClientRequest<T>),
    VoteRequestReceived(RequestVoteRequest),
    VoteResponse(RequestVoteResponse),
    /// The answer of a follower to entries up to an index.
    AppendEntriesResponse(AppendEntriesResponse, NodeId, u64),
    AppendEntriesReceived(AppendEntriesRequest),
    InstallSnapshotReceived(InstallSnapshotRequest),
    /// The node has taken and saved a snapshot up to an index, which is of a term.
    SnapshotCompleted(u64, u64),
    /// The answer of a follower to the snapshot up to an index.
    InstallSnapshotResponseReceived(InstallSnapshotResponse, NodeId, u64),
    /// The node is to shut down, for whatever reason.
    Shutdown,
}

/// A [`RaftEvent`] as a mathematical value.
pub enum EventView<T> {
    ClientRequest(ClientRequestView<T>),
    VoteRequestReceived(RequestVoteRequest),
    VoteResponse(RequestVoteResponse),
    AppendEntriesResponse(AppendEntriesResponse, NodeId, u64),
    AppendEntriesReceived(AppendEntriesView),
    InstallSnapshotReceived(InstallSnapshotView),
    SnapshotCompleted(u64, u64),
    InstallSnapshotResponseReceived(InstallSnapshotResponse, NodeId, u64),
    Shutdown,
}

impl<T> View for RaftEvent<T> {
    type V = EventView<T>;

    open spec fn view(&self) -> EventView<T> {
        match self {
            RaftEvent::ClientRequest(req) => EventView::ClientRequest(req@),
            RaftEvent::VoteRequestReceived(req) => EventView::VoteRequestReceived(*req),
            RaftEvent::VoteResponse(resp) => EventView::VoteResponse(*resp),
            RaftEvent::AppendEntriesResponse(resp, follower, target) => {
                EventView::AppendEntriesResponse(*resp, *follower, *target)
            },
            RaftEvent::AppendEntriesReceived(req) => EventView::AppendEntriesReceived(req@),
            RaftEvent::InstallSnapshotReceived(req) => EventView::InstallSnapshotReceived(req@),
            RaftEvent::SnapshotCompleted(index, term) => {
                EventView::SnapshotCompleted(*index, *term)
            },
            RaftEvent::InstallSnapshotResponseReceived(resp, follower, index) => {
                EventView::InstallSnapshotResponseReceived(*resp, *follower, *index)
            },
            RaftEvent::Shutdown => EventView::Shutdown,
        }
    }
}

/// What is to be done after an event.
#[derive(Debug)]
pub enum Step<T> {
    Ignore,
    /// The node is to be shut down.
    Shutdown,
    /// The client is answered.
    Answer { to: T, result: CommandResult },
    /// After the storage operations, every peer is sent its next message.
    Replicate { storage: Vec<StorageOp> },
    /// After the storage operations, what is committed is applied if `apply` says so,
    /// then the response goes out.
    AppendEntries { storage: Vec<StorageOp>, response: AppendEntriesResponse, apply: bool },
    /// After the storage operations the response goes out.
    Vote { storage: Vec<StorageOp>, vote: RequestVoteResponse },
    /// After the storage operations the snapshot is restored and saved.
    InstallSnapshot { storage: Vec<StorageOp>, request: InstallSnapshotRequest },
    /// The snapshot is turned down.
    RefuseSnapshot { refusal: InstallSnapshotResponse },
    /// Only the storage operations are left to do.
    Persist { storage: Vec<StorageOp> },
    /// The follower is sent its next message.
    Resend { follower: NodeId },
    /// What is committed is applied by the leader.
    Apply,
}

/// A [`Step`] as a mathematical value.
pub enum StepView<T> {
    Ignore,
    Shutdown,
    Answer { to: T, result: ResultView },
    Replicate { storage: Seq<StorageOpView> },
    AppendEntries { storage: Seq<StorageOpView>, response: AppendEntriesResponse, apply: bool },
    Vote { storage: Seq<StorageOpView>, vote: RequestVoteResponse },
    InstallSnapshot { storage: Seq<StorageOpView>, request: InstallSnapshotView },
    RefuseSnapshot { refusal: InstallSnapshotResponse },
    Persist { storage: Seq<StorageOpView> },
    Resend { follower: NodeId },
    Apply,
}

impl<T> View for Step<T> {
    type V = StepView<T>;

    open spec fn view(&self) -> StepView<T> {
        match self {
            Step::Ignore => StepView::Ignore,
            Step::Shutdown => StepView::Shutdown,
            Step::Answer { to, result } => StepView::Answer { to: *to, result: result@ },
            Step::Replicate { storage } => StepView::Replicate {
                storage: StorageOpView::all(storage@),
            },
            Step::AppendEntries { storage, response, apply } => StepView::AppendEntries {
                storage: StorageOpView::all(storage@),
                response: *response,
                apply: *apply,
            },
            Step::Vote { storage, vote } => StepView::Vote {
                storage: StorageOpView::all(storage@),
                vote: *vote,
            },
            Step::InstallSnapshot { storage, request } => StepView::InstallSnapshot {
                storage: StorageOpView::all(storage@),
                request: request@,
            },
            Step::RefuseSnapshot { refusal } => StepView::RefuseSnapshot { refusal: *refusal },
            Step::Persist { storage } => StepView::Persist { storage: StorageOpView::all(storage@) },
            Step::Resend { follower } => StepView::Resend { follower: *follower },
            Step::Apply => StepView::Apply,
        }
    }
}

/// What a node does with an event.
#[derive(Debug)]
pub struct Reaction<T> {
    pub step: Step<T>,
    /// The election timer starts anew after the step.
    pub reset_timer: bool,
    /// The node gives up its role after the step and goes on in that of its state.
    pub leave: bool,
}

/// A [`Reaction`] as a mathematical value.
pub struct ReactionView<T> {
    pub step: StepView<T>,
    pub reset_timer: bool,
    pub leave: bool,
}

impl<T> View for Reaction<T> {
    type V = ReactionView<T>;

    open spec fn view(&self) -> ReactionView<T> {
        ReactionView { step: self.step@, reset_timer: self.reset_timer, leave: self.leave }
    }
}

impl<T> ReactionView<T> {
    /// A reaction that leaves the timer and the role alone.
    pub open spec fn stay(step: StepView<T>) -> ReactionView<T> {
        ReactionView { step, reset_timer: false, leave: false }
    }
}

impl<T> NodeView<T> {
    // ---- followers ----

    pub open spec fn follower_defined(self, event: EventView<T>) -> bool {
        event matches EventView::AppendEntriesReceived(req) ==> self.append_defined(req)
    }

    /// The follower after the event.
    pub open spec fn after_follower_event(self, event: EventView<T>) -> NodeView<T> {
        match event {
            EventView::AppendEntriesReceived(req) => self.after_append_entries(req),
            EventView::VoteRequestReceived(req) => self.after_vote_request(req),
            EventView::InstallSnapshotReceived(req) => if req.term < self.current_term {
                self
            } else {
                self.before_snapshot(req)
            },
            _ => self,
        }
    }

    pub open spec fn follower_reaction(self, event: EventView<T>) -> ReactionView<T> {
        match event {
            EventView::Shutdown => ReactionView::stay(StepView::Shutdown),
            EventView::AppendEntriesReceived(req) => ReactionView {
                step: StepView::AppendEntries {
                    storage: self.append_ops(req),
                    response: self.append_response(req),
                    apply: self.commits_on(req),
                },
                reset_timer: true,
                leave: false,
            },
            EventView::VoteRequestReceived(req) => ReactionView {
                step: StepView::Vote {
                    storage: self.vote_ops(req),
                    vote: self.vote_response(req),
                },
                reset_timer: self.grants_vote(req),
                leave: false,
            },
            EventView::ClientRequest(req) => ReactionView::stay(
                StepView::Answer {
                    to: req.response_tx,
                    result: self.redirect("Leader is currrently unknown. Try again later."@),
                },
            ),
            EventView::InstallSnapshotReceived(req) => ReactionView {
                step: self.snapshot_step(req),
                reset_timer: true,
                leave: false,
            },
            _ => ReactionView::stay(StepView::Ignore),
        }
    }

    /// What follows from the snapshot of a leader.
    pub open spec fn snapshot_step(self, req: InstallSnapshotView) -> StepView<T> {
        if req.term < self.current_term {
            StepView::RefuseSnapshot {
                refusal: InstallSnapshotResponse { term: self.current_term, success: false },
            }
        } else {
            StepView::InstallSnapshot { storage: self.observe_term_ops(req.term), request: req }
        }
    }

    // ---- candidates ----

    pub open spec fn candidate_defined(self, event: EventView<T>) -> bool {
        event matches EventView::AppendEntriesReceived(req) ==> req.term >= self.current_term
            ==> self.step_down(req.term).append_defined(req)
    }

    /// The candidate after the event.  A leader of its own term or a later one makes it
    /// a follower.
    pub open spec fn after_candidate_event(self, event: EventView<T>) -> NodeView<T> {
        match event {
            EventView::AppendEntriesReceived(req) => if req.term >= self.current_term {
                self.step_down(req.term).after_append_entries(req)
            } else {
                self
            },
            EventView::VoteRequestReceived(req) => {
                let after = self.after_vote_request(req);
                if after.state is Follower {
                    NodeView { current_leader: None, ..after }
                } else {
                    after
                }
            },
            EventView::InstallSnapshotReceived(req) => if req.term >= self.current_term {
                self.step_down(req.term).before_snapshot(req)
            } else {
                self
            },
            EventView::SnapshotCompleted(index, term) => self.after_compaction(index, term),
            _ => self,
        }
    }

    pub open spec fn candidate_reaction(self, event: EventView<T>) -> ReactionView<T> {
        match event {
            EventView::Shutdown => ReactionView::stay(StepView::Shutdown),
            EventView::AppendEntriesReceived(req) => if req.term >= self.current_term {
                let following = self.step_down(req.term);
                ReactionView {
                    step: StepView::AppendEntries {
                        storage: seq![
                            StorageOpView::SaveTerm {
                                term: req.term,
                                voted_for: following.voted_for,
                            },
                        ] + following.append_ops(req),
                        response: following.append_response(req),
                        apply: following.commits_on(req),
                    },
                    reset_timer: false,
                    leave: true,
                }
            } else {
                ReactionView::stay(
                    StepView::AppendEntries {
                        storage: Seq::empty(),
                        response: AppendEntriesResponse {
                            term: self.current_term,
                            success: false,
                            conflict_index: 0,
                            last_log_index: self.log.last_index(),
                        },
                        apply: false,
                    },
                )
            },
            EventView::VoteRequestReceived(req) => ReactionView {
                step: StepView::Vote {
                    storage: self.vote_ops(req),
                    vote: self.vote_response(req),
                },
                reset_timer: false,
                leave: self.after_vote_request(req).state is Follower,
            },
            EventView::ClientRequest(req) => ReactionView::stay(
                StepView::Answer {
                    to: req.response_tx,
                    result: ResultView::Error(
                        "No leader elected yet. Node is currently a candidate"@,
                    ),
                },
            ),
            EventView::InstallSnapshotReceived(req) => if req.term >= self.current_term {
                ReactionView {
                    step: StepView::InstallSnapshot {
                        storage: seq![
                            StorageOpView::SaveTerm {
                                term: req.term,
                                voted_for: self.step_down(req.term).voted_for,
                            },
                        ],
                        request: req,
                    },
                    reset_timer: false,
                    leave: true,
                }
            } else {
                ReactionView::stay(self.snapshot_step(req))
            },
            _ => ReactionView::stay(StepView::Ignore),
        }
    }

    // ---- leaders ----

    /// The answer of a follower can be taken: the node leads, and its log has the
    /// entries that it looks at.
    pub open spec fn append_answer_defined(
        self,
        resp: AppendEntriesResponse,
        follower: NodeId,
        match_target: u64,
    ) -> bool {
        resp.term <= self.current_term ==> {
            &&& self.leader is Some
            &&& resp.success ==> {
                &&& self.match_for(follower) < u64::MAX
                &&& match_target < u64::MAX
                &&& self.with_match(follower, match_target).commit_scan_defined()
            }
        }
    }

    pub open spec fn snapshot_answer_defined(
        self,
        resp: InstallSnapshotResponse,
        follower: NodeId,
        last_included_index: u64,
    ) -> bool {
        resp.term <= self.current_term && resp.success ==> {
            &&& self.leader is Some
            &&& self.match_for(follower) < u64::MAX
            &&& last_included_index < u64::MAX
        }
    }

    pub open spec fn leader_defined(self, event: EventView<T>) -> bool {
        match event {
            EventView::ClientRequest(req) => self.client_request_defined(req),
            EventView::AppendEntriesResponse(resp, follower, target) => {
                self.append_answer_defined(resp, follower, target)
            },
            EventView::InstallSnapshotResponseReceived(resp, follower, index) => {
                self.snapshot_answer_defined(resp, follower, index)
            },
            _ => true,
        }
    }

    /// The leader once it has taken the answer of a follower to its entries.
    pub open spec fn after_append_answer(
        self,
        resp: AppendEntriesResponse,
        follower: NodeId,
        match_target: u64,
    ) -> NodeView<T> {
        if resp.term > self.current_term {
            self.step_down(resp.term)
        } else if resp.success {
            let noted = self.with_match(follower, match_target);
            noted.with_commit(
                noted.highest_committable(noted.log.last_index() as int) as u64,
            )
        } else {
            self.with_next(
                follower,
                self.next_after_refusal(follower, resp.conflict_index, match_target),
            )
        }
    }

    /// The leader after the event.
    pub open spec fn after_leader_event(self, event: EventView<T>) -> NodeView<T> {
        match event {
            EventView::ClientRequest(req) => self.after_client_request(req),
            EventView::AppendEntriesResponse(resp, follower, target) => {
                self.after_append_answer(resp, follower, target)
            },
            EventView::SnapshotCompleted(index, term) => if index > self.log.snapshot_index {
                self.after_compaction(index, term)
            } else {
                self
            },
            EventView::InstallSnapshotResponseReceived(resp, follower, index) => {
                if resp.term > self.current_term {
                    self.step_down(resp.term)
                } else if resp.success {
                    self.with_match(follower, index)
                } else {
                    self
                }
            },
            EventView::VoteRequestReceived(req) => self.after_vote_request(req),
            _ => self,
        }
    }

    /// The node gives up leading because of a later term.
    pub open spec fn step_down_reaction(term: u64) -> ReactionView<T> {
        ReactionView {
            step: StepView::Persist {
                storage: seq![StorageOpView::SaveTerm { term, voted_for: None }],
            },
            reset_timer: false,
            leave: true,
        }
    }

    pub open spec fn leader_reaction(self, event: EventView<T>) -> ReactionView<T> {
        match event {
            EventView::Shutdown => ReactionView::stay(StepView::Shutdown),
            EventView::ClientRequest(req) => ReactionView::stay(
                if self.client_verdict(req) is Append {
                    StepView::Replicate {
                        storage: seq![
                            StorageOpView::AppendLog { entries: seq![self.entry_for(req)] },
                        ],
                    }
                } else {
                    StepView::Answer { to: req.response_tx, result: self.client_answer(req) }
                },
            ),
            EventView::AppendEntriesResponse(resp, follower, target) => {
                if resp.term > self.current_term {
                    Self::step_down_reaction(resp.term)
                } else if resp.success {
                    ReactionView::stay(
                        if self.after_append_answer(resp, follower, target).commit_index
                            > self.commit_index {
                            StepView::Apply
                        } else {
                            StepView::Ignore
                        },
                    )
                } else {
                    ReactionView::stay(
                        if self.next_for(follower) <= target {
                            StepView::Resend { follower }
                        } else {
                            StepView::Ignore
                        },
                    )
                }
            },
            EventView::SnapshotCompleted(index, _) => ReactionView::stay(
                if index > self.log.snapshot_index {
                    StepView::Persist { storage: seq![StorageOpView::TruncateLog { index }] }
                } else {
                    StepView::Ignore
                },
            ),
            EventView::InstallSnapshotResponseReceived(resp, follower, _) => {
                if resp.term > self.current_term {
                    Self::step_down_reaction(resp.term)
                } else if resp.success {
                    ReactionView::stay(StepView::Resend { follower })
                } else {
                    ReactionView::stay(StepView::Ignore)
                }
            },
            EventView::VoteRequestReceived(req) => ReactionView {
                step: StepView::Vote {
                    storage: self.vote_ops(req),
                    vote: self.vote_response(req),
                },
                reset_timer: false,
                leave: self.after_vote_request(req).state is Follower,
            },
            _ => ReactionView::stay(StepView::Ignore),
        }
    }
}

impl<T> NodeView<T> {
    // ---- any role ----

    /// The node can take the event: nothing that the event brings in runs out of the
    /// range of an index, and the log has the entries that the node looks at.
    pub open spec fn event_defined(self, event: EventView<T>) -> bool {
        match self.state {
            State::Follower => self.follower_defined(event),
            State::Candidate => self.candidate_defined(event),
            State::Leader => self.leader_defined(event),
        }
    }

    /// The node after the event.
    pub open spec fn after_event(self, event: EventView<T>) -> NodeView<T> {
        match self.state {
            State::Follower => self.after_follower_event(event),
            State::Candidate => self.after_candidate_event(event),
            State::Leader => self.after_leader_event(event),
        }
    }

    pub open spec fn reaction(self, event: EventView<T>) -> ReactionView<T> {
        match self.state {
            State::Follower => self.follower_reaction(event),
            State::Candidate => self.candidate_reaction(event),
            State::Leader => self.leader_reaction(event),
        }
    }
}

impl<T> Reaction<T> {
    fn stay(step: Step<T>) -> (r: Self)
        ensures
            r@ == ReactionView::stay(step@),
    {
        Reaction { step, reset_timer: false, leave: false }
    }
}

/// A list of one storage operation.
fn single(op: StorageOp) -> (r: Vec<StorageOp>)
    ensures
        StorageOpView::all(r@) == seq![op@],
{
    let mut ops: Vec<StorageOp> = Vec::new();
    ops.push(op);
    assert(StorageOpView::all(ops@) =~= seq![op@]);
    ops
}

/// Two lists of storage operations, one after the other.
fn joined(first: Vec<StorageOp>, second: Vec<StorageOp>) -> (r: Vec<StorageOp>)
    ensures
        StorageOpView::all(r@) == StorageOpView::all(first@) + StorageOpView::all(second@),
{
    let mut ops = first;
    let mut rest = second;
    ops.append(&mut rest);
    assert(StorageOpView::all(ops@) =~= StorageOpView::all(first@) + StorageOpView::all(second@));
    ops
}

impl<T> RaftNode<T> {
    /// What the node does with an event, in the role that it has.
    pub fn handle_event(&mut self, event: RaftEvent<T>) -> (r: Reaction<T>)
        requires
            old(self)@.event_defined(event@),
        ensures
            final(self)@ == old(self)@.after_event(event@),
            r@ == old(self)@.reaction(event@),
    {
        match self.state {
            State::Follower => self.follower_event(event),
            State::Candidate => self.candidate_event(event),
            State::Leader => self.leader_event(event),
        }
    }

    /// The node can take the event.
    pub fn can_handle_event(&self, event: &RaftEvent<T>) -> (r: bool)
        ensures
            r == self@.event_defined(event@),
    {
        match (self.state, event) {
            (State::Leader, RaftEvent::ClientRequest(req)) => self.can_take_request(req),
            (State::Leader, RaftEvent::AppendEntriesResponse(resp, follower, target)) => {
                resp.term > self.current_term || (self.leader_state.is_some() && (!resp.success || (
                self.can_note_match(*follower, *target) && self.can_find_commit(*follower, *target))))
            },
            (
                State::Leader,
                RaftEvent::InstallSnapshotResponseReceived(resp, follower, index),
            ) => {
                resp.term > self.current_term || !resp.success || (self.leader_state.is_some()
                    && self.can_note_match(*follower, *index))
            },
            (State::Follower, RaftEvent::AppendEntriesReceived(req)) => self.can_append(req),
            (State::Candidate, RaftEvent::AppendEntriesReceived(req)) => {
                req.term < self.current_term || self.can_append(req)
            },
            _ => true,
        }
    }

    /// What a follower does with an event.
    pub fn follower_event(&mut self, event: RaftEvent<T>) -> (r: Reaction<T>)
        requires
            old(self)@.follower_defined(event@),
        ensures
            final(self)@ == old(self)@.after_follower_event(event@),
            r@ == old(self)@.follower_reaction(event@),
    {
        match event {
            RaftEvent::Shutdown => Reaction::stay(Step::Shutdown),
            RaftEvent::AppendEntriesReceived(req) => {
                let apply: bool = self.commits_on(&req);
                let (response, storage) = self.handle_append_entries(req);
                let reset_timer: bool = response.term >= self.current_term;
                Reaction {
                    step: Step::AppendEntries { storage, response, apply },
                    reset_timer,
                    leave: false,
                }
            },
            RaftEvent::VoteRequestReceived(req) => {
                let (vote, storage) = self.handle_request_vote(req);
                Reaction {
                    step: Step::Vote { storage, vote },
                    reset_timer: vote.vote_granted,
                    leave: false,
                }
            },
            RaftEvent::ClientRequest(req) => {
                let result = self.redirect("Leader is currrently unknown. Try again later.");
                Reaction::stay(Step::Answer { to: req.response_tx, result })
            },
            RaftEvent::InstallSnapshotReceived(req) => {
                let step = self.begin_snapshot(req);
                Reaction { step, reset_timer: true, leave: false }
            },
            _ => Reaction::stay(Step::Ignore),
        }
    }

    /// Takes the snapshot of a leader.
    fn begin_snapshot(&mut self, req: InstallSnapshotRequest) -> (r: Step<T>)
        ensures
            final(self)@ == (if req.term < old(self).current_term {
                old(self)@
            } else {
                old(self)@.before_snapshot(req@)
            }),
            r@ == old(self)@.snapshot_step(req@),
    {
        match self.handle_install_snapshot(&req) {
            SnapshotStart::Refused { response } => Step::RefuseSnapshot { refusal: response },
            SnapshotStart::Proceed { storage } => Step::InstallSnapshot { storage, request: req },
        }
    }

    /// What a candidate does with an event.
    pub fn candidate_event(&mut self, event: RaftEvent<T>) -> (r: Reaction<T>)
        requires
            old(self)@.candidate_defined(event@),
        ensures
            final(self)@ == old(self)@.after_candidate_event(event@),
            r@ == old(self)@.candidate_reaction(event@),
    {
        match event {
            RaftEvent::Shutdown => Reaction::stay(Step::Shutdown),
            RaftEvent::AppendEntriesReceived(req) => {
                if req.term >= self.current_term {
                    let save = self.become_follower(req.term);
                    let apply: bool = self.commits_on(&req);
                    let (response, storage) = self.handle_append_entries(req);
                    let storage = joined(single(save), storage);
                    Reaction {
                        step: Step::AppendEntries { storage, response, apply },
                        reset_timer: false,
                        leave: true,
                    }
                } else {
                    let storage: Vec<StorageOp> = Vec::new();
                    assert(StorageOpView::all(storage@) =~= Seq::empty());
                    Reaction::stay(
                        Step::AppendEntries {
                            storage,
                            response: AppendEntriesResponse {
                                term: self.current_term,
                                success: false,
                                conflict_index: 0,
                                last_log_index: self.log.last_index(),
                            },
                            apply: false,
                        },
                    )
                }
            },
            RaftEvent::VoteRequestReceived(req) => {
                let (vote, storage) = self.handle_request_vote(req);
                let leave: bool = self.state == State::Follower;
                if leave {
                    self.current_leader = None;
                }
                Reaction { step: Step::Vote { storage, vote }, reset_timer: false, leave }
            },
            RaftEvent::ClientRequest(req) => {
                let result = CommandResult::Error(
                    "No leader elected yet. Node is currently a candidate".to_string(),
                );
                Reaction::stay(Step::Answer { to: req.response_tx, result })
            },
            RaftEvent::InstallSnapshotReceived(req) => {
                if req.term >= self.current_term {
                    let save = self.become_follower(req.term);
                    let step = match self.begin_snapshot(req) {
                        Step::InstallSnapshot { storage, request } => Step::InstallSnapshot {
                            storage: joined(single(save), storage),
                            request,
                        },
                        other => other,
                    };
                    assert(seq![save@] + Seq::empty() =~= seq![save@]);
                    Reaction { step, reset_timer: false, leave: true }
                } else {
                    Reaction::stay(self.begin_snapshot(req))
                }
            },
            RaftEvent::SnapshotCompleted(index, term) => {
                self.log.compact(index, term);
                Reaction::stay(Step::Ignore)
            },
            _ => Reaction::stay(Step::Ignore),
        }
    }

    /// What a leader does with an event.
    pub fn leader_event(&mut self, event: RaftEvent<T>) -> (r: Reaction<T>)
        requires
            old(self)@.leader_defined(event@),
        ensures
            final(self)@ == old(self)@.after_leader_event(event@),
            r@ == old(self)@.leader_reaction(event@),
    {
        match event {
            RaftEvent::Shutdown => Reaction::stay(Step::Shutdown),
            RaftEvent::ClientRequest(req) => {
                match self.handle_client_request(req) {
                    ClientOutcome::Answer { to, result } => {
                        Reaction::stay(Step::Answer { to, result })
                    },
                    ClientOutcome::Replicate { storage } => {
                        Reaction::stay(Step::Replicate { storage })
                    },
                }
            },
            RaftEvent::AppendEntriesResponse(resp, follower, match_target) => {
                let outcome = self.handle_append_entries_response(resp, follower, match_target);
                Self::progress_reaction(outcome, follower)
            },
            RaftEvent::SnapshotCompleted(index, term) => {
                if index > self.log.snapshot_index() {
                    self.log.compact(index, term);
                    Reaction::stay(
                        Step::Persist { storage: single(StorageOp::TruncateLog { index }) },
                    )
                } else {
                    Reaction::stay(Step::Ignore)
                }
            },
            RaftEvent::InstallSnapshotResponseReceived(resp, follower, last_included_index) => {
                let outcome = self.handle_install_snapshot_response(
                    resp,
                    follower,
                    last_included_index,
                );
                Self::progress_reaction(outcome, follower)
            },
            RaftEvent::VoteRequestReceived(req) => {
                let (vote, storage) = self.handle_request_vote(req);
                Reaction {
                    step: Step::Vote { storage, vote },
                    reset_timer: false,
                    leave: self.state == State::Follower,
                }
            },
            _ => Reaction::stay(Step::Ignore),
        }
    }

    fn progress_reaction(outcome: ProgressOutcome, follower: NodeId) -> (r: Reaction<T>)
        ensures
            match outcome {
                ProgressOutcome::SteppedDown { save } => r@ == (ReactionView::<T> {
                    step: StepView::Persist { storage: seq![save@] },
                    reset_timer: false,
                    leave: true,
                }),
                ProgressOutcome::Resend => r@ == ReactionView::stay(
                    StepView::<T>::Resend { follower },
                ),
                ProgressOutcome::Committed => r@ == ReactionView::stay(StepView::<T>::Apply),
                ProgressOutcome::Nothing => r@ == ReactionView::stay(StepView::<T>::Ignore),
            },
    {
        match outcome {
            ProgressOutcome::SteppedDown { save } => Reaction {
                step: Step::Persist { storage: single(save) },
                reset_timer: false,
                leave: true,
            },
            ProgressOutcome::Resend => Reaction::stay(Step::Resend { follower }),
            ProgressOutcome::Committed => Reaction::stay(Step::Apply),
            ProgressOutcome::Nothing => Reaction::stay(Step::Ignore),
        }
    }
}

} // verus!
