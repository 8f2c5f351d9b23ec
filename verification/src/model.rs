//! A node as a mathematical value, and what each event does to it.

use crate::log::{EntryView, LogEntry, LogView};
use crate::messages::{
    AppendEntriesRequest, AppendEntriesResponse, AppendEntriesView, InstallSnapshotView,
    RequestVoteRequest, RequestVoteResponse,
};
use crate::raft::State;
use crate::types::{ClientId, ClientRequestView, CommandView, Config, NodeId, ResultView, SeqNum};
use vstd::prelude::*;

verus! {

/// A change of the storage.  Storage operations are carried out in the order in
/// which they are listed; one that fails is fatal to the node.
#[derive(Debug)]
pub enum StorageOp {
    SaveTerm { term: u64, voted_for: Option<NodeId> },
    /// The entries take the place of every stored entry from the index of the first of them
    /// on.  A storage that only adds them at the end keeps entries that a leader has
    /// replaced, and a node that starts from it has another log than it had.
    AppendLog { entries: Vec<LogEntry> },
    /// The entries up to the index are no longer needed.
    TruncateLog { index: u64 },
}

/// A [`StorageOp`] as a mathematical value.
pub enum StorageOpView {
    SaveTerm { term: u64, voted_for: Option<NodeId> },
    AppendLog { entries: Seq<EntryView> },
    TruncateLog { index: u64 },
}

impl View for StorageOp {
    type V = StorageOpView;

    open spec fn view(&self) -> StorageOpView {
        match self {
            StorageOp::SaveTerm { term, voted_for } => StorageOpView::SaveTerm {
                term: *term,
                voted_for: *voted_for,
            },
            StorageOp::AppendLog { entries } => StorageOpView::AppendLog {
                entries: EntryView::all(entries@),
            },
            StorageOp::TruncateLog { index } => StorageOpView::TruncateLog { index: *index },
        }
    }
}

impl StorageOpView {
    /// The views of a sequence of operations.
    pub open spec fn all(ops: Seq<StorageOp>) -> Seq<StorageOpView> {
        ops.map_values(|op: StorageOp| op@)
    }
}

/// What only a leader keeps, as a mathematical value.
pub struct LeaderView<T> {
    /// For each follower, the index of the entry to send next.
    pub next_index: Map<NodeId, u64>,
    /// For each follower, the index up to which its log is known to agree.
    pub match_index: Map<NodeId, u64>,
    /// The requests that wait for their entry to be committed.
    pub pending_clients: Map<(ClientId, SeqNum), T>,
    /// The results of the requests that were carried out.
    pub client_results: Map<(ClientId, SeqNum), ResultView>,
    /// The last sequence number of each client, by the number of the client.
    pub last_seq_nums: Map<u64, SeqNum>,
    /// The id that was last given to a client.
    pub last_client_id: ClientId,
}

/// A node as a mathematical value.
pub struct NodeView<T> {
    pub config: Config,
    pub state: State,
    pub current_term: u64,
    pub voted_for: Option<NodeId>,
    pub log: LogView,
    pub commit_index: u64,
    pub last_applied: u64,
    pub leader: Option<LeaderView<T>>,
    pub current_leader: Option<NodeId>,
}

/// How a node takes the entries of a leader.
pub enum AppendVerdict {
    /// The leader is of an earlier term.
    Stale,
    /// The entries start inside the snapshot.
    Covered,
    /// The logs disagree at the index before the entries.
    Conflict,
    Accepted,
}

/// How a node takes the request of a client.
pub enum ClientVerdict {
    NotLeader,
    /// The result is still known.
    Cached,
    /// A request of the client with this number or a later one was carried out, and the
    /// result is no longer known.
    AlreadyDone,
    InProgress,
    Append,
}

pub open spec fn min_u64(a: u64, b: u64) -> u64 {
    if a <= b {
        a
    } else {
        b
    }
}

pub open spec fn max_u64(a: u64, b: u64) -> u64 {
    if a >= b {
        a
    } else {
        b
    }
}

/// How many followers hold the log up to `index`.
pub open spec fn replicas(match_index: Map<NodeId, u64>, index: int) -> nat {
    match_index.dom().filter(|p: NodeId| match_index[p] >= index).len()
}

impl<T> NodeView<T> {
    // ---- terms and votes ----

    /// The node as a follower in `term`, without a leader.  A vote that it gave in this
    /// term stays given.
    pub open spec fn step_down(self, term: u64) -> NodeView<T> {
        NodeView {
            current_term: term,
            state: State::Follower,
            voted_for: if term != self.current_term {
                None
            } else {
                self.voted_for
            },
            leader: None,
            current_leader: None,
            ..self
        }
    }

    /// The node after it has seen `term` in a request that is not stale.
    pub open spec fn observe_term(self, term: u64) -> NodeView<T> {
        if term > self.current_term {
            self.step_down(term)
        } else {
            self
        }
    }

    pub open spec fn observe_term_ops(self, term: u64) -> Seq<StorageOpView> {
        if term > self.current_term {
            seq![StorageOpView::SaveTerm { term, voted_for: None }]
        } else {
            Seq::empty()
        }
    }

    /// The node as a candidate in the next term, with its own vote.
    pub open spec fn start_election(self) -> NodeView<T> {
        NodeView {
            current_term: (self.current_term + 1) as u64,
            voted_for: Some(self.config.node_id),
            state: State::Candidate,
            ..self
        }
    }

    /// The request that asks the peers for their votes.
    pub open spec fn vote_request(self) -> RequestVoteRequest {
        RequestVoteRequest {
            term: self.current_term,
            candidate_id: self.config.node_id,
            last_log_term: self.log.last_term(),
            last_log_index: self.log.last_index(),
        }
    }

    /// A log that ends in this term and index is at least as recent as that of the node.
    pub open spec fn is_up_to_date(self, last_log_term: u64, last_log_index: u64) -> bool {
        ||| last_log_term > self.log.last_term()
        ||| last_log_term == self.log.last_term() && last_log_index >= self.log.last_index()
    }

    /// The node gives its vote to the sender of `req`.
    pub open spec fn grants_vote(self, req: RequestVoteRequest) -> bool {
        &&& req.term >= self.current_term
        &&& {
            ||| req.term > self.current_term
            ||| self.voted_for is None
            ||| self.voted_for == Some(req.candidate_id)
        }
        &&& self.is_up_to_date(req.last_log_term, req.last_log_index)
    }

    pub open spec fn after_vote_request(self, req: RequestVoteRequest) -> NodeView<T> {
        if self.grants_vote(req) {
            NodeView { voted_for: Some(req.candidate_id), ..self.observe_term(req.term) }
        } else {
            self.observe_term(req.term)
        }
    }

    pub open spec fn vote_response(self, req: RequestVoteRequest) -> RequestVoteResponse {
        RequestVoteResponse {
            term: max_u64(self.current_term, req.term),
            vote_granted: self.grants_vote(req),
        }
    }

    pub open spec fn vote_ops(self, req: RequestVoteRequest) -> Seq<StorageOpView> {
        if self.grants_vote(req) {
            self.observe_term_ops(req.term).push(
                StorageOpView::SaveTerm {
                    term: req.term,
                    voted_for: Some(req.candidate_id),
                },
            )
        } else {
            self.observe_term_ops(req.term)
        }
    }

    /// The node as a leader that knows nothing yet of its followers.  It gives out no id
    /// that an entry of its log has or has had: no two clients may have the same id, and
    /// what this log has dropped another one may have.
    pub open spec fn become_leader(
        self,
        last_client_id: ClientId,
        last_seq_nums: Map<u64, SeqNum>,
    ) -> NodeView<T> {
        let peers = self.config.peers@.to_set();
        NodeView {
            state: State::Leader,
            current_leader: Some(self.config.node_id),
            leader: Some(
                LeaderView {
                    next_index: Map::new(
                        |p: NodeId| peers.contains(p),
                        |p: NodeId| (self.log.last_index() + 1) as u64,
                    ),
                    match_index: Map::new(|p: NodeId| peers.contains(p), |p: NodeId| 0u64),
                    pending_clients: Map::empty(),
                    client_results: Map::empty(),
                    last_seq_nums,
                    last_client_id: ClientId(
                        max_u64(last_client_id.0, self.log.highest_client_id()),
                    ),
                },
            ),
            ..self
        }
    }

    // ---- entries from a leader ----

    /// The term that the node has for `index`, zero where it has no entry.
    pub open spec fn term_at(self, index: u64) -> u64 {
        if index == self.log.snapshot_index {
            self.log.snapshot_term
        } else {
            match self.log.entry_at(index as int) {
                Some(e) => e.term,
                None => 0,
            }
        }
    }

    pub open spec fn append_verdict(self, req: AppendEntriesView) -> AppendVerdict {
        if req.term < self.current_term {
            AppendVerdict::Stale
        } else if req.prev_log_index < self.log.snapshot_index {
            AppendVerdict::Covered
        } else if req.prev_log_index > 0 && self.term_at(req.prev_log_index) != req.prev_log_term {
            AppendVerdict::Conflict
        } else {
            AppendVerdict::Accepted
        }
    }

    /// The log with the entries of `req` in the place of what follows `prev_log_index`.
    pub open spec fn log_after_append(self, req: AppendEntriesView) -> LogView {
        if self.append_verdict(req) is Accepted && req.entries.len() > 0 {
            self.log.truncate_from((req.prev_log_index + 1) as u64).append(req.entries)
        } else {
            self.log
        }
    }

    pub open spec fn after_append_entries(self, req: AppendEntriesView) -> NodeView<T> {
        let following = NodeView {
            current_leader: Some(req.leader_id),
            ..self.observe_term(req.term)
        };
        match self.append_verdict(req) {
            AppendVerdict::Stale => self,
            AppendVerdict::Covered => following,
            AppendVerdict::Conflict => following,
            AppendVerdict::Accepted => {
                let log = self.log_after_append(req);
                NodeView {
                    log,
                    commit_index: if req.leader_commit > self.commit_index {
                        min_u64(req.leader_commit, log.last_index())
                    } else {
                        self.commit_index
                    },
                    ..following
                }
            },
        }
    }

    /// With `req` the node learns that more is committed than it knew.  Then, and only
    /// then, it applies what is committed.
    pub open spec fn commits_on(self, req: AppendEntriesView) -> bool {
        self.append_verdict(req) is Accepted && req.leader_commit > self.commit_index
    }

    pub open spec fn append_response(self, req: AppendEntriesView) -> AppendEntriesResponse {
        let verdict = self.append_verdict(req);
        AppendEntriesResponse {
            term: max_u64(self.current_term, req.term),
            success: verdict is Covered || verdict is Accepted,
            conflict_index: if verdict is Conflict {
                req.prev_log_index
            } else {
                0
            },
            last_log_index: self.log_after_append(req).last_index(),
        }
    }

    pub open spec fn append_ops(self, req: AppendEntriesView) -> Seq<StorageOpView> {
        let log = self.log_after_append(req);
        if self.append_verdict(req) is Accepted && req.entries.len() > 0 {
            self.observe_term_ops(req.term).push(
                StorageOpView::AppendLog {
                    entries: log.range(
                        (req.prev_log_index + 1) as u64,
                        (log.last_index() + 1) as u64,
                    ),
                },
            )
        } else {
            self.observe_term_ops(req.term)
        }
    }

    /// The indices that `req` brings in are ones that the log can count with.
    pub open spec fn append_defined(self, req: AppendEntriesView) -> bool {
        self.append_verdict(req) is Accepted && req.entries.len() > 0 ==> {
            &&& req.prev_log_index < u64::MAX
            &&& req.entries.last().index < u64::MAX
        }
    }

    // ---- snapshots from a leader ----

    /// The node before a snapshot that is not stale is installed.
    pub open spec fn before_snapshot(self, req: InstallSnapshotView) -> NodeView<T> {
        NodeView { current_leader: Some(req.leader_id), ..self.observe_term(req.term) }
    }

    /// The node once the snapshot is restored and saved.
    pub open spec fn after_snapshot(self, req: InstallSnapshotView) -> NodeView<T> {
        NodeView {
            log: self.log.compact(req.last_included_index, req.last_included_term),
            commit_index: max_u64(self.commit_index, req.last_included_index),
            last_applied: max_u64(self.last_applied, req.last_included_index),
            current_leader: Some(req.leader_id),
            ..self
        }
    }

    pub open spec fn after_compaction(self, index: u64, term: u64) -> NodeView<T> {
        NodeView { log: self.log.compact(index, term), ..self }
    }

    // ---- replication ----

    /// The leader may commit up to `index`: the entry is of its own term and a
    /// majority, itself counted, holds it.
    pub open spec fn committable(self, index: int) -> bool {
        &&& self.log.entry_at(index) matches Some(e) && e.term == self.current_term
        &&& replicas(self.leader->0.match_index, index) + 1 >= self.config.majority_view()
    }

    /// The highest index up to `from` that the leader may commit, or what is
    /// committed already.
    pub open spec fn highest_committable(self, from: int) -> int
        decreases from - self.commit_index,
    {
        if from <= self.commit_index {
            self.commit_index as int
        } else if self.committable(from) {
            from
        } else {
            self.highest_committable(from - 1)
        }
    }

    /// What [`NodeView::highest_committable`] finds: nothing below what is committed,
    /// nothing above `from`, and nothing that could be committed is higher.
    pub proof fn lemma_highest_committable(self, from: int)
        ensures
            self.highest_committable(from) >= self.commit_index,
            from >= self.commit_index ==> self.highest_committable(from) <= from,
            self.highest_committable(from) > self.commit_index ==> self.committable(
                self.highest_committable(from),
            ),
            forall|i: int|
                self.highest_committable(from) < i <= from ==> !#[trigger] self.committable(i),
        decreases from - self.commit_index,
    {
        if from > self.commit_index && !self.committable(from) {
            self.lemma_highest_committable(from - 1);
        }
    }

    /// Looking for the highest committable index meets no missing entry.
    pub open spec fn commit_scan_defined(self) -> bool {
        &&& self.commit_index < u64::MAX
        &&& forall|i: int|
            self.commit_index < i <= self.log.last_index() && self.highest_committable(
                self.log.last_index() as int,
            ) <= i ==> (#[trigger] self.log.entry_at(i)) is Some
    }

    /// The index that `follower` was told to send next, or one where nothing is known.
    pub open spec fn next_for(self, follower: NodeId) -> u64 {
        let next = self.leader->0.next_index;
        if next.contains_key(follower) {
            next[follower]
        } else {
            1
        }
    }

    pub open spec fn match_for(self, follower: NodeId) -> u64 {
        let known = self.leader->0.match_index;
        if known.contains_key(follower) {
            known[follower]
        } else {
            0
        }
    }

    pub open spec fn with_next(self, follower: NodeId, next: u64) -> NodeView<T> {
        NodeView {
            leader: Some(
                LeaderView {
                    next_index: self.leader->0.next_index.insert(follower, next),
                    ..self.leader->0
                },
            ),
            ..self
        }
    }

    /// The leader once it knows that `follower` agrees up to `index`.
    pub open spec fn with_match(self, follower: NodeId, index: u64) -> NodeView<T> {
        let known = max_u64(self.match_for(follower), index);
        NodeView {
            leader: Some(
                LeaderView {
                    match_index: self.leader->0.match_index.insert(follower, known),
                    next_index: self.leader->0.next_index.insert(follower, (known + 1) as u64),
                    ..self.leader->0
                },
            ),
            ..self
        }
    }

    /// Where to go on after `follower` refused entries up to `match_target`.
    /// An answer to an old request changes nothing.
    pub open spec fn next_after_refusal(
        self,
        follower: NodeId,
        conflict_index: u64,
        match_target: u64,
    ) -> u64 {
        let next = self.next_for(follower);
        if next > match_target {
            next
        } else if 0 < conflict_index < next {
            conflict_index
        } else if next > 1 {
            (next - 1) as u64
        } else {
            1
        }
    }

    pub open spec fn with_commit(self, commit_index: u64) -> NodeView<T> {
        NodeView { commit_index, ..self }
    }

    // ---- messages to followers ----

    /// The index of the first entry to send to `follower`.
    pub open spec fn send_from(self, follower: NodeId) -> u64 {
        let next = self.leader->0.next_index;
        if next.contains_key(follower) {
            next[follower]
        } else {
            (self.log.last_index() + 1) as u64
        }
    }

    pub open spec fn send_after(self, follower: NodeId) -> u64 {
        let next = self.send_from(follower);
        if next > 0 {
            (next - 1) as u64
        } else {
            0
        }
    }

    pub open spec fn entries_for(self, follower: NodeId) -> Seq<EntryView> {
        let next = self.send_from(follower);
        if next <= self.log.last_index() {
            self.log.range(next, (self.log.last_index() + 1) as u64)
        } else {
            Seq::empty()
        }
    }

    /// What the leader sends to `follower`: the entries from its next index on, or
    /// the snapshot where the log does not reach back that far.
    pub open spec fn message_for(self, follower: NodeId) -> FollowerMessageView {
        let prev = self.send_after(follower);
        let entries = self.entries_for(follower);
        if prev < self.log.snapshot_index {
            FollowerMessageView::InstallSnapshot {
                offer: SnapshotOffer {
                    term: self.current_term,
                    leader_id: self.config.node_id,
                    last_included_index: self.log.snapshot_index,
                    last_included_term: self.log.snapshot_term,
                },
            }
        } else {
            FollowerMessageView::AppendEntries {
                request: AppendEntriesView {
                    term: self.current_term,
                    leader_id: self.config.node_id,
                    prev_log_index: prev,
                    prev_log_term: if prev == 0 {
                        0
                    } else if prev == self.log.snapshot_index {
                        self.log.snapshot_term
                    } else {
                        (self.log.entry_at(prev as int)->0).term
                    },
                    entries,
                    leader_commit: self.commit_index,
                },
                match_target: (prev + entries.len()) as u64,
            }
        }
    }

    /// The node leads, and its log has the entry before the first one to send.
    pub open spec fn message_defined(self, follower: NodeId) -> bool {
        let prev = self.send_after(follower);
        &&& self.leader is Some
        &&& self.log.last_index() < u64::MAX
        &&& prev >= self.log.snapshot_index ==> {
            &&& prev == 0 || prev == self.log.snapshot_index || self.log.entry_at(
                prev as int,
            ) is Some
            &&& prev + self.entries_for(follower).len() <= u64::MAX
        }
    }

    // ---- requests of clients ----

    /// The node without the results that the client has received.
    pub open spec fn forget_received(self, client: ClientId, up_to: SeqNum) -> NodeView<T> {
        match self.leader {
            Some(leader) => NodeView {
                leader: Some(
                    LeaderView {
                        client_results: leader.client_results.remove_keys(
                            client.requests_up_to(up_to),
                        ),
                        ..leader
                    },
                ),
                ..self
            },
            None => self,
        }
    }

    pub open spec fn client_verdict(self, req: ClientRequestView<T>) -> ClientVerdict {
        let key = (req.client_id, req.seq_num);
        match self.forget_received(req.client_id, req.last_received_seq).leader {
            None => ClientVerdict::NotLeader,
            Some(leader) => if leader.client_results.contains_key(key) {
                ClientVerdict::Cached
            } else if leader.last_seq_nums.contains_key(req.client_id.0) && req.seq_num.0
                <= leader.last_seq_nums[req.client_id.0].0 {
                ClientVerdict::AlreadyDone
            } else if leader.pending_clients.contains_key(key) {
                ClientVerdict::InProgress
            } else {
                ClientVerdict::Append
            },
        }
    }

    /// The answer to a client by a node that does not lead.
    pub open spec fn redirect(self, unknown: Seq<char>) -> ResultView {
        match self.current_leader {
            Some(id) => ResultView::Redirect(id),
            None => ResultView::Error(unknown),
        }
    }

    /// The answer to a request that appends nothing.
    pub open spec fn client_answer(self, req: ClientRequestView<T>) -> ResultView {
        match self.client_verdict(req) {
            ClientVerdict::NotLeader => self.redirect("Node is not a leader"@),
            ClientVerdict::Cached => self.leader->0.client_results[(req.client_id, req.seq_num)],
            ClientVerdict::AlreadyDone => ResultView::Success(Seq::empty()),
            ClientVerdict::InProgress => ResultView::Error(
                "Duplicate request is already in progress"@,
            ),
            ClientVerdict::Append => ResultView::Success(Seq::empty()),
        }
    }

    /// The client and the number under which the request is entered in the log.
    /// A registration gets the next id.
    pub open spec fn target(self, req: ClientRequestView<T>) -> (ClientId, SeqNum) {
        match req.command {
            CommandView::RegisterClient => (
                ClientId((self.leader->0.last_client_id.0 + 1) as u64),
                SeqNum(0),
            ),
            CommandView::ClientCommand(_) => (req.client_id, req.seq_num),
        }
    }

    pub open spec fn entry_for(self, req: ClientRequestView<T>) -> EntryView {
        EntryView {
            term: self.current_term,
            index: (self.log.last_index() + 1) as u64,
            command: req.command,
            client_id: self.target(req).0,
            seq_num: self.target(req).1,
        }
    }

    pub open spec fn after_client_request(self, req: ClientRequestView<T>) -> NodeView<T> {
        let node = self.forget_received(req.client_id, req.last_received_seq);
        if self.client_verdict(req) is Append {
            let leader = node.leader->0;
            let target = self.target(req);
            let registers = req.command is RegisterClient;
            NodeView {
                log: self.log.append(seq![self.entry_for(req)]),
                leader: Some(
                    LeaderView {
                        pending_clients: leader.pending_clients.insert(target, req.response_tx),
                        last_client_id: if registers {
                            target.0
                        } else {
                            leader.last_client_id
                        },
                        last_seq_nums: if registers {
                            leader.last_seq_nums.insert(target.0.0, target.1)
                        } else {
                            leader.last_seq_nums
                        },
                        ..leader
                    },
                ),
                ..node
            }
        } else {
            node
        }
    }

    /// There is an index left for the entry, and an id for a new client.
    pub open spec fn client_request_defined(self, req: ClientRequestView<T>) -> bool {
        self.client_verdict(req) is Append ==> {
            &&& self.log.last_index() < u64::MAX
            &&& req.command is RegisterClient ==> self.leader->0.last_client_id.0 < u64::MAX
        }
    }

    /// The index and term of the snapshot that is due, if one is.
    pub open spec fn snapshot_due(self) -> Option<(u64, u64)> {
        match self.log.entry_at(self.last_applied as int) {
            Some(e) => if self.last_applied - self.log.snapshot_index
                >= self.config.snapshot_threshold {
                Some((e.index, e.term))
            } else {
                None
            },
            None => None,
        }
    }
}

impl<T> LeaderView<T> {
    /// The leader once the result of an applied entry is known.
    pub open spec fn record(self, e: EntryView, result: ResultView) -> LeaderView<T> {
        let key = (e.client_id, e.seq_num);
        LeaderView {
            client_results: self.client_results.insert(key, result),
            last_seq_nums: if e.client_id.0 > 0 {
                self.last_seq_nums.insert(e.client_id.0, e.seq_num)
            } else {
                self.last_seq_nums
            },
            pending_clients: self.pending_clients.remove(key),
            ..self
        }
    }

    /// Who waits for the result of an applied entry.
    pub open spec fn waiting_for(self, e: EntryView) -> Option<T> {
        let key = (e.client_id, e.seq_num);
        if self.pending_clients.contains_key(key) {
            Some(self.pending_clients[key])
        } else {
            None
        }
    }

    /// The leader once the results of several applied entries are known.
    pub open spec fn record_all(
        self,
        entries: Seq<EntryView>,
        results: Seq<ResultView>,
    ) -> LeaderView<T>
        decreases entries.len(),
    {
        if entries.len() == 0 {
            self
        } else {
            self.record_all(entries.drop_last(), results.drop_last()).record(
                entries.last(),
                results.last(),
            )
        }
    }

    /// The answers that go out while several entries are applied, in order.
    pub open spec fn answers(self, entries: Seq<EntryView>, results: Seq<ResultView>) -> Seq<
        (T, ResultView),
    >
        decreases entries.len(),
    {
        if entries.len() == 0 {
            Seq::empty()
        } else {
            let before = self.answers(entries.drop_last(), results.drop_last());
            match self.record_all(entries.drop_last(), results.drop_last()).waiting_for(
                entries.last(),
            ) {
                Some(to) => before.push((to, results.last())),
                None => before,
            }
        }
    }
}

/// What a node needs to know to send its snapshot.
#[derive(Debug, Clone, Copy, PartialEq, Eq, Structural)]
pub struct SnapshotOffer {
    pub term: u64,
    pub leader_id: NodeId,
    pub last_included_index: u64,
    pub last_included_term: u64,
}

/// What a leader sends to a follower.
#[derive(Debug)]
pub enum FollowerMessage {
    /// Once it is accepted, the follower agrees up to `match_target`.
    AppendEntries { request: AppendEntriesRequest, match_target: u64 },
    /// The snapshot has to be loaded first.
    InstallSnapshot { offer: SnapshotOffer },
}

/// A [`FollowerMessage`] as a mathematical value.
pub enum FollowerMessageView {
    AppendEntries { request: AppendEntriesView, match_target: u64 },
    InstallSnapshot { offer: SnapshotOffer },
}

impl View for FollowerMessage {
    type V = FollowerMessageView;

    open spec fn view(&self) -> FollowerMessageView {
        match self {
            FollowerMessage::AppendEntries { request, match_target } => {
                FollowerMessageView::AppendEntries {
                    request: request@,
                    match_target: *match_target,
                }
            },
            FollowerMessage::InstallSnapshot { offer } => FollowerMessageView::InstallSnapshot {
                offer: *offer,
            },
        }
    }
}

} // verus!
