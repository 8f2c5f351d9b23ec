//! Why what is committed stays committed, and is the same on every node.

use crate::cluster::{Ack, ClusterStep, ClusterView, Grant};
use crate::events::EventView;
use crate::history::Move;
use crate::log::{EntryView, LogView};
use crate::messages::{AppendEntriesView, InstallSnapshotView, RequestVoteRequest};
use crate::model::{NodeView, SnapshotOffer};
use crate::types::{Config, NodeId};
use vstd::prelude::*;

verus! {

/// Both logs have every index up to `n`, with the same entries.
pub open spec fn agree(a: Map<int, EntryView>, b: Map<int, EntryView>, n: int) -> bool {
    forall|i: int|
        0 < i <= n ==> #[trigger] a.contains_key(i) && b.contains_key(i) && a[i] == b[i]
}

/// The terms of the entries never go down.
pub open spec fn ascending(history: Map<int, EntryView>) -> bool {
    forall|i: int, j: int|
        #![trigger history.contains_key(i), history.contains_key(j)]
        history.contains_key(i) && history.contains_key(j) && i <= j ==> history[i].term
            <= history[j].term
}

pub open spec fn terms_up_to(history: Map<int, EntryView>, term: u64) -> bool {
    forall|i: int| #[trigger] history.contains_key(i) ==> history[i].term <= term
}

/// For every entry of `b` there is one in `a` of a later term, or of the same term and at
/// the same index or after it.
pub open spec fn as_recent(a: Map<int, EntryView>, b: Map<int, EntryView>) -> bool {
    forall|i: int| #[trigger] b.contains_key(i) ==> has_as_recent(a, i, b[i].term)
}

pub open spec fn has_as_recent(a: Map<int, EntryView>, i: int, term: u64) -> bool {
    exists|j: int| #[trigger]
        a.contains_key(j) && (a[j].term > term || a[j].term == term && j >= i)
}

impl<T> ClusterView<T> {
    /// The leader of `term` has entered the entry at `index` itself.
    pub open spec fn own_entry(self, term: u64, index: int) -> bool {
        &&& self.term_logs.contains_key(term)
        &&& self.term_logs[term].contains_key(index)
        &&& self.term_logs[term][index].term == term
    }

    /// The node led in `term` with the log up to `index`, or has told the leader that it
    /// holds it.
    pub open spec fn has_held(self, term: u64, node: NodeId, index: int) -> bool {
        ||| self.leaders.contains_key((term, node)) && self.term_logs[term].contains_key(index)
        ||| exists|k: u64| #[trigger]
            self.acks.contains(Ack { term, follower: node, index: k }) && index <= k
    }

    /// None of those who made `later` have a leader has held the entry.  So it cannot be
    /// held by a majority any more.
    pub open spec fn ruled_out_by(self, term: u64, index: int, later: u64) -> bool {
        exists|l: NodeId| #[trigger]
            self.leaders.contains_key((later, l)) && forall|v: NodeId|
                v == l || self.leaders[(later, l)].contains(v) ==> !(#[trigger] self.has_held(
                    term,
                    v,
                    index,
                ))
    }

    pub open spec fn ruled_out(self, term: u64, index: int, up_to: u64) -> bool {
        exists|later: u64| term < later <= up_to && #[trigger] self.ruled_out_by(term, index, later)
    }

    /// The nodes that have held the log of `term` up to `index`.
    pub open spec fn holders(self, term: u64, index: int) -> Set<NodeId> {
        self.nodes.dom().filter(|v: NodeId| self.has_held(term, v, index))
    }

    /// A majority has held the entry, which is of the term itself: it is decided.
    pub open spec fn chosen(self, term: u64, index: int) -> bool {
        &&& self.own_entry(term, index)
        &&& self.holders(term, index).len() >= Config::majority_of(
            (self.nodes.dom().len() - 1) as nat,
        )
    }

    /// The log is decided up to `n`, by a leader of `term` or before.
    pub open spec fn decided(self, history: Map<int, EntryView>, n: int, term: u64) -> bool {
        n <= 0 || exists|t: u64, i: int| #[trigger]
            self.chosen(t, i) && t <= term && n <= i && agree(history, self.term_logs[t], n)
    }
}

// ---- what holds of a safe cluster ----

impl<T> ClusterView<T> {
    pub open spec fn terms_hold(self) -> bool {
        &&& forall|i: NodeId| #[trigger]
            self.nodes.contains_key(i) ==> ascending(self.histories[i]) && terms_up_to(
                self.histories[i],
                self.nodes[i].current_term,
            )
        &&& forall|t: u64| #[trigger]
            self.term_logs.contains_key(t) ==> ascending(self.term_logs[t]) && terms_up_to(
                self.term_logs[t],
                t,
            )
    }

    /// Who reports success has the entries, unless they were ruled out since.
    pub open spec fn acks_hold(self) -> bool {
        &&& forall|a: Ack| #[trigger]
            self.acks.contains(a) ==> {
                &&& self.nodes.contains_key(a.follower)
                &&& self.nodes[a.follower].current_term >= a.term
                &&& self.term_logs.contains_key(a.term)
                &&& a.index > 0 ==> self.term_logs[a.term].contains_key(a.index as int)
                &&& !self.leaders.contains_key((a.term, a.follower))
            }
        &&& forall|v: NodeId, t: u64, i: int|
            self.nodes.contains_key(v) && self.own_entry(t, i) && #[trigger] self.has_held(t, v, i)
                ==> agree(self.histories[v], self.term_logs[t], i) || self.ruled_out(
                t,
                i,
                self.nodes[v].current_term,
            )
    }

    /// A leader has the entries of those before it, unless they were ruled out.
    pub open spec fn leaders_hold(self) -> bool {
        &&& forall|u: u64, t: u64, i: int|
            #![trigger self.term_logs.contains_key(u), self.own_entry(t, i)]
            self.term_logs.contains_key(u) && t < u && self.own_entry(t, i) ==> agree(
                self.term_logs[u],
                self.term_logs[t],
                i,
            ) || self.ruled_out(t, i, u)
        &&& forall|l: (u64, NodeId)| #[trigger]
            self.leaders.contains_key(l) ==> self.term_logs.contains_key(l.0)
    }

    /// A request for votes tells the end of the log of the candidate.
    pub open spec fn requests_hold(self) -> bool {
        forall|req: RequestVoteRequest| #[trigger]
            self.requests.contains(req) ==> {
                let candidate = self.nodes[req.candidate_id];
                &&& self.nodes.contains_key(req.candidate_id)
                &&& candidate.current_term >= req.term
                &&& candidate.current_term == req.term && candidate.state is Candidate ==> {
                    &&& req.last_log_index == candidate.log.last_index()
                    &&& req.last_log_term == candidate.log.last_term()
                }
            }
    }

    /// The log of a voter, when it voted, had what it had reported, and was no more recent
    /// than that of the candidate.
    pub open spec fn votes_hold(self) -> bool {
        forall|g: Grant| #[trigger]
            self.grants.contains(g) && g.voter != g.candidate ==> self.vote_holds(g)
    }

    pub open spec fn vote_holds(self, g: Grant) -> bool {
        let log = self.vote_logs[(g.term, g.voter)];
        let candidate = self.nodes[g.candidate];
        &&& self.nodes.contains_key(g.candidate)
        &&& candidate.current_term >= g.term
        &&& candidate.current_term == g.term && candidate.state is Candidate ==> as_recent(
            self.histories[g.candidate],
            log,
        )
        &&& forall|t: u64, i: int|
            t < g.term && self.own_entry(t, i) && #[trigger] self.has_held(t, g.voter, i) ==> agree(
                log,
                self.term_logs[t],
                i,
            ) || self.ruled_out(t, i, g.term)
    }

    /// A request with entries comes from the leader of its term and reaches the end of its
    /// log; what the leader says is committed is decided.
    pub open spec fn sent_hold(self) -> bool {
        &&& forall|req: AppendEntriesView| #[trigger]
            self.sent.contains(req) ==> {
                let log = self.term_logs[req.term];
                &&& self.leaders.contains_key((req.term, req.leader_id))
                &&& forall|i: int| #[trigger]
                    log.contains_key(i) && i > req.prev_log_index + req.entries.len() ==> log[i].term
                        == req.term
                &&& req.leader_commit <= req.prev_log_index + req.entries.len()
                &&& self.decided(log, req.leader_commit as int, req.term)
            }
        &&& forall|offer: SnapshotOffer| #[trigger]
            self.offers.contains(offer) ==> {
                let log = self.term_logs[offer.term];
                &&& self.leaders.contains_key((offer.term, offer.leader_id))
                &&& log.contains_key(offer.last_included_index as int)
                &&& log[offer.last_included_index as int].term == offer.last_included_term
                &&& self.decided(log, offer.last_included_index as int, offer.term)
            }
    }

    /// What a node has committed is decided, and in its log.
    pub open spec fn commits_hold(self) -> bool {
        forall|i: NodeId| #[trigger]
            self.nodes.contains_key(i) ==> {
                let node = self.nodes[i];
                &&& node.log.snapshot_index <= node.commit_index <= node.log.last_index()
                &&& self.decided(self.histories[i], node.commit_index as int, node.current_term)
            }
    }

    /// What a leader knows of its followers they have reported.
    pub open spec fn matches_hold(self) -> bool {
        forall|i: NodeId| #[trigger]
            self.nodes.contains_key(i) && self.nodes[i].state is Leader ==> self.matches_of(i)
    }

    pub open spec fn matches_of(self, i: NodeId) -> bool {
        &&& self.nodes[i].leader is Some
        &&& forall|f: NodeId| #[trigger]
            self.nodes[i].leader->0.next_index.contains_key(f)
                ==> self.nodes[i].leader->0.next_index[f] >= 1
        &&& self.nodes[i].leader->0.match_index.dom().finite()
        &&& forall|f: NodeId| #[trigger]
            self.nodes[i].leader->0.match_index.contains_key(f)
                && self.nodes[i].leader->0.match_index[f] > 0 ==> self.acks.contains(
                Ack {
                    term: self.nodes[i].current_term,
                    follower: f,
                    index: self.nodes[i].leader->0.match_index[f],
                },
            )
    }

    pub open spec fn safe(self) -> bool {
        &&& self.logs_in_order()
        &&& self.terms_hold()
        &&& self.acks_hold()
        &&& self.leaders_hold()
        &&& self.requests_hold()
        &&& self.votes_hold()
        &&& self.sent_hold()
        &&& self.commits_hold()
        &&& self.matches_hold()
    }

    /// The step is not one of those by which a committed entry can get lost:
    ///
    /// - a node takes a request of a leader after a later one of the same leader, and so
    ///   drops entries that it has reported;
    /// - a node reports success for entries that start inside its snapshot and go beyond;
    /// - a leader counts an answer from an earlier term;
    /// - a node takes a snapshot that ends inside its log with an entry of another term than
    ///   its own, or one of its own that goes beyond what it has committed.
    pub open spec fn sound(self, step: ClusterStep<T>) -> bool {
        &&& self.snapshot_fits(step)
        &&& match step {
            ClusterStep::Act { node, m } => self.sound_move(node, m),
            ClusterStep::Restart { node, index, .. } => {
                let n = self.nodes[node];
                index == n.log.snapshot_index || index <= n.commit_index
            },
            _ => true,
        }
    }

    pub open spec fn sound_move(self, node: NodeId, m: Move<T>) -> bool {
        let n = self.nodes[node];
        match m {
            Move::Event { event: EventView::AppendEntriesReceived(req), .. } => {
                let end = req.prev_log_index + req.entries.len();
                n.state is Leader || match n.append_verdict(req) {
                    crate::model::AppendVerdict::Accepted => req.entries.len() == 0 || !(
                    n.log.last_term() == req.term && n.log.last_index() > end),
                    crate::model::AppendVerdict::Covered => end <= n.log.snapshot_index,
                    _ => true,
                }
            },
            Move::Event { event: EventView::AppendEntriesResponse(resp, f, index), .. } => {
                n.state is Leader && resp.success && resp.term <= n.current_term
                    ==> self.acks.contains(Ack { term: n.current_term, follower: f, index })
            },
            Move::Event {
                event: EventView::InstallSnapshotResponseReceived(resp, f, index),
                ..
            } => {
                n.state is Leader && resp.success && resp.term <= n.current_term
                    ==> self.acks.contains(Ack { term: n.current_term, follower: f, index })
            },
            Move::Event { event: EventView::SnapshotCompleted(index, _), .. } => {
                n.state is Follower || index <= n.commit_index
            },
            _ => true,
        }
    }
}

// ---- decided entries ----

impl<T> ClusterView<T> {
    /// What is decided is not ruled out.
    pub(crate) proof fn lemma_chosen_not_ruled_out(self, t: u64, i: int, up_to: u64)
        requires
            self.votes_in_order(),
            self.chosen(t, i),
        ensures
            !self.ruled_out(t, i, up_to),
    {
        if self.ruled_out(t, i, up_to) {
            let later = choose|later: u64|
                t < later <= up_to && #[trigger] self.ruled_out_by(t, i, later);
            let l = choose|l: NodeId| #[trigger]
                self.leaders.contains_key((later, l)) && forall|v: NodeId|
                    v == l || self.leaders[(later, l)].contains(v) ==> !(#[trigger] self.has_held(
                        t,
                        v,
                        i,
                    ));
            let voters = self.leaders[(later, l)];
            let holders = self.holders(t, i);
            let members = self.nodes.dom();
            assert(self.is_backed((later, l)));
            assert(self.nodes.contains_key(l));
            vstd::set_lib::lemma_len_subset(voters, members);
            vstd::set_lib::lemma_len_subset(holders, members);
            crate::quorum::majorities_meet(members, holders, voters.insert(l));
            let both = choose|node: NodeId| #[trigger]
                holders.contains(node) && voters.insert(l).contains(node);
            assert(self.has_held(t, both, i));
        }
    }

    /// Every later leader has what is decided.
    pub(crate) proof fn lemma_leader_has_decided(
        self,
        history: Map<int, EntryView>,
        n: int,
        term: u64,
        u: u64,
    )
        requires
            self.votes_in_order(),
            self.leaders_hold(),
            self.decided(history, n, term),
            self.term_logs.contains_key(u),
            term <= u,
        ensures
            agree(history, self.term_logs[u], n),
            self.decided(self.term_logs[u], n, u),
    {
        if n > 0 {
            let (t, i) = choose|t: u64, i: int| #[trigger]
                self.chosen(t, i) && t <= term && n <= i && agree(history, self.term_logs[t], n);
            if t < u {
                self.lemma_chosen_not_ruled_out(t, i, u);
                assert(self.own_entry(t, i));
                assert(agree(self.term_logs[u], self.term_logs[t], i));
                assert forall|k: int| 0 < k <= n implies #[trigger] history.contains_key(k)
                    && self.term_logs[u].contains_key(k) && history[k] == self.term_logs[u][k] by {
                    assert(self.term_logs[u].contains_key(k));
                }
            }
            assert forall|k: int| 0 < k <= n implies #[trigger] self.term_logs[u].contains_key(k)
                && self.term_logs[t].contains_key(k) && self.term_logs[u][k]
                == self.term_logs[t][k] by {
                assert(history.contains_key(k));
            }
            assert(agree(self.term_logs[u], self.term_logs[t], n));
        }
    }
}

// ---- what stays ----

impl<T> ClusterView<T> {
    /// Nothing of the record is lost on the way to `after`, terms have not gone back, and
    /// only nodes that had not gone beyond a term have reported to its leader.
    pub open spec fn leads_to(self, after: ClusterView<T>) -> bool {
        &&& after.nodes.dom() == self.nodes.dom()
        &&& forall|v: NodeId| #[trigger]
            self.nodes.contains_key(v) ==> after.nodes[v].current_term
                >= self.nodes[v].current_term
        &&& crate::matching::extends(self.term_logs, after.term_logs)
        &&& forall|l: (u64, NodeId)| #[trigger]
            self.leaders.contains_key(l) ==> after.leaders.contains_key(l) && after.leaders[l]
                == self.leaders[l]
        &&& forall|l: (u64, NodeId)| #[trigger]
            after.leaders.contains_key(l) ==> self.leaders.contains_key(l)
                || !self.term_logs.contains_key(l.0)
        &&& forall|a: Ack| #[trigger] self.acks.contains(a) ==> after.acks.contains(a)
        &&& forall|a: Ack| #[trigger]
            after.acks.contains(a) ==> self.acks.contains(a) || self.nodes[a.follower].current_term
                <= a.term
    }

    proof fn lemma_own_entry_stays(self, after: ClusterView<T>, t: u64, i: int)
        requires
            self.leads_to(after),
            self.own_entry(t, i),
        ensures
            after.own_entry(t, i),
            forall|k: int| #[trigger]
                self.term_logs[t].contains_key(k) ==> after.term_logs[t].contains_key(k)
                    && after.term_logs[t][k] == self.term_logs[t][k],
    {
        assert(self.term_logs[t].contains_key(i));
    }

    proof fn lemma_held_stays(self, after: ClusterView<T>, t: u64, v: NodeId, i: int)
        requires
            self.leads_to(after),
            self.leaders_hold(),
            self.has_held(t, v, i),
        ensures
            after.has_held(t, v, i),
    {
        if self.leaders.contains_key((t, v)) && self.term_logs[t].contains_key(i) {
            assert(self.term_logs.contains_key(t));
            assert(after.leaders.contains_key((t, v)));
        } else {
            let k = choose|k: u64| #[trigger]
                self.acks.contains(Ack { term: t, follower: v, index: k }) && i <= k;
            assert(after.acks.contains(Ack { term: t, follower: v, index: k }));
        }
    }

    /// A node that has gone beyond a term holds nothing new of it.
    proof fn lemma_held_before(self, after: ClusterView<T>, t: u64, v: NodeId, i: int)
        requires
            self.leads_to(after),
            self.own_entry(t, i),
            self.nodes[v].current_term > t,
            after.has_held(t, v, i),
        ensures
            self.has_held(t, v, i),
    {
        if after.leaders.contains_key((t, v)) && after.term_logs[t].contains_key(i) {
            assert(self.leaders.contains_key((t, v)));
        } else {
            let k = choose|k: u64| #[trigger]
                after.acks.contains(Ack { term: t, follower: v, index: k }) && i <= k;
            assert(self.acks.contains(Ack { term: t, follower: v, index: k }));
        }
    }

    /// Those who made a leader are in its term or beyond.
    proof fn lemma_voters_are_beyond(self, u: u64, l: NodeId, v: NodeId)
        requires
            self.votes_in_order(),
            self.leaders.contains_key((u, l)),
            v == l || self.leaders[(u, l)].contains(v),
        ensures
            self.nodes.contains_key(v),
            self.nodes[v].current_term >= u,
    {
        assert(self.is_backed((u, l)));
        if v != l {
            assert(self.grants.contains(Grant { term: u, voter: v, candidate: l }));
        }
    }

    proof fn lemma_ruled_out_stays(self, after: ClusterView<T>, t: u64, i: int, up_to: u64)
        requires
            self.leads_to(after),
            self.votes_in_order(),
            self.own_entry(t, i),
            self.ruled_out(t, i, up_to),
        ensures
            forall|u: u64| u >= up_to ==> #[trigger] after.ruled_out(t, i, u),
    {
        let later = choose|later: u64|
            t < later <= up_to && #[trigger] self.ruled_out_by(t, i, later);
        let l = choose|l: NodeId| #[trigger]
            self.leaders.contains_key((later, l)) && forall|v: NodeId|
                v == l || self.leaders[(later, l)].contains(v) ==> !(#[trigger] self.has_held(
                    t,
                    v,
                    i,
                ));
        assert(after.leaders.contains_key((later, l)));
        assert forall|v: NodeId| v == l || after.leaders[(later, l)].contains(v) implies !(
        #[trigger] after.has_held(t, v, i)) by {
            self.lemma_voters_are_beyond(later, l, v);
            assert(!self.has_held(t, v, i));
            if after.has_held(t, v, i) {
                self.lemma_held_before(after, t, v, i);
            }
        }
        assert(after.ruled_out_by(t, i, later));
    }

    proof fn lemma_chosen_stays(self, after: ClusterView<T>, t: u64, i: int)
        requires
            self.leads_to(after),
            self.votes_in_order(),
            self.leaders_hold(),
            self.chosen(t, i),
        ensures
            after.chosen(t, i),
    {
        self.lemma_own_entry_stays(after, t, i);
        let before = self.holders(t, i);
        let now = after.holders(t, i);
        assert forall|v: NodeId| #[trigger] before.contains(v) implies now.contains(v) by {
            self.lemma_held_stays(after, t, v, i);
        }
        vstd::set_lib::lemma_len_subset(now, after.nodes.dom());
        vstd::set_lib::lemma_len_subset(before, now);
    }

    pub(crate) proof fn lemma_decided_stays(
        self,
        after: ClusterView<T>,
        history: Map<int, EntryView>,
        n: int,
        term: u64,
    )
        requires
            self.leads_to(after),
            self.votes_in_order(),
            self.leaders_hold(),
            self.decided(history, n, term),
        ensures
            forall|u: u64| u >= term ==> #[trigger] after.decided(history, n, u),
    {
        if n > 0 {
            let (t, i) = choose|t: u64, i: int| #[trigger]
                self.chosen(t, i) && t <= term && n <= i && agree(history, self.term_logs[t], n);
            self.lemma_chosen_stays(after, t, i);
            self.lemma_agree_stays(after, history, t, n);
        }
    }

    /// Agreement with the log of a term stays.
    proof fn lemma_agree_stays(
        self,
        after: ClusterView<T>,
        history: Map<int, EntryView>,
        t: u64,
        i: int,
    )
        requires
            self.leads_to(after),
            self.term_logs.contains_key(t),
            agree(history, self.term_logs[t], i),
        ensures
            agree(history, after.term_logs[t], i),
    {
        assert forall|k: int| 0 < k <= i implies #[trigger] history.contains_key(k)
            && after.term_logs[t].contains_key(k) && history[k] == after.term_logs[t][k] by {
            assert(history.contains_key(k));
            assert(self.term_logs[t].contains_key(k));
        }
    }
}

// ---- a step changes one node ----

impl<T> ClusterView<T> {
    /// Only `node` is another one in `after`, and only what it does is new.
    pub open spec fn one_changes(self, after: ClusterView<T>, node: NodeId) -> bool {
        let next = after.nodes[node];
        &&& self.nodes.contains_key(node)
        &&& after.nodes == self.nodes.insert(node, next)
        &&& after.histories == self.histories.insert(node, after.histories[node])
        &&& self.leads_to(after)
        &&& forall|t: u64| #[trigger]
            after.term_logs.contains_key(t) ==> {
                ||| self.term_logs.contains_key(t) && after.term_logs[t] == self.term_logs[t]
                ||| next.state is Leader && t == next.current_term
            }
        &&& next.state is Leader ==> after.term_logs.contains_key(next.current_term)
            && after.term_logs[next.current_term] == after.histories[node]
        &&& forall|l: (u64, NodeId)| #[trigger]
            after.leaders.contains_key(l) ==> self.leaders.contains_key(l) || l.1 == node
        &&& forall|a: Ack| #[trigger]
            after.acks.contains(a) ==> self.acks.contains(a) || a.follower == node
        // a leader enters what is new in the log of its term
        &&& forall|t: u64, i: int|
            #![trigger self.term_logs.contains_key(t), after.term_logs[t].contains_key(i)]
            self.term_logs.contains_key(t) && after.term_logs[t].contains_key(i)
                && !self.term_logs[t].contains_key(i) ==> {
                &&& self.nodes[node].state is Leader
                &&& self.nodes[node].current_term == t
                &&& after.term_logs[t][i].term == t
                &&& after.acks == self.acks
                &&& after.leaders == self.leaders
            }
        &&& forall|t: u64, i: int|
            #![trigger after.own_entry(t, i)]
            after.own_entry(t, i) ==> self.term_logs.contains_key(t)
    }

    /// An entry that a leader has just made is held by nobody else.
    proof fn lemma_fresh_entry(
        self,
        after: ClusterView<T>,
        node: NodeId,
        t: u64,
        i: int,
        v: NodeId,
    )
        requires
            self.safe(),
            after.logs_in_order(),
            self.one_changes(after, node),
            after.own_entry(t, i),
            !self.own_entry(t, i),
        ensures
            self.nodes[node].current_term == t,
            v != node ==> !after.has_held(t, v, i),
    {
        assert(self.term_logs.contains_key(t));
        assert(after.term_logs[t].contains_key(i));
        if self.term_logs[t].contains_key(i) {
            assert(after.term_logs[t][i] == self.term_logs[t][i]);
        }
        if v != node && after.has_held(t, v, i) {
            if self.leaders.contains_key((t, v)) {
                assert(self.leaders.contains_key((t, node)));
                self.one_leader_per_term(t, v, node);
            } else {
                let k = choose|k: u64| #[trigger]
                    after.acks.contains(Ack { term: t, follower: v, index: k }) && i <= k;
                assert(self.acks.contains(Ack { term: t, follower: v, index: k }));
                assert(self.term_logs[t].contains_key(k as int));
            }
        }
    }

    proof fn lemma_terms_frame(self, after: ClusterView<T>, node: NodeId)
        requires
            self.safe(),
            self.one_changes(after, node),
            ascending(after.histories[node]),
            terms_up_to(after.histories[node], after.nodes[node].current_term),
        ensures
            after.terms_hold(),
    {
        assert forall|i: NodeId| #[trigger] after.nodes.contains_key(i) implies ascending(
            after.histories[i],
        ) && terms_up_to(after.histories[i], after.nodes[i].current_term) by {
            if i != node {
                assert(self.nodes.contains_key(i));
            }
        }
    }

    proof fn lemma_acks_frame(self, after: ClusterView<T>, node: NodeId)
        requires
            self.safe(),
            after.logs_in_order(),
            self.one_changes(after, node),
            forall|a: Ack| #[trigger]
                after.acks.contains(a) && !self.acks.contains(a) ==> {
                    &&& after.nodes[node].current_term >= a.term
                    &&& self.term_logs.contains_key(a.term)
                    &&& a.index > 0 ==> self.term_logs[a.term].contains_key(a.index as int)
                    &&& !after.leaders.contains_key((a.term, node))
                },
            forall|t: u64, i: int|
                after.own_entry(t, i) && #[trigger] after.has_held(t, node, i) ==> agree(
                    after.histories[node],
                    after.term_logs[t],
                    i,
                ) || after.ruled_out(t, i, after.nodes[node].current_term),
        ensures
            after.acks_hold(),
    {
        assert forall|a: Ack| #[trigger] after.acks.contains(a) implies {
            &&& after.nodes.contains_key(a.follower)
            &&& after.nodes[a.follower].current_term >= a.term
            &&& after.term_logs.contains_key(a.term)
            &&& a.index > 0 ==> after.term_logs[a.term].contains_key(a.index as int)
            &&& !after.leaders.contains_key((a.term, a.follower))
        } by {
            if self.acks.contains(a) {
                assert(self.term_logs.contains_key(a.term));
                if a.index > 0 {
                    assert(self.term_logs[a.term].contains_key(a.index as int));
                }
            } else {
                if a.index > 0 {
                    assert(self.term_logs[a.term].contains_key(a.index as int));
                }
            }
        }
        assert forall|v: NodeId, t: u64, i: int|
            after.nodes.contains_key(v) && after.own_entry(t, i) && #[trigger] after.has_held(
                t,
                v,
                i,
            ) implies agree(after.histories[v], after.term_logs[t], i) || after.ruled_out(
            t,
            i,
            after.nodes[v].current_term,
        ) by {
            if v != node {
                assert(self.nodes.contains_key(v));
                if !self.own_entry(t, i) {
                    self.lemma_fresh_entry(after, node, t, i, v);
                }
                self.lemma_others_held(after, node, t, i, v);
                if agree(self.histories[v], self.term_logs[t], i) {
                    self.lemma_agree_stays(after, self.histories[v], t, i);
                } else {
                    self.lemma_ruled_out_stays(after, t, i, self.nodes[v].current_term);
                }
            }
        }
    }

    /// What another node holds it has held before.
    proof fn lemma_others_held(
        self,
        after: ClusterView<T>,
        node: NodeId,
        t: u64,
        i: int,
        v: NodeId,
    )
        requires
            self.one_changes(after, node),
            self.own_entry(t, i),
            v != node,
            after.has_held(t, v, i),
        ensures
            self.has_held(t, v, i),
    {
        if after.leaders.contains_key((t, v)) && after.term_logs[t].contains_key(i) {
            assert(self.leaders.contains_key((t, v)));
        } else {
            let k = choose|k: u64| #[trigger]
                after.acks.contains(Ack { term: t, follower: v, index: k }) && i <= k;
            assert(self.acks.contains(Ack { term: t, follower: v, index: k }));
        }
    }

    proof fn lemma_leaders_frame(self, after: ClusterView<T>, node: NodeId)
        requires
            self.safe(),
            after.logs_in_order(),
            self.one_changes(after, node),
            forall|l: (u64, NodeId)| #[trigger]
                after.leaders.contains_key(l) && !self.leaders.contains_key(l)
                    ==> after.term_logs.contains_key(l.0),
            forall|u: u64, t: u64, i: int|
                #![trigger after.term_logs.contains_key(u), after.own_entry(t, i)]
                after.term_logs.contains_key(u) && !self.term_logs.contains_key(u) && t < u
                    && after.own_entry(t, i) ==> agree(after.term_logs[u], after.term_logs[t], i)
                    || after.ruled_out(t, i, u),
        ensures
            after.leaders_hold(),
    {
        assert forall|u: u64, t: u64, i: int|
            #![trigger after.term_logs.contains_key(u), after.own_entry(t, i)]
            after.term_logs.contains_key(u) && t < u && after.own_entry(t, i) implies agree(
            after.term_logs[u],
            after.term_logs[t],
            i,
        ) || after.ruled_out(t, i, u) by {
            if self.term_logs.contains_key(u) {
                if self.own_entry(t, i) {
                    if agree(self.term_logs[u], self.term_logs[t], i) {
                        self.lemma_agree_stays(after, self.term_logs[u], t, i);
                        assert forall|k: int| 0 < k <= i implies #[trigger] after.term_logs[u].contains_key(
                            k,
                        ) && after.term_logs[t].contains_key(k) && after.term_logs[u][k]
                            == after.term_logs[t][k] by {
                            assert(self.term_logs[u].contains_key(k));
                        }
                    } else {
                        self.lemma_ruled_out_stays(after, t, i, u);
                    }
                } else {
                    self.lemma_fresh_entry(after, node, t, i, node);
                    let l = choose|l: NodeId| #[trigger] self.leaders.contains_key((u, l));
                    assert(after.leaders.contains_key((u, l)));
                    assert forall|v: NodeId| v == l || after.leaders[(u, l)].contains(v) implies !(
                    #[trigger] after.has_held(t, v, i)) by {
                        self.lemma_voters_are_beyond(u, l, v);
                        self.lemma_fresh_entry(after, node, t, i, v);
                    }
                    assert(after.ruled_out_by(t, i, u));
                }
            }
        }
        assert forall|l: (u64, NodeId)| #[trigger]
            after.leaders.contains_key(l) implies after.term_logs.contains_key(l.0) by {
            if self.leaders.contains_key(l) {
                assert(self.term_logs.contains_key(l.0));
            }
        }
    }

    /// The node is a candidate only if it was one before, in the same term and with the same
    /// log, or in a new term.
    pub open spec fn keeps_candidacy(self, after: ClusterView<T>, node: NodeId) -> bool {
        let n = self.nodes[node];
        let next = after.nodes[node];
        next.state is Candidate && next.current_term == n.current_term ==> {
            &&& n.state is Candidate
            &&& after.histories[node] == self.histories[node]
            &&& next.log.last_index() == n.log.last_index()
            &&& next.log.last_term() == n.log.last_term()
        }
    }

    proof fn lemma_requests_frame(self, after: ClusterView<T>, node: NodeId)
        requires
            self.safe(),
            self.one_changes(after, node),
            self.keeps_candidacy(after, node),
            forall|req: RequestVoteRequest| #[trigger]
                after.requests.contains(req) && !self.requests.contains(req) ==> {
                    let next = after.nodes[node];
                    &&& req.candidate_id == node
                    &&& next.current_term >= req.term
                    &&& next.current_term == req.term ==> {
                        &&& req.last_log_index == next.log.last_index()
                        &&& req.last_log_term == next.log.last_term()
                    }
                },
        ensures
            after.requests_hold(),
    {
        assert forall|req: RequestVoteRequest| #[trigger] after.requests.contains(req) implies {
            let candidate = after.nodes[req.candidate_id];
            &&& after.nodes.contains_key(req.candidate_id)
            &&& candidate.current_term >= req.term
            &&& candidate.current_term == req.term && candidate.state is Candidate ==> {
                &&& req.last_log_index == candidate.log.last_index()
                &&& req.last_log_term == candidate.log.last_term()
            }
        } by {
            if self.requests.contains(req) {
                assert(self.nodes.contains_key(req.candidate_id));
            }
        }
    }

    /// A vote that held before holds after the step, with the same record of the log.
    proof fn lemma_vote_stays(self, after: ClusterView<T>, node: NodeId, g: Grant)
        requires
            self.safe(),
            after.logs_in_order(),
            self.one_changes(after, node),
            self.keeps_candidacy(after, node),
            self.grants.contains(g),
            g.voter != g.candidate,
            after.vote_logs[(g.term, g.voter)] == self.vote_logs[(g.term, g.voter)],
        ensures
            after.vote_holds(g),
    {
        let log = self.vote_logs[(g.term, g.voter)];
        assert(self.vote_holds(g));
        assert forall|t: u64, i: int|
            t < g.term && after.own_entry(t, i) && #[trigger] after.has_held(
                t,
                g.voter,
                i,
            ) implies agree(log, after.term_logs[t], i) || after.ruled_out(t, i, g.term) by {
            assert(self.nodes.contains_key(g.voter));
            assert(self.nodes[g.voter].current_term >= g.term);
            if self.own_entry(t, i) {
                self.lemma_held_before(after, t, g.voter, i);
                if agree(log, self.term_logs[t], i) {
                    self.lemma_agree_stays(after, log, t, i);
                } else {
                    self.lemma_ruled_out_stays(after, t, i, g.term);
                }
            } else {
                self.lemma_fresh_entry(after, node, t, i, g.voter);
            }
        }
    }

    proof fn lemma_sent_frame(self, after: ClusterView<T>, node: NodeId)
        requires
            self.safe(),
            self.one_changes(after, node),
            after.sent == self.sent,
            after.offers == self.offers,
        ensures
            after.sent_hold(),
    {
        assert forall|req: AppendEntriesView| #[trigger] after.sent.contains(req) implies {
            let log = after.term_logs[req.term];
            &&& after.leaders.contains_key((req.term, req.leader_id))
            &&& forall|i: int| #[trigger]
                log.contains_key(i) && i > req.prev_log_index + req.entries.len() ==> log[i].term
                    == req.term
            &&& req.leader_commit <= req.prev_log_index + req.entries.len()
            &&& after.decided(log, req.leader_commit as int, req.term)
        } by {
            assert(self.sent.contains(req));
            let before = self.term_logs[req.term];
            let log = after.term_logs[req.term];
            assert(self.leaders.contains_key((req.term, req.leader_id)));
            assert(self.term_logs.contains_key(req.term));
            assert forall|i: int| #[trigger]
                log.contains_key(i) && i > req.prev_log_index
                    + req.entries.len() implies log[i].term == req.term by {
                if before.contains_key(i) {
                    assert(log[i] == before[i]);
                }
            }
            self.lemma_decided_log_stays(after, req.leader_commit as int, req.term);
        }
        assert forall|offer: SnapshotOffer| #[trigger] after.offers.contains(offer) implies {
            let log = after.term_logs[offer.term];
            &&& after.leaders.contains_key((offer.term, offer.leader_id))
            &&& log.contains_key(offer.last_included_index as int)
            &&& log[offer.last_included_index as int].term == offer.last_included_term
            &&& after.decided(log, offer.last_included_index as int, offer.term)
        } by {
            assert(self.offers.contains(offer));
            assert(self.leaders.contains_key((offer.term, offer.leader_id)));
            assert(self.term_logs.contains_key(offer.term));
            assert(self.term_logs[offer.term].contains_key(offer.last_included_index as int));
            self.lemma_decided_log_stays(after, offer.last_included_index as int, offer.term);
        }
    }

    /// What is decided in the log of a term stays so.
    proof fn lemma_decided_log_stays(self, after: ClusterView<T>, n: int, term: u64)
        requires
            self.leads_to(after),
            self.votes_in_order(),
            self.leaders_hold(),
            self.term_logs.contains_key(term),
            self.decided(self.term_logs[term], n, term),
        ensures
            after.decided(after.term_logs[term], n, term),
    {
        let log = self.term_logs[term];
        self.lemma_decided_stays(after, log, n, term);
        assert(after.decided(log, n, term));
        if n > 0 {
            let (t, i) = choose|t: u64, i: int| #[trigger]
                after.chosen(t, i) && t <= term && n <= i && agree(log, after.term_logs[t], n);
            assert forall|k: int| 0 < k <= n implies #[trigger] after.term_logs[term].contains_key(
                k,
            ) && after.term_logs[t].contains_key(k) && after.term_logs[term][k]
                == after.term_logs[t][k] by {
                assert(log.contains_key(k));
            }
            assert(agree(after.term_logs[term], after.term_logs[t], n));
        }
    }

    proof fn lemma_commits_frame(self, after: ClusterView<T>, node: NodeId)
        requires
            self.safe(),
            self.one_changes(after, node),
            ({
                let next = after.nodes[node];
                &&& next.log.snapshot_index <= next.commit_index <= next.log.last_index()
                &&& after.decided(
                    after.histories[node],
                    next.commit_index as int,
                    next.current_term,
                )
            }),
        ensures
            after.commits_hold(),
    {
        assert forall|i: NodeId| #[trigger] after.nodes.contains_key(i) implies {
            let n = after.nodes[i];
            &&& n.log.snapshot_index <= n.commit_index <= n.log.last_index()
            &&& after.decided(after.histories[i], n.commit_index as int, n.current_term)
        } by {
            if i != node {
                assert(self.nodes.contains_key(i));
                self.lemma_decided_stays(
                    after,
                    self.histories[i],
                    self.nodes[i].commit_index as int,
                    self.nodes[i].current_term,
                );
            }
        }
    }

    proof fn lemma_matches_frame(self, after: ClusterView<T>, node: NodeId)
        requires
            self.safe(),
            self.one_changes(after, node),
            after.nodes[node].state is Leader ==> after.matches_of(node),
        ensures
            after.matches_hold(),
    {
        assert forall|i: NodeId| #[trigger]
            after.nodes.contains_key(i) && after.nodes[i].state is Leader implies after.matches_of(
            i,
        ) by {
            if i != node {
                assert(self.nodes.contains_key(i));
                assert(self.matches_of(i));
            }
        }
    }
}

// ---- moves of one node ----

/// The last entry of a log has the last term of the log.
proof fn lemma_last_term(history: Map<int, EntryView>, log: LogView)
    requires
        crate::matching::records(history, log),
    ensures
        log.last_index() > 0 ==> history.contains_key(log.last_index() as int)
            && history[log.last_index() as int].term == log.last_term(),
        log.last_index() == 0 ==> log.last_term() == 0,
{
    log.lemma_contiguous();
    let last = log.last_index() as int;
    if last > 0 {
        assert(history.contains_key(last));
        if last > log.snapshot_index {
            assert(log.entry_at(last) == Some(history[last]));
        }
    }
}

/// A log that ends as late, by term and then by index, is as recent.
proof fn lemma_as_recent(
    a: Map<int, EntryView>,
    a_log: LogView,
    b: Map<int, EntryView>,
    b_log: LogView,
)
    requires
        crate::matching::records(a, a_log),
        crate::matching::records(b, b_log),
        ascending(b),
        forall|i: int| #[trigger] b.contains_key(i) ==> b[i].term > 0,
        a_log.last_term() > b_log.last_term() || a_log.last_term() == b_log.last_term()
            && a_log.last_index() >= b_log.last_index(),
    ensures
        as_recent(a, b),
{
    lemma_last_term(a, a_log);
    lemma_last_term(b, b_log);
    assert forall|i: int| #[trigger] b.contains_key(i) implies has_as_recent(a, i, b[i].term) by {
        let last = b_log.last_index() as int;
        assert(b.contains_key(last));
        assert(b[i].term <= b[last].term);
        assert(a.contains_key(a_log.last_index() as int));
    }
}

impl<T> ClusterView<T> {
    /// The log is decided up to a smaller index as well.
    proof fn lemma_decided_less(self, history: Map<int, EntryView>, n: int, term: u64, m: int)
        requires
            self.decided(history, n, term),
            m <= n,
        ensures
            self.decided(history, m, term),
    {
        if m > 0 {
            let (t, i) = choose|t: u64, i: int| #[trigger]
                self.chosen(t, i) && t <= term && n <= i && agree(history, self.term_logs[t], n);
            assert(agree(history, self.term_logs[t], m));
        }
    }

    /// So is a log that agrees with it.
    proof fn lemma_decided_by_agreement(
        self,
        history: Map<int, EntryView>,
        other: Map<int, EntryView>,
        n: int,
        term: u64,
    )
        requires
            self.decided(history, n, term),
            agree(other, history, n),
        ensures
            self.decided(other, n, term),
    {
        if n > 0 {
            let (t, i) = choose|t: u64, i: int| #[trigger]
                self.chosen(t, i) && t <= term && n <= i && agree(history, self.term_logs[t], n);
            assert forall|k: int| 0 < k <= n implies #[trigger] other.contains_key(k)
                && self.term_logs[t].contains_key(k) && other[k] == self.term_logs[t][k] by {
                assert(other.contains_key(k));
                assert(history.contains_key(k));
            }
            assert(agree(other, self.term_logs[t], n));
        }
    }

    /// Logs with an entry of the same term at an index agree up to it.
    proof fn lemma_same_term_agree(self, a: Map<int, EntryView>, b: Map<int, EntryView>, i: int)
        requires
            self.rooted(a),
            self.rooted(b),
            forall|j: int| 0 < j <= i ==> #[trigger] a.contains_key(j) && b.contains_key(j),
            i > 0 ==> a[i].term == b[i].term,
        ensures
            agree(a, b, i),
    {
        if i > 0 {
            assert(a.contains_key(i));
            assert(self.rooted_at(a, i) && self.rooted_at(b, i));
            let term = a[i].term;
            assert forall|j: int| 0 < j <= i implies #[trigger] a.contains_key(j)
                && b.contains_key(j) && a[j] == b[j] by {
                assert(self.term_logs[term].contains_key(j));
            }
        }
    }

    /// A node changes, but not its history nor the log of any term.
    proof fn lemma_quiet_change(self, after: ClusterView<T>, node: NodeId, next: NodeView<T>)
        requires
            self.safe(),
            self.nodes.contains_key(node),
            after.nodes == self.with_node(node, next).nodes,
            after.histories == self.with_node(node, next).histories,
            after.term_logs == self.with_node(node, next).term_logs,
            after.leaders == self.leaders,
            crate::matching::records(self.histories[node], next.log),
            next.current_term >= self.nodes[node].current_term,
            next.state is Leader ==> self.nodes[node].state is Leader && next.current_term
                == self.nodes[node].current_term,
            forall|a: Ack| #[trigger] self.acks.contains(a) ==> after.acks.contains(a),
            forall|a: Ack| #[trigger]
                after.acks.contains(a) ==> self.acks.contains(a) || a.follower == node && a.term
                    >= self.nodes[node].current_term,
        ensures
            self.one_changes(after, node),
            after.nodes[node] == next,
            after.histories == self.histories,
            after.term_logs == self.term_logs,
    {
        crate::matching::lemma_history_stays(self.histories[node], next.log);
        assert(after.term_logs =~= self.term_logs);
        assert(after.histories =~= self.histories);
        assert(after.nodes.dom() =~= self.nodes.dom());
        assert(after.histories =~= self.histories.insert(node, after.histories[node]));
        assert(after.nodes[node] == next);
    }

    /// What a node holds after a quiet change, if what it newly reports it has.
    proof fn lemma_quiet_acks(self, after: ClusterView<T>, node: NodeId)
        requires
            self.safe(),
            after.logs_in_order(),
            self.one_changes(after, node),
            after.histories == self.histories,
            after.term_logs == self.term_logs,
            after.leaders == self.leaders,
            forall|a: Ack| #[trigger]
                after.acks.contains(a) && !self.acks.contains(a) ==> {
                    &&& after.nodes[node].current_term >= a.term
                    &&& self.term_logs.contains_key(a.term)
                    &&& agree(self.histories[node], self.term_logs[a.term], a.index as int)
                    &&& !self.leaders.contains_key((a.term, node))
                },
        ensures
            after.acks_hold(),
    {
        let history = self.histories[node];
        assert forall|t: u64, i: int|
            after.own_entry(t, i) && #[trigger] after.has_held(t, node, i) implies agree(
            history,
            after.term_logs[t],
            i,
        ) || after.ruled_out(t, i, after.nodes[node].current_term) by {
            assert(self.own_entry(t, i));
            if self.has_held(t, node, i) {
                if !agree(history, self.term_logs[t], i) {
                    self.lemma_ruled_out_stays(after, t, i, self.nodes[node].current_term);
                }
            } else {
                let k = choose|k: u64| #[trigger]
                    after.acks.contains(Ack { term: t, follower: node, index: k }) && i <= k;
                assert(agree(history, self.term_logs[t], k as int));
            }
        }
        assert forall|a: Ack| #[trigger]
            after.acks.contains(a) && !self.acks.contains(a) && a.index
                > 0 implies self.term_logs[a.term].contains_key(a.index as int) by {
            assert(history.contains_key(a.index as int));
        }
        self.lemma_acks_frame(after, node);
    }

    /// The votes on record hold after a step that gives none.
    proof fn lemma_votes_frame(self, after: ClusterView<T>, node: NodeId)
        requires
            self.safe(),
            after.logs_in_order(),
            self.one_changes(after, node),
            self.keeps_candidacy(after, node),
            after.grants == self.grants,
            after.vote_logs == self.vote_logs,
        ensures
            after.votes_hold(),
    {
        assert forall|g: Grant| #[trigger]
            after.grants.contains(g) && g.voter != g.candidate implies after.vote_holds(g) by {
            self.lemma_vote_stays(after, node, g);
        }
    }
}

impl<T> ClusterView<T> {
    /// What a quiet change of one node has to bring along for the cluster to stay safe.
    #[verifier::rlimit(40)]
    proof fn lemma_quiet_stays_safe(self, after: ClusterView<T>, node: NodeId)
        requires
            self.safe(),
            after.logs_in_order(),
            self.one_changes(after, node),
            after.histories == self.histories,
            after.term_logs == self.term_logs,
            after.leaders == self.leaders,
            after.sent == self.sent,
            after.offers == self.offers,
            self.keeps_candidacy(after, node),
            forall|a: Ack| #[trigger]
                after.acks.contains(a) && !self.acks.contains(a) ==> {
                    &&& after.nodes[node].current_term >= a.term
                    &&& self.term_logs.contains_key(a.term)
                    &&& agree(self.histories[node], self.term_logs[a.term], a.index as int)
                    &&& !self.leaders.contains_key((a.term, node))
                },
            forall|req: RequestVoteRequest| #[trigger]
                after.requests.contains(req) && !self.requests.contains(req) ==> {
                    let next = after.nodes[node];
                    &&& req.candidate_id == node
                    &&& next.current_term >= req.term
                    &&& next.current_term == req.term ==> {
                        &&& req.last_log_index == next.log.last_index()
                        &&& req.last_log_term == next.log.last_term()
                    }
                },
            after.votes_hold(),
            ({
                let next = after.nodes[node];
                &&& next.log.snapshot_index <= next.commit_index <= next.log.last_index()
                &&& self.decided(self.histories[node], next.commit_index as int, next.current_term)
            }),
            after.nodes[node].state is Leader ==> after.matches_of(node),
        ensures
            after.safe(),
    {
        let next = after.nodes[node];
        assert(terms_up_to(after.histories[node], next.current_term)) by {
            assert(self.nodes.contains_key(node));
        }
        self.lemma_terms_frame(after, node);
        self.lemma_quiet_acks(after, node);
        self.lemma_leaders_frame(after, node);
        self.lemma_requests_frame(after, node);
        self.lemma_sent_frame(after, node);
        self.lemma_decided_stays(
            after,
            self.histories[node],
            next.commit_index as int,
            next.current_term,
        );
        assert(after.decided(
            self.histories[node],
            next.commit_index as int,
            next.current_term,
        ));
        self.lemma_commits_frame(after, node);
        self.lemma_matches_frame(after, node);
    }

    /// What is decided in the log of a node is decided for a later term too.
    proof fn lemma_decided_later(self, history: Map<int, EntryView>, n: int, term: u64, later: u64)
        requires
            self.decided(history, n, term),
            term <= later,
        ensures
            self.decided(history, n, later),
    {
        if n > 0 {
            let (t, i) = choose|t: u64, i: int| #[trigger]
                self.chosen(t, i) && t <= term && n <= i && agree(history, self.term_logs[t], n);
            assert(self.chosen(t, i));
        }
    }

    proof fn lemma_campaign_stays_safe(self, node: NodeId)
        requires
            self.safe(),
            self.can_step(ClusterStep::Campaign { node }),
        ensures
            self.after_step(ClusterStep::Campaign { node }).safe(),
            self.leads_to(self.after_step(ClusterStep::Campaign { node })),
    {
        let step = ClusterStep::Campaign { node };
        let after = self.after_step(step);
        let n = self.nodes[node];
        let next = n.campaigning();
        self.lemma_step_keeps_logs_in_order(step);
        self.lemma_quiet_change(after, node, next);
        self.lemma_votes_frame(after, node);
        self.lemma_decided_later(
            self.histories[node],
            n.commit_index as int,
            n.current_term,
            next.current_term,
        );
        self.lemma_quiet_stays_safe(after, node);
    }

    proof fn lemma_restart_stays_safe(self, node: NodeId, index: u64, term: u64)
        requires
            self.safe(),
            self.can_step(ClusterStep::Restart { node, index, term }),
            self.sound(ClusterStep::Restart { node, index, term }),
        ensures
            self.after_step(ClusterStep::Restart { node, index, term }).safe(),
            self.leads_to(self.after_step(ClusterStep::Restart { node, index, term })),
    {
        let step = ClusterStep::Restart { node, index, term };
        let after = self.after_step(step);
        let n = self.nodes[node];
        self.lemma_step_keeps_logs_in_order(step);
        let log = n.log.compact(index, term);
        crate::matching::lemma_history_compacted(self.histories[node], n.log, index, term);
        crate::matching::lemma_history_restarted(self.histories[node], log);
        self.lemma_quiet_change(after, node, n.restarted(index, term));
        self.lemma_votes_frame(after, node);
        self.lemma_decided_less(
            self.histories[node],
            n.commit_index as int,
            n.current_term,
            log.snapshot_index as int,
        );
        log.lemma_contiguous();
        self.lemma_quiet_stays_safe(after, node);
    }

    proof fn lemma_send_stays_safe(self, node: NodeId, follower: NodeId)
        requires
            self.safe(),
            self.can_step(ClusterStep::Send { node, follower }),
        ensures
            self.after_step(ClusterStep::Send { node, follower }).safe(),
            self.leads_to(self.after_step(ClusterStep::Send { node, follower })),
    {
        let step = ClusterStep::Send { node, follower };
        let after = self.after_step(step);
        let n = self.nodes[node];
        let log = self.histories[node];
        let term = n.current_term;
        self.lemma_step_keeps_logs_in_order(step);
        assert(self.leaders.contains_key((term, node)));
        assert(self.term_logs[term] == log);
        n.log.lemma_contiguous();
        assert(after.nodes.insert(node, n) =~= after.nodes);
        assert(after.histories.insert(node, log) =~= after.histories);
        assert(self.leads_to(after));
        assert(self.one_changes(after, node));
        let commit = n.commit_index as int;
        assert forall|req: AppendEntriesView| #[trigger]
            after.sent.contains(req) && !self.sent.contains(req) implies {
            &&& req.term == term
            &&& req.leader_id == node
            &&& req.leader_commit == commit
            &&& req.prev_log_index + req.entries.len() == n.log.last_index()
        } by {
            let next = n.send_from(follower);
            let prev = n.send_after(follower);
            assert(self.matches_of(node));
            assert(next >= 1);
            if prev > n.log.snapshot_index {
                assert(n.log.entry_at(prev as int) is Some);
            }
            if n.log.snapshot_index < next <= n.log.last_index() {
                n.log.lemma_range(next, (n.log.last_index() + 1) as u64);
            }
        }
        self.lemma_terms_frame(after, node);
        self.lemma_quiet_acks(after, node);
        self.lemma_leaders_frame(after, node);
        self.lemma_requests_frame(after, node);
        self.lemma_votes_frame(after, node);
        self.lemma_decided_stays(after, log, commit, term);
        assert(after.decided(log, commit, term));
        self.lemma_commits_frame(after, node);
        assert(self.matches_of(node));
        self.lemma_matches_frame(after, node);
        self.lemma_new_messages_hold(after, node);
    }

    #[verifier::rlimit(40)]
    proof fn lemma_new_messages_hold(self, after: ClusterView<T>, node: NodeId)
        requires
            self.safe(),
            self.nodes.contains_key(node),
            self.nodes[node].state is Leader,
            after.term_logs == self.term_logs,
            after.leaders == self.leaders,
            after.acks == self.acks,
            after.nodes == self.nodes,
            forall|req: AppendEntriesView| #[trigger]
                after.sent.contains(req) && !self.sent.contains(req) ==> {
                    let n = self.nodes[node];
                    &&& req.term == n.current_term
                    &&& req.leader_id == node
                    &&& req.leader_commit == n.commit_index
                    &&& req.prev_log_index + req.entries.len() == n.log.last_index()
                },
            forall|offer: SnapshotOffer| #[trigger]
                after.offers.contains(offer) && !self.offers.contains(offer) ==> {
                    let n = self.nodes[node];
                    &&& offer.term == n.current_term
                    &&& offer.leader_id == node
                    &&& offer.last_included_index == n.log.snapshot_index
                    &&& offer.last_included_term == n.log.snapshot_term
                    &&& n.log.snapshot_index > 0
                },
        ensures
            after.sent_hold(),
    {
        let n = self.nodes[node];
        let term = n.current_term;
        let own = self.histories[node];
        let commit = n.commit_index as int;
        assert(self.leaders.contains_key((term, node)));
        assert(self.term_logs[term] == own);
        assert(self.leads_to(after));
        assert forall|req: AppendEntriesView| #[trigger] after.sent.contains(req) implies {
            let log = after.term_logs[req.term];
            &&& after.leaders.contains_key((req.term, req.leader_id))
            &&& forall|i: int| #[trigger]
                log.contains_key(i) && i > req.prev_log_index + req.entries.len() ==> log[i].term
                    == req.term
            &&& req.leader_commit <= req.prev_log_index + req.entries.len()
            &&& after.decided(log, req.leader_commit as int, req.term)
        } by {
            if self.sent.contains(req) {
                self.lemma_decided_stays(
                    after,
                    self.term_logs[req.term],
                    req.leader_commit as int,
                    req.term,
                );
                assert(after.decided(
                    self.term_logs[req.term],
                    req.leader_commit as int,
                    req.term,
                ));
            } else {
                self.lemma_decided_stays(after, own, commit, term);
                assert(after.decided(own, commit, term));
            }
        }
        assert forall|offer: SnapshotOffer| #[trigger] after.offers.contains(offer) implies {
            let log = after.term_logs[offer.term];
            &&& after.leaders.contains_key((offer.term, offer.leader_id))
            &&& log.contains_key(offer.last_included_index as int)
            &&& log[offer.last_included_index as int].term == offer.last_included_term
            &&& after.decided(log, offer.last_included_index as int, offer.term)
        } by {
            let index = offer.last_included_index as int;
            if self.offers.contains(offer) {
                self.lemma_decided_stays(after, self.term_logs[offer.term], index, offer.term);
                assert(after.decided(self.term_logs[offer.term], index, offer.term));
            } else {
                n.log.lemma_contiguous();
                assert(own.contains_key(index));
                self.lemma_decided_less(own, commit, term, index);
                self.lemma_decided_stays(after, own, index, term);
                assert(after.decided(own, index, term));
            }
        }
    }
}

impl<T> ClusterView<T> {
    /// What a leader knows of its followers after a move through which it leads.
    proof fn lemma_matches_after_move(self, node: NodeId, m: Move<T>)
        requires
            self.safe(),
            self.can_step(ClusterStep::Act { node, m }),
            self.sound_move(node, m),
            self.nodes[node].after_move(m).state is Leader,
        ensures
            self.after_step(ClusterStep::Act { node, m }).matches_of(node),
    {
        let after = self.after_step(ClusterStep::Act { node, m });
        let n = self.nodes[node];
        let next = n.after_move(m);
        n.lemma_move_and_vote(m);
        assert(self.matches_of(node));
        if let Move::Event { event, results } = m {
            let between = n.after_event(event);
            between.leader->0.lemma_record_all_keeps_progress(
                between.log.span(between.last_applied as int, between.commit_index as int),
                results,
            );
            let before = n.leader->0.match_index;
            let now = next.leader->0.match_index;
            assert(now == between.leader->0.match_index);
            assert forall|f: NodeId| #[trigger] now.contains_key(f) && now[f]
                > 0 implies after.acks.contains(
                Ack { term: next.current_term, follower: f, index: now[f] },
            ) by {
                assert(before.contains_key(f) && now[f] == before[f] ==> self.acks.contains(
                    Ack { term: n.current_term, follower: f, index: before[f] },
                ));
            }
        }
    }

    /// What a leader commits is decided.
    proof fn lemma_leader_commit_decided(self, node: NodeId, m: Move<T>)
        requires
            self.safe(),
            self.can_step(ClusterStep::Act { node, m }),
            self.sound_move(node, m),
            self.nodes[node].state is Leader,
            self.nodes[node].after_move(m).state is Leader,
            self.nodes[node].log_after_move(m) == self.nodes[node].log,
        ensures
            ({
                let next = self.nodes[node].after_move(m);
                &&& self.nodes[node].commit_index <= next.commit_index <= next.log.last_index()
                &&& self.decided(
                    self.histories[node],
                    next.commit_index as int,
                    next.current_term,
                )
            }),
    {
        let n = self.nodes[node];
        let next = n.after_move(m);
        n.lemma_move_and_vote(m);
        n.lemma_log_after_move(m);
        self.lemma_matches_after_move(node, m);
        let term = n.current_term;
        if next.commit_index != n.commit_index {
            if let Move::Event { event: EventView::AppendEntriesResponse(resp, f, target), results } =
                m {
                let noted = n.with_match(f, target);
                let top = noted.log.last_index() as int;
                noted.lemma_highest_committable(top);
                let index = noted.highest_committable(top);
                assert(next.commit_index == index);
                let between = n.after_event(EventView::AppendEntriesResponse(resp, f, target));
                between.leader->0.lemma_record_all_keeps_progress(
                    between.log.span(between.last_applied as int, between.commit_index as int),
                    results,
                );
                let matches = noted.leader->0.match_index;
                assert(next.leader->0.match_index == matches);
                let followers = matches.dom().filter(|p: NodeId| matches[p] >= index);
                let holders = self.holders(term, index);
                let history = self.histories[node];
                n.log.lemma_contiguous();
                assert(index > n.commit_index);
                assert(index > n.log.snapshot_index);
                assert(n.log.entry_at(index) == Some(history[index]));
                assert(history.contains_key(index));
                assert(self.term_logs[term] == history);
                assert(self.own_entry(term, index));
                assert(self.leaders.contains_key((term, node)));
                assert(self.has_held(term, node, index));
                assert forall|p: NodeId| #[trigger] followers.contains(p) implies holders.contains(p)
                    && p != node by {
                    assert(matches.contains_key(p) && matches[p] >= index);
                    let ack = Ack { term, follower: p, index: matches[p] };
                    assert(self.after_step(ClusterStep::Act { node, m }).acks.contains(ack));
                    assert(self.acks.contains(ack));
                    assert(self.has_held(term, p, index));
                }
                assert(holders.contains(node));
                vstd::set_lib::lemma_len_subset(holders, self.nodes.dom());
                assert(self.matches_of(node));
                assert(matches.dom().finite());
                vstd::set_lib::lemma_len_subset(followers, matches.dom());
                assert(followers.insert(node).subset_of(holders));
                vstd::set_lib::lemma_len_subset(followers.insert(node), holders);
                assert(self.chosen(term, index));
                assert(agree(history, self.term_logs[term], index));
            }
        }
    }
}

impl<T> ClusterView<T> {
    /// A vote is given to a candidate whose log is as recent.
    proof fn lemma_given_vote_holds(self, node: NodeId, req: RequestVoteRequest, after: ClusterView<T>)
        requires
            self.safe(),
            after.logs_in_order(),
            self.one_changes(after, node),
            after.histories == self.histories,
            after.term_logs == self.term_logs,
            after.leaders == self.leaders,
            after.acks == self.acks,
            self.keeps_candidacy(after, node),
            self.requests.contains(req),
            self.nodes[node].grants_vote(req),
            after.nodes[node].current_term == req.term,
            after.vote_logs[(req.term, node)] == self.histories[node],
            req.candidate_id != node,
        ensures
            after.vote_holds(Grant { term: req.term, voter: node, candidate: req.candidate_id }),
    {
        let g = Grant { term: req.term, voter: node, candidate: req.candidate_id };
        let log = self.histories[node];
        let n = self.nodes[node];
        let candidate = self.nodes[g.candidate];
        assert(self.nodes.contains_key(g.candidate));
        if candidate.current_term == g.term && candidate.state is Candidate {
            assert forall|i: int| #[trigger] log.contains_key(i) implies log[i].term > 0 by {
                assert(self.rooted_at(log, i));
            }
            lemma_as_recent(self.histories[g.candidate], candidate.log, log, n.log);
        }
        assert forall|t: u64, i: int|
            t < g.term && after.own_entry(t, i) && #[trigger] after.has_held(
                t,
                g.voter,
                i,
            ) implies agree(log, after.term_logs[t], i) || after.ruled_out(t, i, g.term) by {
            assert(self.own_entry(t, i));
            assert(self.has_held(t, node, i)) by {
                if !(self.leaders.contains_key((t, node))
                    && self.term_logs[t].contains_key(i)) {
                    let k = choose|k: u64| #[trigger]
                        after.acks.contains(Ack { term: t, follower: node, index: k }) && i <= k;
                    assert(self.acks.contains(Ack { term: t, follower: node, index: k }));
                }
            }
            if !agree(log, self.term_logs[t], i) {
                self.lemma_ruled_out_stays(after, t, i, n.current_term);
            }
        }
    }

    /// A move that leaves the history of the node alone keeps the cluster safe, if what it
    /// reports it has and what it commits is decided.
    #[verifier::rlimit(40)]
    proof fn lemma_quiet_act(self, node: NodeId, m: Move<T>)
        requires
            self.safe(),
            self.can_step(ClusterStep::Act { node, m }),
            self.sound(ClusterStep::Act { node, m }),
            self.base_history(node, m) == self.histories[node],
            crate::matching::records(self.histories[node], self.nodes[node].log_after_move(m)),
            forall|a: Ack| #[trigger]
                self.acked(node, m).contains(a) ==> {
                    &&& self.term_logs.contains_key(a.term)
                    &&& agree(self.histories[node], self.term_logs[a.term], a.index as int)
                    &&& !self.leaders.contains_key((a.term, node))
                },
            ({
                let next = self.nodes[node].after_move(m);
                &&& next.log.snapshot_index <= next.commit_index <= next.log.last_index()
                &&& self.decided(
                    self.histories[node],
                    next.commit_index as int,
                    next.current_term,
                )
            }),
        ensures
            self.after_step(ClusterStep::Act { node, m }).safe(),
            self.leads_to(self.after_step(ClusterStep::Act { node, m })),
    {
        let step = ClusterStep::Act { node, m };
        let after = self.after_step(step);
        let n = self.nodes[node];
        let next = n.after_move(m);
        let history = self.histories[node];
        n.lemma_move_and_vote(m);
        n.lemma_log_after_move(m);
        self.lemma_step_keeps_logs_in_order(step);
        assert forall|a: Ack| #[trigger] after.acks.contains(a) && !self.acks.contains(a) implies {
            &&& self.acked(node, m).contains(a)
            &&& a.follower == node
            &&& a.term >= n.current_term
            &&& next.current_term >= a.term
        } by {
            assert(self.acked(node, m).contains(a));
        }
        self.lemma_quiet_change(after, node, next);
        lemma_last_term(history, n.log);
        lemma_last_term(history, next.log);
        assert(n.log.last_index() == next.log.last_index()) by {
            assert(history.contains_key(n.log.last_index() as int) || n.log.last_index() == 0);
            assert(history.contains_key(next.log.last_index() as int) || next.log.last_index()
                == 0);
        }
        assert(self.keeps_candidacy(after, node));
        if next.state is Leader {
            self.lemma_matches_after_move(node, m);
        }
        assert(after.votes_hold()) by {
            assert forall|g: Grant| #[trigger]
                after.grants.contains(g) && g.voter != g.candidate implies after.vote_holds(g) by {
                if self.granted(node, m).contains(g) {
                    if let Move::Event { event: EventView::VoteRequestReceived(req), .. } = m {
                        assert(!self.granted(node, m).is_empty());
                        assert(after.acks =~= self.acks);
                        self.lemma_given_vote_holds(node, req, after);
                    }
                } else {
                    assert(self.grants.contains(g));
                    assert(after.vote_logs[(g.term, g.voter)] == self.vote_logs[(
                        g.term,
                        g.voter,
                    )]) by {
                        if !self.granted(node, m).is_empty() {
                            let other = self.granted(node, m).choose();
                            assert(after.grants.contains(other));
                        }
                    }
                    self.lemma_vote_stays(after, node, g);
                }
            }
        }
        assert forall|req: RequestVoteRequest| #[trigger]
            after.requests.contains(req) && !self.requests.contains(req) implies req
            == next.vote_request() by {
            assert(self.asked(node, m).contains(req));
        }
        self.lemma_quiet_stays_safe(after, node);
    }
}

impl<T> ClusterView<T> {
    /// Requests with entries come from the leader of their term, not from the node itself.
    proof fn lemma_sender_leads(self, node: NodeId, req: AppendEntriesView)
        requires
            self.safe(),
            self.sent.contains(req),
            req.leader_id != node,
        ensures
            self.term_logs.contains_key(req.term),
            !self.leaders.contains_key((req.term, node)),
    {
        assert(self.leaders.contains_key((req.term, req.leader_id)));
        if self.leaders.contains_key((req.term, node)) {
            self.one_leader_per_term(req.term, node, req.leader_id);
        }
    }

    /// A node that finds the entry before a heartbeat agrees with the leader up to it.
    proof fn lemma_heartbeat_agrees(self, node: NodeId, req: AppendEntriesView)
        requires
            self.safe(),
            self.nodes.contains_key(node),
            self.sent.contains(req),
            self.nodes[node].append_verdict(req) is Accepted,
        ensures
            req.prev_log_index <= self.nodes[node].log.last_index(),
            agree(
                self.histories[node],
                self.term_logs[req.term],
                req.prev_log_index as int,
            ),
    {
        let n = self.nodes[node];
        let history = self.histories[node];
        let tl = self.term_logs[req.term];
        let prev = req.prev_log_index as int;
        assert(self.carries_log(req));
        n.lemma_append_keeps_order(req);
        n.log.lemma_contiguous();
        if prev > 0 {
            if prev > n.log.snapshot_index {
                assert(n.log.entry_at(prev) == Some(history[prev]));
            }
            assert(history.contains_key(prev));
            assert(tl.contains_key(prev));
            assert(self.term_logs.contains_key(req.term));
            assert forall|j: int| 0 < j <= prev implies #[trigger] history.contains_key(j)
                && tl.contains_key(j) by {}
            self.lemma_same_term_agree(history, tl, prev);
        }
    }

    /// A node that reports success without a change of its log has what it reports.
    proof fn lemma_unchanged_acks(self, node: NodeId, m: Move<T>, req: AppendEntriesView)
        requires
            self.safe(),
            self.nodes.contains_key(node),
            self.sent.contains(req),
            req.leader_id != node,
            self.sound_move(node, m),
            m matches Move::Event { event, .. } && event == EventView::<T>::AppendEntriesReceived(
                req,
            ),
            !(self.nodes[node].append_verdict(req) is Accepted && req.entries.len() > 0),
        ensures
            forall|a: Ack| #[trigger]
                self.acked(node, m).contains(a) ==> {
                    &&& self.term_logs.contains_key(a.term)
                    &&& agree(self.histories[node], self.term_logs[a.term], a.index as int)
                    &&& !self.leaders.contains_key((a.term, node))
                },
    {
        let n = self.nodes[node];
        let history = self.histories[node];
        let end = req.prev_log_index + req.entries.len();
        self.lemma_sender_leads(node, req);
        assert(self.carries_log(req));
        if n.append_verdict(req) is Accepted {
            self.lemma_heartbeat_agrees(node, req);
        }
        if n.append_verdict(req) is Covered {
            self.lemma_leader_has_decided(
                history,
                n.commit_index as int,
                n.current_term,
                req.term,
            );
        }
        assert forall|a: Ack| #[trigger] self.acked(node, m).contains(a) implies {
            &&& self.term_logs.contains_key(a.term)
            &&& agree(history, self.term_logs[a.term], a.index as int)
            &&& !self.leaders.contains_key((a.term, node))
        } by {
            assert(a == Ack { term: req.term, follower: node, index: end as u64 });
            assert(n.append_verdict(req) is Accepted || n.append_verdict(req) is Covered);
        }
    }

    /// What a node commits on a heartbeat is decided.
    proof fn lemma_unchanged_commit(self, node: NodeId, req: AppendEntriesView)
        requires
            self.safe(),
            self.nodes.contains_key(node),
            self.sent.contains(req),
            self.nodes[node].append_verdict(req) is Accepted,
            req.entries.len() == 0,
            req.leader_commit > self.nodes[node].commit_index,
        ensures
            req.leader_commit <= self.nodes[node].log.last_index(),
            self.decided(self.histories[node], req.leader_commit as int, req.term),
    {
        let history = self.histories[node];
        let commit = req.leader_commit as int;
        self.lemma_heartbeat_agrees(node, req);
        let tl = self.term_logs[req.term];
        assert(self.decided(tl, commit, req.term));
        assert(commit <= req.prev_log_index + req.entries.len());
        assert forall|j: int| 0 < j <= commit implies #[trigger] history.contains_key(j)
            && tl.contains_key(j) && history[j] == tl[j] by {
            assert(history.contains_key(j));
        }
        assert(agree(history, tl, commit));
        self.lemma_decided_by_agreement(tl, history, commit, req.term);
    }

    /// A request with entries that the node takes without a change of its log.
    proof fn lemma_unchanged_by_request(self, node: NodeId, m: Move<T>, req: AppendEntriesView)
        requires
            self.safe(),
            self.can_step(ClusterStep::Act { node, m }),
            self.sound(ClusterStep::Act { node, m }),
            m matches Move::Event { event, .. } && event == EventView::<T>::AppendEntriesReceived(
                req,
            ),
            !(self.nodes[node].state is Leader),
            !(self.nodes[node].append_verdict(req) is Accepted && req.entries.len() > 0),
        ensures
            self.after_step(ClusterStep::Act { node, m }).safe(),
            self.leads_to(self.after_step(ClusterStep::Act { node, m })),
    {
        let n = self.nodes[node];
        let next = n.after_move(m);
        let history = self.histories[node];
        n.lemma_move_and_vote(m);
        n.lemma_log_after_move(m);
        if n.append_verdict(req) is Accepted && req.leader_commit > n.commit_index {
            self.lemma_unchanged_commit(node, req);
        } else {
            self.lemma_decided_later(
                history,
                n.commit_index as int,
                n.current_term,
                next.current_term,
            );
        }
        self.lemma_unchanged_acks(node, m, req);
        self.lemma_quiet_act(node, m);
    }

    /// A snapshot of a leader that ends inside the log is installed.
    #[verifier::rlimit(40)]
    proof fn lemma_installed_stays_safe(self, node: NodeId, m: Move<T>)
        requires
            self.safe(),
            self.can_step(ClusterStep::Act { node, m }),
            self.sound(ClusterStep::Act { node, m }),
            m matches Move::Installed { req } && req.last_included_index
                <= self.nodes[node].log.last_index(),
        ensures
            self.after_step(ClusterStep::Act { node, m }).safe(),
            self.leads_to(self.after_step(ClusterStep::Act { node, m })),
    {
        if let Move::Installed { req } = m {
            let n = self.nodes[node];
            let history = self.histories[node];
            let index = req.last_included_index as int;
            let term = req.term;
            n.lemma_log_after_move(m);
            n.log.lemma_contiguous();
            assert(self.offers.contains(req.offer()));
            assert(self.leaders.contains_key((term, req.leader_id)));
            if self.leaders.contains_key((term, node)) {
                self.one_leader_per_term(term, node, req.leader_id);
            }
            assert(self.term_logs.contains_key(term));
            let tl = self.term_logs[term];
            crate::matching::lemma_history_compacted(
                history,
                n.log,
                req.last_included_index,
                req.last_included_term,
            );
            if index <= n.commit_index {
                self.lemma_leader_has_decided(history, n.commit_index as int, term, term);
            } else {
                assert(n.log.entry_at(index) == Some(history[index]));
                assert(tl.contains_key(index));
                assert forall|j: int| 0 < j <= index implies #[trigger] history.contains_key(j)
                    && tl.contains_key(j) by {}
                self.lemma_same_term_agree(history, tl, index);
                self.lemma_decided_by_agreement(tl, history, index, term);
            }
            if n.log.snapshot_index < index {
                n.log.lemma_compact(req.last_included_index, req.last_included_term);
            }
            self.lemma_quiet_act(node, m);
        }
    }

    /// A node shortens its log by a snapshot of its own.
    proof fn lemma_compacted_stays_safe(self, node: NodeId, m: Move<T>, index: u64, term: u64)
        requires
            self.safe(),
            self.can_step(ClusterStep::Act { node, m }),
            self.sound(ClusterStep::Act { node, m }),
            m matches Move::Event { event, .. } && event == EventView::<T>::SnapshotCompleted(
                index,
                term,
            ),
        ensures
            self.after_step(ClusterStep::Act { node, m }).safe(),
            self.leads_to(self.after_step(ClusterStep::Act { node, m })),
    {
        let n = self.nodes[node];
        n.lemma_log_after_move(m);
        n.lemma_move_and_vote(m);
        crate::matching::lemma_history_compacted(self.histories[node], n.log, index, term);
        if n.log.snapshot_index < index {
            n.log.lemma_compact(index, term);
        }
        self.lemma_quiet_act(node, m);
    }
}

// ---- a node takes entries ----

impl<T> ClusterView<T> {
    /// What a node holds it still has once it has taken the entries of a leader.
    proof fn lemma_held_after_entries(
        self,
        node: NodeId,
        req: AppendEntriesView,
        history: Map<int, EntryView>,
        t: u64,
        i: int,
    )
        requires
            self.safe(),
            self.nodes.contains_key(node),
            self.sent.contains(req),
            req.leader_id != node,
            self.nodes[node].append_verdict(req) is Accepted,
            req.entries.len() > 0,
            !(self.nodes[node].log.last_term() == req.term && self.nodes[node].log.last_index()
                > req.prev_log_index + req.entries.len()),
            forall|j: int|
                0 < j <= req.prev_log_index + req.entries.len() ==> #[trigger] history.contains_key(
                    j,
                ) && self.term_logs[req.term].contains_key(j) && history[j]
                    == self.term_logs[req.term][j],
            self.own_entry(t, i),
            self.has_held(t, node, i),
        ensures
            agree(history, self.term_logs[t], i) || self.ruled_out(t, i, req.term),
    {
        let n = self.nodes[node];
        let before = self.histories[node];
        let w = req.term;
        let tl = self.term_logs[w];
        let end = req.prev_log_index + req.entries.len();
        self.lemma_sender_leads(node, req);
        assert(n.current_term >= t) by {
            if !self.leaders.contains_key((t, node)) {
                let k = choose|k: u64| #[trigger]
                    self.acks.contains(Ack { term: t, follower: node, index: k }) && i <= k;
            }
        }
        if t < w {
            if agree(tl, self.term_logs[t], i) {
                if i > end {
                    assert(tl.contains_key(i));
                }
                assert forall|j: int| 0 < j <= i implies #[trigger] history.contains_key(j)
                    && self.term_logs[t].contains_key(j) && history[j] == self.term_logs[t][j] by {
                    assert(history.contains_key(j));
                    assert(tl.contains_key(j));
                }
            }
        } else {
            assert(t == w);
            assert(!self.ruled_out(t, i, n.current_term));
            assert(agree(before, tl, i));
            if i > end {
                lemma_last_term(before, n.log);
                assert(before.contains_key(i));
                assert(before[i].term == w);
                assert(before.contains_key(n.log.last_index() as int));
                assert(before[i].term <= before[n.log.last_index() as int].term);
            }
            assert forall|j: int| 0 < j <= i implies #[trigger] history.contains_key(j)
                && tl.contains_key(j) && history[j] == tl[j] by {
                assert(history.contains_key(j));
            }
        }
    }

    #[verifier::rlimit(40)]
    proof fn lemma_entries_stay_safe(self, node: NodeId, m: Move<T>, req: AppendEntriesView)
        requires
            self.safe(),
            self.can_step(ClusterStep::Act { node, m }),
            self.sound(ClusterStep::Act { node, m }),
            m matches Move::Event { event, .. } && event == EventView::<T>::AppendEntriesReceived(
                req,
            ),
            !(self.nodes[node].state is Leader),
            self.nodes[node].append_verdict(req) is Accepted,
            req.entries.len() > 0,
        ensures
            self.after_step(ClusterStep::Act { node, m }).safe(),
            self.leads_to(self.after_step(ClusterStep::Act { node, m })),
    {
        let step = ClusterStep::Act { node, m };
        let after = self.after_step(step);
        let n = self.nodes[node];
        let next = n.after_move(m);
        let history = after.histories[node];
        let w = req.term;
        let tl = self.term_logs[w];
        let end = req.prev_log_index + req.entries.len();
        n.lemma_move_and_vote(m);
        n.lemma_log_after_move(m);
        self.lemma_step_keeps_logs_in_order(step);
        self.lemma_sender_leads(node, req);
        self.lemma_accepted_log(node, req);
        assert(self.carries_log(req));
        assert(next.current_term == w && next.state is Follower);
        assert forall|j: int| 0 < j <= end implies #[trigger] history.contains_key(j)
            && tl.contains_key(j) && history[j] == tl[j] by {
            assert(tl.contains_key(j));
        }
        let ack = Ack { term: w, follower: node, index: end as u64 };
        assert(self.acked(node, m) =~= set![ack]);
        assert(after.acks == self.acks.insert(ack));
        assert(end > 0 ==> tl.contains_key(end));
        assert(agree(history, tl, end));
        assert forall|t: u64, i: int|
            self.own_entry(t, i) && #[trigger] self.has_held(t, node, i) implies agree(
            history,
            self.term_logs[t],
            i,
        ) || self.ruled_out(t, i, w) by {
            self.lemma_held_after_entries(node, req, history, t, i);
        }
        self.lemma_entries_commit(node, m, req);
        assert(after.requests =~= self.requests);
        assert(after.grants =~= self.grants);
        self.lemma_follower_stays_safe(after, node, ack);
    }

    /// A follower whose log becomes that of the leader of its term up to what it reports.
    #[verifier::rlimit(40)]
    proof fn lemma_follower_stays_safe(self, after: ClusterView<T>, node: NodeId, ack: Ack)
        requires
            self.safe(),
            after.logs_in_order(),
            self.nodes.contains_key(node),
            after.nodes == self.nodes.insert(node, after.nodes[node]),
            after.histories == self.histories.insert(node, after.histories[node]),
            after.term_logs == self.term_logs,
            after.leaders == self.leaders,
            after.grants == self.grants,
            after.vote_logs == self.vote_logs,
            after.requests == self.requests,
            after.sent == self.sent,
            after.offers == self.offers,
            after.acks == self.acks.insert(ack),
            after.nodes[node].state is Follower,
            after.nodes[node].current_term == ack.term,
            self.nodes[node].current_term <= ack.term,
            ack.follower == node,
            !self.leaders.contains_key((ack.term, node)),
            self.term_logs.contains_key(ack.term),
            ack.index > 0 ==> self.term_logs[ack.term].contains_key(ack.index as int),
            forall|i: int| #[trigger]
                after.histories[node].contains_key(i) ==> 0 < i <= ack.index,
            agree(after.histories[node], self.term_logs[ack.term], ack.index as int),
            forall|t: u64, i: int|
                self.own_entry(t, i) && #[trigger] self.has_held(t, node, i) ==> agree(
                    after.histories[node],
                    self.term_logs[t],
                    i,
                ) || self.ruled_out(t, i, ack.term),
            ({
                let next = after.nodes[node];
                &&& next.log.snapshot_index <= next.commit_index <= next.log.last_index()
                &&& self.decided(after.histories[node], next.commit_index as int, ack.term)
            }),
        ensures
            after.safe(),
            self.leads_to(after),
    {
        let next = after.nodes[node];
        let history = after.histories[node];
        let w = ack.term;
        let tl = self.term_logs[w];
        assert(after.nodes.dom() =~= self.nodes.dom());
        assert(self.one_changes(after, node));
        assert(ascending(tl) && terms_up_to(tl, w));
        assert forall|i: int| #[trigger] history.contains_key(i) implies tl.contains_key(i)
            && history[i] == tl[i] by {}
        self.lemma_terms_frame(after, node);
        assert forall|t: u64, i: int|
            after.own_entry(t, i) && #[trigger] after.has_held(t, node, i) implies agree(
            history,
            after.term_logs[t],
            i,
        ) || after.ruled_out(t, i, next.current_term) by {
            assert(self.own_entry(t, i));
            if self.has_held(t, node, i) {
                if !agree(history, self.term_logs[t], i) {
                    self.lemma_ruled_out_stays(after, t, i, w);
                }
            } else {
                let k = choose|k: u64| #[trigger]
                    after.acks.contains(Ack { term: t, follower: node, index: k }) && i <= k;
                assert(Ack { term: t, follower: node, index: k } == ack);
            }
        }
        self.lemma_acks_frame(after, node);
        self.lemma_leaders_frame(after, node);
        self.lemma_requests_frame(after, node);
        self.lemma_votes_frame(after, node);
        self.lemma_sent_frame(after, node);
        self.lemma_decided_stays(after, history, next.commit_index as int, w);
        assert(after.decided(history, next.commit_index as int, w));
        self.lemma_commits_frame(after, node);
        self.lemma_matches_frame(after, node);
    }

    /// What a node has committed once it has taken the entries of a leader is decided.
    proof fn lemma_entries_commit(self, node: NodeId, m: Move<T>, req: AppendEntriesView)
        requires
            self.safe(),
            self.can_step(ClusterStep::Act { node, m }),
            self.sound(ClusterStep::Act { node, m }),
            m matches Move::Event { event, .. } && event == EventView::<T>::AppendEntriesReceived(
                req,
            ),
            !(self.nodes[node].state is Leader),
            self.nodes[node].append_verdict(req) is Accepted,
            req.entries.len() > 0,
        ensures
            ({
                let next = self.nodes[node].after_move(m);
                let history = self.after_step(ClusterStep::Act { node, m }).histories[node];
                &&& next.log.snapshot_index <= next.commit_index <= next.log.last_index()
                &&& self.nodes[node].commit_index <= next.commit_index
                &&& self.decided(history, next.commit_index as int, req.term)
            }),
    {
        let n = self.nodes[node];
        let next = n.after_move(m);
        let before = self.histories[node];
        let history = self.after_step(ClusterStep::Act { node, m }).histories[node];
        let w = req.term;
        let tl = self.term_logs[w];
        let end = req.prev_log_index + req.entries.len();
        let commit = n.commit_index as int;
        n.lemma_log_after_move(m);
        n.log.lemma_contiguous();
        self.lemma_sender_leads(node, req);
        self.lemma_accepted_log(node, req);
        self.lemma_leader_has_decided(before, commit, n.current_term, w);
        if commit > end {
            assert(before.contains_key(commit));
            assert(tl.contains_key(commit));
            assert(before[commit].term == w);
            lemma_last_term(before, n.log);
            assert(before.contains_key(n.log.last_index() as int));
            assert(before[commit].term <= before[n.log.last_index() as int].term);
        }
        assert forall|j: int| 0 < j <= end implies #[trigger] history.contains_key(j)
            && tl.contains_key(j) && history[j] == tl[j] by {
            assert(tl.contains_key(j));
        }
        assert(agree(history, tl, end));
        assert(agree(history, tl, commit));
        self.lemma_decided_by_agreement(tl, history, commit, w);
        if req.leader_commit > n.commit_index {
            assert(agree(history, tl, req.leader_commit as int));
            self.lemma_decided_by_agreement(tl, history, req.leader_commit as int, w);
        }
    }
}

// ---- a node takes a snapshot beyond its log ----

impl<T> ClusterView<T> {
    /// What a node holds it still has once it has installed a snapshot beyond its log.
    proof fn lemma_held_after_snapshot(
        self,
        node: NodeId,
        req: InstallSnapshotView,
        history: Map<int, EntryView>,
        t: u64,
        i: int,
    )
        requires
            self.safe(),
            self.nodes.contains_key(node),
            self.term_logs.contains_key(req.term),
            req.term == self.nodes[node].current_term,
            req.last_included_index > self.nodes[node].log.last_index(),
            agree(history, self.term_logs[req.term], req.last_included_index as int),
            self.own_entry(t, i),
            self.has_held(t, node, i),
        ensures
            agree(history, self.term_logs[t], i) || self.ruled_out(t, i, req.term),
    {
        let n = self.nodes[node];
        let before = self.histories[node];
        let w = req.term;
        let tl = self.term_logs[w];
        assert(n.current_term >= t) by {
            if !self.leaders.contains_key((t, node)) {
                let k = choose|k: u64| #[trigger]
                    self.acks.contains(Ack { term: t, follower: node, index: k }) && i <= k;
            }
        }
        if !self.ruled_out(t, i, w) {
            assert(agree(before, self.term_logs[t], i));
            assert(self.term_logs[t].contains_key(i));
            assert(before.contains_key(i));
            assert(t < w ==> agree(tl, self.term_logs[t], i));
            assert forall|j: int| 0 < j <= i implies #[trigger] history.contains_key(j)
                && self.term_logs[t].contains_key(j) && history[j] == self.term_logs[t][j] by {
                assert(history.contains_key(j));
                assert(tl.contains_key(j));
            }
        }
    }

    /// A snapshot of a leader that goes beyond the log is installed.
    #[verifier::rlimit(40)]
    proof fn lemma_beyond_stays_safe(self, node: NodeId, m: Move<T>, req: InstallSnapshotView)
        requires
            self.safe(),
            self.can_step(ClusterStep::Act { node, m }),
            self.sound(ClusterStep::Act { node, m }),
            m == (Move::<T>::Installed { req }),
            req.last_included_index > self.nodes[node].log.last_index(),
        ensures
            self.after_step(ClusterStep::Act { node, m }).safe(),
            self.leads_to(self.after_step(ClusterStep::Act { node, m })),
    {
        let step = ClusterStep::Act { node, m };
        let after = self.after_step(step);
        let n = self.nodes[node];
        let next = n.after_move(m);
        let history = after.histories[node];
        let index = req.last_included_index as int;
        let w = req.term;
        let tl = self.term_logs[w];
        n.lemma_move_and_vote(m);
        n.lemma_log_after_move(m);
        self.lemma_step_keeps_logs_in_order(step);
        self.lemma_installed_log(node, req);
        assert(self.offers.contains(req.offer()));
        assert(self.leaders.contains_key((w, req.leader_id)));
        if self.leaders.contains_key((w, node)) {
            self.one_leader_per_term(w, node, req.leader_id);
        }
        assert forall|j: int| 0 < j <= index implies #[trigger] history.contains_key(j)
            && tl.contains_key(j) && history[j] == tl[j] by {
            assert(tl.contains_key(j));
        }
        assert(agree(history, tl, index));
        let ack = Ack { term: w, follower: node, index: req.last_included_index };
        assert(self.acked(node, m) =~= set![ack]);
        assert(after.acks == self.acks.insert(ack));
        assert(tl.contains_key(index));
        assert forall|t: u64, i: int|
            self.own_entry(t, i) && #[trigger] self.has_held(t, node, i) implies agree(
            history,
            self.term_logs[t],
            i,
        ) || self.ruled_out(t, i, w) by {
            self.lemma_held_after_snapshot(node, req, history, t, i);
        }
        self.lemma_decided_by_agreement(tl, history, index, w);
        assert(next.commit_index == req.last_included_index);
        assert(after.requests =~= self.requests);
        assert(after.grants =~= self.grants);
        self.lemma_follower_stays_safe(after, node, ack);
    }
}

// ---- a leader enters a request, and a candidate wins ----

impl<T> ClusterView<T> {
    #[verifier::rlimit(40)]
    proof fn lemma_entry_stays_safe(self, node: NodeId, m: Move<T>, e: EntryView)
        requires
            self.safe(),
            self.can_step(ClusterStep::Act { node, m }),
            self.sound(ClusterStep::Act { node, m }),
            m matches Move::Event { event, .. } && event is ClientRequest,
            self.nodes[node].state is Leader,
            self.nodes[node].log_after_move(m) == self.nodes[node].log.append(seq![e]),
            self.nodes[node].after_move(m).commit_index == self.nodes[node].commit_index,
            self.nodes[node].after_move(m).current_term == self.nodes[node].current_term,
            self.nodes[node].after_move(m).state is Leader,
            e.term == self.nodes[node].current_term,
            e.index == self.nodes[node].log.last_index() + 1,
        ensures
            self.after_step(ClusterStep::Act { node, m }).safe(),
            self.leads_to(self.after_step(ClusterStep::Act { node, m })),
    {
        let step = ClusterStep::Act { node, m };
        let after = self.after_step(step);
        let n = self.nodes[node];
        let next = n.after_move(m);
        let before = self.histories[node];
        let history = after.histories[node];
        let term = n.current_term;
        let commit = n.commit_index as int;
        n.lemma_log_after_move(m);
        self.lemma_step_keeps_logs_in_order(step);
        crate::matching::lemma_history_extended(before, n.log, e);
        assert(history == before.insert(e.index as int, e));
        assert(after.nodes[node] == next);
        assert(after.nodes.dom() =~= self.nodes.dom());
        assert(self.leaders.contains_key((term, node)));
        assert(self.term_logs[term] == before);
        assert(after.term_logs == self.term_logs.insert(term, history));
        assert(after.acks =~= self.acks);
        assert(after.requests =~= self.requests);
        assert(after.grants =~= self.grants);
        assert(self.leads_to(after));
        assert forall|t: u64, i: int| #[trigger] after.own_entry(t, i) implies self.term_logs.contains_key(
            t,
        ) by {}
        assert(self.one_changes(after, node));
        assert(ascending(history)) by {
            assert forall|i: int, j: int|
                #![trigger history.contains_key(i), history.contains_key(j)]
                history.contains_key(i) && history.contains_key(j) && i
                    <= j implies history[i].term <= history[j].term by {
                if i != e.index {
                    assert(before.contains_key(i));
                }
                if j != e.index {
                    assert(before.contains_key(j));
                }
            }
        }
        self.lemma_terms_frame(after, node);
        assert forall|t: u64, i: int|
            after.own_entry(t, i) && #[trigger] after.has_held(t, node, i) implies agree(
            history,
            after.term_logs[t],
            i,
        ) || after.ruled_out(t, i, next.current_term) by {
            if t == term {
                assert forall|j: int| 0 < j <= i implies #[trigger] history.contains_key(j) by {
                    assert(history.contains_key(i));
                }
            } else {
                assert(self.own_entry(t, i));
                assert(self.has_held(t, node, i)) by {
                    if !(self.leaders.contains_key((t, node))
                        && self.term_logs[t].contains_key(i)) {
                        let k = choose|k: u64| #[trigger]
                            after.acks.contains(Ack { term: t, follower: node, index: k }) && i
                                <= k;
                        assert(self.acks.contains(Ack { term: t, follower: node, index: k }));
                    }
                }
                if agree(before, self.term_logs[t], i) {
                    assert forall|j: int| 0 < j <= i implies #[trigger] history.contains_key(j)
                        && after.term_logs[t].contains_key(j) && history[j]
                        == after.term_logs[t][j] by {
                        assert(before.contains_key(j));
                    }
                } else {
                    self.lemma_ruled_out_stays(after, t, i, term);
                }
            }
        }
        self.lemma_acks_frame(after, node);
        self.lemma_leaders_frame(after, node);
        self.lemma_requests_frame(after, node);
        self.lemma_votes_frame(after, node);
        self.lemma_sent_frame(after, node);
        self.lemma_decided_log_stays(after, commit, term);
        assert(after.decided(history, commit, term));
        self.lemma_commits_frame(after, node);
        self.lemma_matches_after_move(node, m);
        self.lemma_matches_frame(after, node);
    }

    /// A candidate that wins has everything that a majority may have held.
    proof fn lemma_winner_has_held_entries(
        self,
        node: NodeId,
        voters: Set<NodeId>,
        t: u64,
        i: int,
        m: NodeId,
    )
        requires
            self.safe(),
            self.nodes.contains_key(node),
            self.nodes[node].state is Candidate,
            !self.term_logs.contains_key(self.nodes[node].current_term),
            !voters.contains(node),
            forall|v: NodeId| #[trigger]
                voters.contains(v) ==> self.grants.contains(
                    Grant { term: self.nodes[node].current_term, voter: v, candidate: node },
                ),
            t < self.nodes[node].current_term,
            self.own_entry(t, i),
            m == node || voters.contains(m),
            self.has_held(t, m, i),
        ensures
            agree(self.histories[node], self.term_logs[t], i) || self.ruled_out(
                t,
                i,
                self.nodes[node].current_term,
            ),
    {
        let u = self.nodes[node].current_term;
        let own = self.histories[node];
        if m != node && !self.ruled_out(t, i, u) {
            let g = Grant { term: u, voter: m, candidate: node };
            assert(self.grants.contains(g));
            assert(self.vote_holds(g));
            let log = self.vote_logs[(u, m)];
            assert(agree(log, self.term_logs[t], i));
            assert(i > 0) by {
                assert(self.term_logs[t].contains_key(i));
            }
            assert(log.contains_key(i));
            assert(log[i].term == t);
            assert(has_as_recent(own, i, t));
            let j = choose|j: int| #[trigger]
                own.contains_key(j) && (own[j].term > t || own[j].term == t && j >= i);
            let w = own[j].term;
            assert(self.rooted_at(own, j));
            assert(w < u);
            if w > t {
                assert(self.term_logs.contains_key(w));
                if self.ruled_out(t, i, w) {
                    let later = choose|later: u64|
                        t < later <= w && #[trigger] self.ruled_out_by(t, i, later);
                    assert(self.ruled_out(t, i, u));
                }
                assert(agree(self.term_logs[w], self.term_logs[t], i));
                assert(self.term_logs[w].contains_key(i));
                assert(self.term_logs[w].contains_key(j));
            }
            assert forall|k: int| 0 < k <= i implies #[trigger] own.contains_key(k)
                && self.term_logs[t].contains_key(k) && own[k] == self.term_logs[t][k] by {
                assert(self.term_logs[w].contains_key(k));
            }
        }
    }

    #[verifier::rlimit(40)]
    proof fn lemma_win_stays_safe(self, step: ClusterStep<T>)
        requires
            self.safe(),
            self.can_step(step),
            step is Win,
        ensures
            self.after_step(step).safe(),
            self.leads_to(self.after_step(step)),
    {
        if let ClusterStep::Win { node, voters, last_client_id, last_seq_nums } = step {
            let after = self.after_step(step);
            let n = self.nodes[node];
            let next = n.become_leader(last_client_id, last_seq_nums);
            let u = n.current_term;
            let history = self.histories[node];
            let commit = n.commit_index as int;
            self.lemma_step_keeps_logs_in_order(step);
            crate::matching::lemma_history_stays(history, n.log);
            assert(after.histories =~= self.histories);
            assert(after.histories =~= self.histories.insert(node, history));
            assert(after.nodes.dom() =~= self.nodes.dom());
            assert(after.nodes[node] == next);
            if self.term_logs.contains_key(u) {
                let l = choose|l: NodeId| #[trigger] self.leaders.contains_key((u, l));
                assert(after.leaders.contains_key((u, l)));
                assert(after.leaders.contains_key((u, node)));
                after.one_leader_per_term(u, l, node);
            }
            assert(after.term_logs == self.term_logs.insert(u, history));
            assert(self.leads_to(after));
            assert forall|t: u64, i: int| #[trigger] after.own_entry(t, i) implies self.term_logs.contains_key(
                t,
            ) by {
                if t == u {
                    assert(self.rooted_at(history, i));
                }
            }
            assert(self.one_changes(after, node));
            self.lemma_terms_frame(after, node);
            assert forall|t: u64, i: int|
                after.own_entry(t, i) && #[trigger] after.has_held(t, node, i) implies agree(
                history,
                after.term_logs[t],
                i,
            ) || after.ruled_out(t, i, u) by {
                assert(self.own_entry(t, i));
                assert(self.has_held(t, node, i)) by {
                    if !(self.leaders.contains_key((t, node))
                        && self.term_logs[t].contains_key(i)) {
                        let k = choose|k: u64| #[trigger]
                            after.acks.contains(Ack { term: t, follower: node, index: k }) && i
                                <= k;
                        assert(self.acks.contains(Ack { term: t, follower: node, index: k }));
                    }
                }
                if !agree(history, self.term_logs[t], i) {
                    self.lemma_ruled_out_stays(after, t, i, u);
                }
            }
            assert forall|a: Ack| #[trigger] after.acks.contains(a) implies a.term != u by {
                assert(self.acks.contains(a));
            }
            self.lemma_acks_frame(after, node);
            assert forall|t: u64, i: int|
                #![trigger after.own_entry(t, i)]
                t < u && after.own_entry(t, i) implies agree(history, after.term_logs[t], i)
                || after.ruled_out(t, i, u) by {
                assert(self.own_entry(t, i));
                if exists|m: NodeId|
                    (m == node || voters.contains(m)) && #[trigger] self.has_held(t, m, i) {
                    let m = choose|m: NodeId|
                        (m == node || voters.contains(m)) && #[trigger] self.has_held(t, m, i);
                    self.lemma_winner_has_held_entries(node, voters, t, i, m);
                    if !agree(history, self.term_logs[t], i) {
                        self.lemma_ruled_out_stays(after, t, i, u);
                    }
                } else {
                    assert(after.leaders.contains_key((u, node)));
                    assert forall|v: NodeId|
                        v == node || after.leaders[(u, node)].contains(v) implies !(
                    #[trigger] after.has_held(t, v, i)) by {
                        assert(!self.has_held(t, v, i));
                        if after.has_held(t, v, i) {
                            if !(self.leaders.contains_key((t, v))
                                && self.term_logs[t].contains_key(i)) {
                                let k = choose|k: u64| #[trigger]
                                    after.acks.contains(Ack { term: t, follower: v, index: k })
                                        && i <= k;
                                assert(self.acks.contains(Ack { term: t, follower: v, index: k }));
                            }
                        }
                    }
                    assert(after.ruled_out_by(t, i, u));
                }
            }
            self.lemma_leaders_frame(after, node);
            self.lemma_requests_frame(after, node);
            self.lemma_votes_frame(after, node);
            self.lemma_sent_frame(after, node);
            self.lemma_decided_stays(after, history, commit, u);
            assert(after.decided(history, commit, u));
            self.lemma_commits_frame(after, node);
            assert(after.matches_of(node)) by {
                let peers = n.config.peers@.to_set();
                vstd::seq_lib::seq_to_set_is_finite(n.config.peers@);
                assert(next.leader->0.match_index.dom() =~= peers);
            }
            self.lemma_matches_frame(after, node);
        }
    }
}

// ---- safety ----

impl<T> ClusterView<T> {
    /// A move that neither changes the log nor reports anything keeps the cluster safe.
    proof fn lemma_plain_act(self, node: NodeId, m: Move<T>)
        requires
            self.safe(),
            self.can_step(ClusterStep::Act { node, m }),
            self.sound(ClusterStep::Act { node, m }),
            self.nodes[node].log_after_move(m) == self.nodes[node].log,
            self.acked(node, m).is_empty(),
            m matches Move::Event { event: EventView::AppendEntriesReceived(_), .. }
                ==> self.nodes[node].state is Leader,
        ensures
            self.after_step(ClusterStep::Act { node, m }).safe(),
            self.leads_to(self.after_step(ClusterStep::Act { node, m })),
    {
        let n = self.nodes[node];
        let next = n.after_move(m);
        n.lemma_log_after_move(m);
        n.lemma_move_and_vote(m);
        if next.state is Leader {
            self.lemma_leader_commit_decided(node, m);
        } else {
            assert(next.commit_index == n.commit_index);
            self.lemma_decided_later(
                self.histories[node],
                n.commit_index as int,
                n.current_term,
                next.current_term,
            );
        }
        self.lemma_quiet_act(node, m);
    }

    proof fn lemma_act_stays_safe(self, node: NodeId, m: Move<T>)
        requires
            self.safe(),
            self.can_step(ClusterStep::Act { node, m }),
            self.sound(ClusterStep::Act { node, m }),
        ensures
            self.after_step(ClusterStep::Act { node, m }).safe(),
            self.leads_to(self.after_step(ClusterStep::Act { node, m })),
    {
        let n = self.nodes[node];
        n.lemma_move_and_vote(m);
        match m {
            Move::Event { event: EventView::AppendEntriesReceived(req), .. } => {
                if n.state is Leader {
                    self.lemma_plain_act(node, m);
                } else if n.append_verdict(req) is Accepted && req.entries.len() > 0 {
                    self.lemma_entries_stay_safe(node, m, req);
                } else {
                    self.lemma_unchanged_by_request(node, m, req);
                }
            },
            Move::Event { event: EventView::ClientRequest(req), .. } => {
                if n.state is Leader && n.client_verdict(req) is Append {
                    self.lemma_entry_stays_safe(node, m, n.entry_for(req));
                } else {
                    self.lemma_plain_act(node, m);
                }
            },
            Move::Event { event: EventView::SnapshotCompleted(index, term), .. } => {
                self.lemma_compacted_stays_safe(node, m, index, term);
            },
            Move::Installed { req } => {
                if req.last_included_index > n.log.last_index() {
                    self.lemma_beyond_stays_safe(node, m, req);
                } else {
                    self.lemma_installed_stays_safe(node, m);
                }
            },
            _ => self.lemma_plain_act(node, m),
        }
    }

    proof fn lemma_step_stays_safe(self, step: ClusterStep<T>)
        requires
            self.safe(),
            self.can_step(step),
            self.sound(step),
        ensures
            self.after_step(step).safe(),
            self.leads_to(self.after_step(step)),
    {
        match step {
            ClusterStep::Act { node, m } => self.lemma_act_stays_safe(node, m),
            ClusterStep::Campaign { node } => self.lemma_campaign_stays_safe(node),
            ClusterStep::Win { .. } => self.lemma_win_stays_safe(step),
            ClusterStep::Send { node, follower } => self.lemma_send_stays_safe(node, follower),
            ClusterStep::Restart { node, index, term } => {
                self.lemma_restart_stays_safe(node, index, term);
            },
        }
    }

    /// None of the steps is one by which a committed entry can get lost.
    pub open spec fn sound_steps(self, steps: Seq<ClusterStep<T>>) -> bool
        decreases steps.len(),
    {
        steps.len() > 0 ==> {
            &&& self.sound_steps(steps.drop_last())
            &&& self.after_steps(steps.drop_last()).sound(steps.last())
        }
    }

    /// A safe cluster stays safe over sound steps, and what is decided stays decided.
    proof fn lemma_steps_stay_safe(
        self,
        steps: Seq<ClusterStep<T>>,
        history: Map<int, EntryView>,
        n: int,
        term: u64,
    )
        requires
            self.safe(),
            self.can_take(steps),
            self.sound_steps(steps),
        ensures
            self.after_steps(steps).safe(),
            self.decided(history, n, term) ==> self.after_steps(steps).decided(history, n, term),
        decreases steps.len(),
    {
        if steps.len() > 0 {
            let before = self.after_steps(steps.drop_last());
            self.lemma_steps_stay_safe(steps.drop_last(), history, n, term);
            before.lemma_step_stays_safe(steps.last());
            if before.decided(history, n, term) {
                before.lemma_decided_stays(self.after_steps(steps), history, n, term);
            }
        }
    }

    /// Whatever the sound steps of a cluster in which nothing has happened yet, the cluster
    /// is safe.
    pub proof fn stays_safe(self, steps: Seq<ClusterStep<T>>)
        requires
            self.blank(),
            self.can_take(steps),
            self.sound_steps(steps),
        ensures
            self.after_steps(steps).safe(),
    {
        self.logs_stay_in_order(Seq::empty());
        self.lemma_steps_stay_safe(steps, Map::empty(), 0, 0);
    }

    /// Logs that are decided agree as far as both are.
    proof fn lemma_decided_logs_agree(
        self,
        a: Map<int, EntryView>,
        n: int,
        term_a: u64,
        b: Map<int, EntryView>,
        m: int,
        term_b: u64,
        i: int,
    )
        requires
            self.safe(),
            self.decided(a, n, term_a),
            self.decided(b, m, term_b),
            0 < i <= n,
            i <= m,
        ensures
            a.contains_key(i) && b.contains_key(i) && a[i] == b[i],
    {
        let (t, k) = choose|t: u64, k: int| #[trigger]
            self.chosen(t, k) && t <= term_a && n <= k && agree(a, self.term_logs[t], n);
        let (u, l) = choose|u: u64, l: int| #[trigger]
            self.chosen(u, l) && u <= term_b && m <= l && agree(b, self.term_logs[u], m);
        assert(self.decided(a, n, t));
        assert(self.decided(b, m, u));
        if t <= u {
            self.lemma_leader_has_decided(a, n, t, u);
        } else {
            self.lemma_leader_has_decided(b, m, u, t);
        }
        assert(a.contains_key(i) && b.contains_key(i));
    }

    /// What one node has committed at some time and another node has committed at the same
    /// time or later is the same: at an index up to which both have committed, both have the
    /// same entry.
    pub proof fn state_machine_safety(
        self,
        steps: Seq<ClusterStep<T>>,
        later: Seq<ClusterStep<T>>,
        a: NodeId,
        b: NodeId,
        i: int,
    )
        requires
            self.blank(),
            self.can_take(steps),
            self.sound_steps(steps),
            self.after_steps(steps).can_take(later),
            self.after_steps(steps).sound_steps(later),
            self.nodes.contains_key(a),
            self.nodes.contains_key(b),
            0 < i <= self.after_steps(steps).nodes[a].commit_index,
            i <= self.after_steps(steps).after_steps(later).nodes[b].commit_index,
        ensures
            ({
                let now = self.after_steps(steps);
                let end = now.after_steps(later);
                &&& now.histories[a].contains_key(i) && end.histories[b].contains_key(i)
                &&& now.histories[a][i] == end.histories[b][i]
                &&& now.nodes[a].log.entry_at(i) is Some && end.nodes[b].log.entry_at(i) is Some
                    ==> now.nodes[a].log.entry_at(i) == end.nodes[b].log.entry_at(i)
            }),
    {
        let now = self.after_steps(steps);
        let end = now.after_steps(later);
        self.stays_safe(steps);
        self.lemma_same_members(steps);
        now.lemma_same_members(later);
        let committed = now.nodes[a].commit_index as int;
        let term = now.nodes[a].current_term;
        assert(now.nodes.contains_key(a));
        assert(end.nodes.contains_key(b));
        now.lemma_steps_stay_safe(later, now.histories[a], committed, term);
        end.lemma_decided_logs_agree(
            now.histories[a],
            committed,
            term,
            end.histories[b],
            end.nodes[b].commit_index as int,
            end.nodes[b].current_term,
            i,
        );
        now.nodes[a].log.lemma_contiguous();
        end.nodes[b].log.lemma_contiguous();
        if now.nodes[a].log.entry_at(i) is Some {
            assert(now.nodes[a].log.entry_at(i) == Some(now.histories[a][i]));
        }
        if end.nodes[b].log.entry_at(i) is Some {
            assert(end.nodes[b].log.entry_at(i) == Some(end.histories[b][i]));
        }
    }

    /// Every leader of the same term or a later one has everything that a node has ever
    /// committed.
    pub proof fn leader_completeness(
        self,
        steps: Seq<ClusterStep<T>>,
        later: Seq<ClusterStep<T>>,
        a: NodeId,
        l: NodeId,
    )
        requires
            self.blank(),
            self.can_take(steps),
            self.sound_steps(steps),
            self.after_steps(steps).can_take(later),
            self.after_steps(steps).sound_steps(later),
            self.nodes.contains_key(a),
            self.nodes.contains_key(l),
            self.after_steps(steps).after_steps(later).nodes[l].state is Leader,
            self.after_steps(steps).after_steps(later).nodes[l].current_term >= self.after_steps(
                steps,
            ).nodes[a].current_term,
        ensures
            ({
                let now = self.after_steps(steps);
                let end = now.after_steps(later);
                forall|i: int|
                    0 < i <= now.nodes[a].commit_index ==> #[trigger] end.histories[l].contains_key(
                        i,
                    ) && end.histories[l][i] == now.histories[a][i]
            }),
    {
        let now = self.after_steps(steps);
        let end = now.after_steps(later);
        self.stays_safe(steps);
        self.lemma_same_members(steps);
        now.lemma_same_members(later);
        let committed = now.nodes[a].commit_index as int;
        let term = now.nodes[a].current_term;
        assert(now.nodes.contains_key(a));
        assert(end.nodes.contains_key(l));
        now.lemma_steps_stay_safe(later, now.histories[a], committed, term);
        let u = end.nodes[l].current_term;
        assert(end.term_logs.contains_key(u) && end.term_logs[u] == end.histories[l]);
        end.lemma_leader_has_decided(now.histories[a], committed, term, u);
        assert forall|i: int| 0 < i <= committed implies #[trigger] end.histories[l].contains_key(i)
            && end.histories[l][i] == now.histories[a][i] by {
            assert(now.histories[a].contains_key(i));
        }
    }
}

/// The first `n` entries of a log.
pub open spec fn first_entries(history: Map<int, EntryView>, n: nat) -> Seq<EntryView> {
    Seq::new(n, |k: int| history[k + 1])
}

/// Deterministic state machines that start alike and carry out what two nodes have
/// committed, each at its own time, give the same results and are in the same state once
/// they have carried out the same number of entries.
pub proof fn replicas_stay_alike<T, S: crate::traits::StateMachine>(
    start: ClusterView<T>,
    steps: Seq<ClusterStep<T>>,
    later: Seq<ClusterStep<T>>,
    a: NodeId,
    b: NodeId,
    n: nat,
    before: S,
    results_a: Seq<crate::types::ResultView>,
    after_a: S,
    results_b: Seq<crate::types::ResultView>,
    after_b: S,
)
    requires
        start.blank(),
        start.can_take(steps),
        start.sound_steps(steps),
        start.after_steps(steps).can_take(later),
        start.after_steps(steps).sound_steps(later),
        start.nodes.contains_key(a),
        start.nodes.contains_key(b),
        n <= start.after_steps(steps).nodes[a].commit_index,
        n <= start.after_steps(steps).after_steps(later).nodes[b].commit_index,
        crate::agreement::deterministic::<S>(),
        crate::apply::executes_all(
            before,
            first_entries(start.after_steps(steps).histories[a], n),
            results_a,
            after_a,
        ),
        crate::apply::executes_all(
            before,
            first_entries(start.after_steps(steps).after_steps(later).histories[b], n),
            results_b,
            after_b,
        ),
    ensures
        results_a == results_b,
        after_a == after_b,
{
    let entries_a = first_entries(start.after_steps(steps).histories[a], n);
    let entries_b = first_entries(start.after_steps(steps).after_steps(later).histories[b], n);
    assert forall|k: int| 0 <= k < n implies entries_a[k] == entries_b[k] by {
        start.state_machine_safety(steps, later, a, b, k + 1);
    }
    assert(entries_a =~= entries_b);
    crate::agreement::same_entries_same_state(
        before,
        entries_a,
        results_a,
        after_a,
        results_b,
        after_b,
    );
}

/// A node that restores a snapshot which another node, or itself, made of its first entries,
/// and then carries out what it has committed after them, is in the state of one that has
/// carried out everything that it has committed.
///
/// `made` are the steps up to where the snapshot was made, by `a` of its first `i` entries.
pub proof fn restored_replica_is_alike<T, S: crate::traits::StateMachine>(
    start: ClusterView<T>,
    made: Seq<ClusterStep<T>>,
    later: Seq<ClusterStep<T>>,
    a: NodeId,
    b: NodeId,
    i: nat,
    n: nat,
    before: S,
    first_results: Seq<crate::types::ResultView>,
    state: S,
    snapshot: Seq<u8>,
    over: S,
    restored: S,
    rest_results: Seq<crate::types::ResultView>,
    after: S,
)
    requires
        start.blank(),
        start.can_take(made),
        start.sound_steps(made),
        start.after_steps(made).can_take(later),
        start.after_steps(made).sound_steps(later),
        start.nodes.contains_key(a),
        start.nodes.contains_key(b),
        i <= start.after_steps(made).nodes[a].commit_index,
        i <= n <= start.after_steps(made).after_steps(later).nodes[b].commit_index,
        crate::agreement::snapshots_hold_the_state::<S>(),
        crate::apply::executes_all(
            before,
            first_entries(start.after_steps(made).histories[a], i),
            first_results,
            state,
        ),
        state.serialises(snapshot),
        over.restores(snapshot, None, restored),
        crate::apply::executes_all(
            restored,
            first_entries(start.after_steps(made).after_steps(later).histories[b], n).skip(
                i as int,
            ),
            rest_results,
            after,
        ),
    ensures
        crate::apply::executes_all(
            before,
            first_entries(start.after_steps(made).after_steps(later).histories[b], n),
            first_results + rest_results,
            after,
        ),
{
    let first = first_entries(start.after_steps(made).histories[a], i);
    let all = first_entries(start.after_steps(made).after_steps(later).histories[b], n);
    assert forall|k: int| 0 <= k < i implies first[k] == all[k] by {
        start.state_machine_safety(made, later, a, b, k + 1);
    }
    assert(first + all.skip(i as int) =~= all);
    crate::agreement::snapshot_stands_for_its_entries(
        before,
        first,
        first_results,
        state,
        snapshot,
        over,
        restored,
        all.skip(i as int),
        rest_results,
        after,
        first_results + rest_results,
        after,
    );
}

} // verus!
