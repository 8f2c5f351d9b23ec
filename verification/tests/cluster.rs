//! Whole clusters, driven message by message in memory.

use raft::client::{ClientStep, RaftClient};
use raft::election::VoteOutcome;
use raft::events::{RaftEvent, Step};
use raft::log::LogEntry;
use raft::messages::{InstallSnapshotResponse, RequestVoteRequest};
use raft::model::{FollowerMessage, StorageOp};
use raft::raft::{RaftNode, State};
use raft::recovery::restore_snapshot;
use raft::snapshot::SnapshotLoad;
use raft::traits::StateMachine;
use raft::{ClientId, ClientRequest, CommandResult, Config, NodeId, RaftCommand, SeqNum};
use std::collections::{BTreeMap, HashMap, VecDeque};
use std::sync::Arc;

/// `put key value` and `get key`.
#[derive(Default)]
struct Store {
    db: BTreeMap<String, String>,
}

impl StateMachine for Store {
    fn apply(&mut self, command: &[u8]) -> Result<Vec<u8>, String> {
        let text = String::from_utf8(command.to_vec()).map_err(|e| e.to_string())?;
        let words: Vec<&str> = text.split(' ').collect();
        match words.as_slice() {
            ["put", key, value] => {
                self.db.insert(key.to_string(), value.to_string());
                Ok(vec![])
            }
            ["get", key] => Ok(self.db.get(*key).cloned().unwrap_or_default().into_bytes()),
            _ => Err("unknown command".to_string()),
        }
    }

    fn snapshot(&self) -> Result<Vec<u8>, String> {
        let lines: Vec<String> = self.db.iter().map(|(k, v)| format!("{} {}", k, v)).collect();
        Ok(lines.join("\n").into_bytes())
    }

    fn restore(&mut self, snapshot: &[u8]) -> Result<(), String> {
        let text = String::from_utf8(snapshot.to_vec()).map_err(|e| e.to_string())?;
        self.db.clear();
        for line in text.lines() {
            let (k, v) = line.split_once(' ').ok_or("broken snapshot")?;
            self.db.insert(k.to_string(), v.to_string());
        }
        Ok(())
    }
}

#[derive(Default)]
struct Disk {
    term: u64,
    voted_for: Option<NodeId>,
    log: Vec<LogEntry>,
    snapshot: Option<(u64, u64, Vec<u8>)>,
    clients: Option<(ClientId, HashMap<u64, SeqNum>)>,
}

impl Disk {
    fn carry_out(&mut self, ops: Vec<StorageOp>) {
        for op in ops {
            match op {
                StorageOp::SaveTerm { term, voted_for } => {
                    self.term = term;
                    self.voted_for = voted_for;
                }
                StorageOp::AppendLog { entries } => {
                    if let Some(first) = entries.first().map(|e| e.index) {
                        self.log.retain(|e| e.index < first);
                    }
                    self.log.extend(entries);
                }
                StorageOp::TruncateLog { index } => self.log.retain(|e| e.index > index),
            }
        }
    }
}

struct Member {
    node: RaftNode<u64>,
    store: Store,
    disk: Disk,
    alive: bool,
}

/// To whom a node answers.
enum Origin {
    Nobody,
    Leader { id: NodeId, target: u64 },
}

struct Cluster {
    members: BTreeMap<NodeId, Member>,
    queue: VecDeque<(NodeId, RaftEvent<u64>, Origin)>,
    replies: HashMap<u64, CommandResult>,
    tickets: u64,
}

fn config(id: NodeId, count: u64) -> Config {
    Config {
        node_id: id,
        peers: (1..=count).filter(|p| *p != id).collect(),
        snapshot_threshold: 5,
        ..Config::default()
    }
}

impl Cluster {
    fn new(count: u64) -> Cluster {
        let mut members = BTreeMap::new();
        for id in 1..=count {
            let node = RaftNode::new(config(id, count), 0, None, None, vec![]).unwrap();
            members.insert(
                id,
                Member { node, store: Store::default(), disk: Disk::default(), alive: true },
            );
        }
        Cluster { members, queue: VecDeque::new(), replies: HashMap::new(), tickets: 0 }
    }

    fn node(&mut self, id: NodeId) -> &mut RaftNode<u64> {
        &mut self.members.get_mut(&id).unwrap().node
    }

    fn kill(&mut self, id: NodeId) {
        self.members.get_mut(&id).unwrap().alive = false;
    }

    fn restart(&mut self, id: NodeId) {
        let count = self.members.len() as u64;
        let member = self.members.get_mut(&id).unwrap();
        member.store = Store::default();
        let snapshot = restore_snapshot(&mut member.store, member.disk.snapshot.clone()).unwrap();
        member.node = RaftNode::new(
            config(id, count),
            member.disk.term,
            member.disk.voted_for,
            snapshot,
            member.disk.log.clone(),
        )
        .unwrap();
        member.alive = true;
    }

    /// Lets a node run for leadership.  Returns whether it won.
    fn campaign(&mut self, id: NodeId) -> bool {
        let member = self.members.get_mut(&id).unwrap();
        if member.node.state == State::Follower {
            member.node.election_timeout();
        }
        let start = member.node.begin_candidacy();
        member.disk.carry_out(vec![start.save]);
        let request: RequestVoteRequest = start.request;
        let mut votes: usize = start.votes_granted;
        for peer in member.node.config.peers.clone() {
            let other = self.members.get_mut(&peer).unwrap();
            if !other.alive {
                continue;
            }
            let reaction = other.node.handle_event(RaftEvent::VoteRequestReceived(request));
            let vote = match reaction.step {
                Step::Vote { storage, vote } => {
                    other.disk.carry_out(storage);
                    vote
                }
                step => panic!("{:?}", step),
            };
            let member = self.members.get_mut(&id).unwrap();
            match member.node.handle_vote_response(vote, &mut votes) {
                VoteOutcome::SteppedDown { save } => {
                    member.disk.carry_out(vec![save]);
                    return false;
                }
                VoteOutcome::Elected => {
                    let loaded = Ok(member.disk.clients.clone().unwrap_or((ClientId::new(0), HashMap::new())));
                    member.node.become_leader(loaded);
                    self.heartbeat(id);
                    return true;
                }
                VoteOutcome::Waiting => {}
            }
        }
        false
    }

    fn heartbeat(&mut self, id: NodeId) {
        for peer in self.node(id).config.peers.clone() {
            self.send_to(id, peer);
        }
    }

    fn send_to(&mut self, id: NodeId, follower: NodeId) {
        assert!(self.node(id).can_send_to(follower));
        match self.node(id).append_entries_for(follower) {
            FollowerMessage::AppendEntries { request, match_target } => {
                let origin = Origin::Leader { id, target: match_target };
                self.queue.push_back((follower, RaftEvent::AppendEntriesReceived(request), origin));
            }
            FollowerMessage::InstallSnapshot { offer } => {
                let loaded = self.members[&id].disk.snapshot.clone();
                match offer.complete(Ok(loaded)) {
                    SnapshotLoad::Send { request } => {
                        let origin = Origin::Leader { id, target: offer.last_included_index };
                        self.queue.push_back((follower, RaftEvent::InstallSnapshotReceived(request), origin));
                    }
                    other => panic!("{:?}", other),
                }
            }
        }
    }

    /// Delivers everything that is on its way, and what follows from it.
    fn settle(&mut self) {
        while let Some((to, event, origin)) = self.queue.pop_front() {
            if self.members[&to].alive {
                self.deliver(to, event, origin);
            }
        }
    }

    fn deliver(&mut self, to: NodeId, event: RaftEvent<u64>, origin: Origin) {
        let member = self.members.get_mut(&to).unwrap();
        assert!(member.node.can_handle_event(&event));
        let reaction = member.node.handle_event(event);
        match reaction.step {
            Step::Ignore => {}
            Step::Shutdown => {
                let farewell = member.node.shutdown();
                member.disk.carry_out(vec![farewell.save_term]);
                member.alive = false;
                for (_, ticket) in farewell.waiting {
                    self.replies.insert(ticket, farewell.result.clone());
                }
            }
            Step::Answer { to, result } => {
                self.replies.insert(to, result);
            }
            Step::Replicate { storage } => {
                member.disk.carry_out(storage);
                self.heartbeat(to);
            }
            Step::AppendEntries { storage, response, apply } => {
                member.disk.carry_out(storage);
                if apply {
                    assert!(member.node.can_apply());
                    member.node.apply_committed(&mut member.store);
                }
                assert!(member.node.last_applied >= member.node.commit_index);
                if let Origin::Leader { id, target } = origin {
                    let event = RaftEvent::AppendEntriesResponse(response, to, target);
                    self.queue.push_back((id, event, Origin::Nobody));
                }
            }
            Step::Vote { storage, .. } => member.disk.carry_out(storage),
            Step::InstallSnapshot { storage, request } => {
                member.disk.carry_out(storage);
                let installed = member.store.restore(&request.data).is_ok();
                if installed {
                    member.disk.snapshot = Some((
                        request.last_included_index,
                        request.last_included_term,
                        request.data.clone(),
                    ));
                }
                let (response, storage) = member.node.finish_install_snapshot(&request, installed);
                member.disk.carry_out(storage);
                self.answer_snapshot(to, response, origin);
            }
            Step::RefuseSnapshot { refusal } => self.answer_snapshot(to, refusal, origin),
            Step::Persist { storage } => member.disk.carry_out(storage),
            Step::Resend { follower } => self.send_to(to, follower),
            Step::Apply => {
                assert!(member.node.can_apply_as_leader());
                let applied = member.node.apply_committed_as_leader(&mut member.store);
                for (ticket, result) in applied.answers {
                    self.replies.insert(ticket, result);
                }
                if applied.save_client_state {
                    let leader = member.node.leader_state.as_ref().unwrap();
                    member.disk.clients = Some((leader.last_client_id, leader.last_seq_nums.clone()));
                }
                if let Some((index, term)) = applied.snapshot {
                    member.disk.snapshot = Some((index, term, member.store.snapshot().unwrap()));
                    self.queue.push_back((to, RaftEvent::SnapshotCompleted(index, term), Origin::Nobody));
                }
            }
        }
    }

    fn answer_snapshot(&mut self, from: NodeId, response: InstallSnapshotResponse, origin: Origin) {
        if let Origin::Leader { id, target } = origin {
            let event = RaftEvent::InstallSnapshotResponseReceived(response, from, target);
            self.queue.push_back((id, event, Origin::Nobody));
        }
    }

    fn ask(&mut self, id: NodeId, mut req: ClientRequest<u64>) -> CommandResult {
        self.tickets += 1;
        let ticket = self.tickets;
        req.response_tx = ticket;
        if !self.members[&id].alive {
            return CommandResult::Error("no connection".to_string());
        }
        self.queue.push_back((id, RaftEvent::ClientRequest(req), Origin::Nobody));
        self.settle();
        match self.replies.remove(&ticket) {
            Some(result) => result,
            None => CommandResult::Error("timeout".to_string()),
        }
    }

    fn register(&mut self, id: NodeId) -> CommandResult {
        if !self.members[&id].alive {
            return CommandResult::Error("no connection".to_string());
        }
        match self.node(id).register_client(0) {
            Ok(req) => self.ask(id, req),
            Err(result) => result,
        }
    }

    fn init_session(&mut self, client: &mut RaftClient<()>) -> Result<(), String> {
        let mut target = client.target();
        let mut failed: usize = 0;
        loop {
            let reply = self.register(target);
            match client.init_session_step(failed, reply) {
                ClientStep::Retry { target: next, attempts } => {
                    target = next;
                    failed = attempts;
                }
                ClientStep::Done { outcome } => return outcome,
            }
        }
    }

    fn send(&mut self, client: &mut RaftClient<()>, text: &str) -> Result<String, String> {
        let mut failed: usize = 0;
        loop {
            let request = client.command_request(&text.as_bytes().to_vec())?;
            let req = ClientRequest {
                client_id: request.client_id,
                seq_num: request.seq_num,
                last_received_seq: request.last_received_seq,
                command: RaftCommand::ClientCommand(request.command),
                response_tx: 0,
            };
            let reply = self.ask(client.target(), req);
            match client.send_command_step(failed, reply) {
                ClientStep::Retry { attempts, .. } => failed = attempts,
                ClientStep::Done { outcome } => {
                    return outcome.map(|bytes| String::from_utf8(bytes).unwrap());
                }
            }
        }
    }

    fn leaders(&self) -> Vec<NodeId> {
        self.members
            .iter()
            .filter(|(_, m)| m.alive && m.node.state == State::Leader)
            .map(|(id, _)| *id)
            .collect()
    }

    fn terms(&self, id: NodeId) -> Vec<u64> {
        let log = &self.members[&id].node.log;
        (log.snapshot_index() + 1..=log.last_index()).map(|i| log.get(i).unwrap().term).collect()
    }
}

fn client() -> RaftClient<()> {
    RaftClient::new(1, vec![1, 2, 3], Arc::new(()))
}

#[test]
fn test_put_get() {
    let mut cluster = Cluster::new(3);
    assert!(cluster.campaign(2));
    cluster.settle();
    let mut client = client();
    cluster.init_session(&mut client).unwrap();
    assert_eq!(client.target(), 2);
    cluster.send(&mut client, "put k1 v1").unwrap();
    assert_eq!(cluster.send(&mut client, "get k1").unwrap(), "v1");
    cluster.heartbeat(2);
    cluster.settle();
    for id in 1..=3 {
        assert_eq!(cluster.members[&id].store.db["k1"], "v1");
        assert_eq!(cluster.terms(id), vec![1, 1, 1]);
    }
}

#[test]
fn test_leader_crash() {
    let mut cluster = Cluster::new(3);
    assert!(cluster.campaign(1));
    cluster.settle();
    let mut client = client();
    cluster.init_session(&mut client).unwrap();
    cluster.send(&mut client, "put k1 v1").unwrap();
    cluster.heartbeat(1);
    cluster.settle();
    cluster.kill(1);
    assert!(cluster.campaign(3));
    cluster.settle();
    assert_eq!(cluster.send(&mut client, "get k1").unwrap(), "v1");
    cluster.send(&mut client, "put k2 v2").unwrap();
    assert_eq!(cluster.send(&mut client, "get k2").unwrap(), "v2");
    assert_eq!(cluster.leaders(), vec![3]);
}

#[test]
fn test_snapshot_recovery() {
    let mut cluster = Cluster::new(3);
    assert!(cluster.campaign(1));
    cluster.settle();
    let mut client = client();
    cluster.init_session(&mut client).unwrap();
    for i in 0..15 {
        cluster.send(&mut client, &format!("put key{} value{}", i, i)).unwrap();
    }
    assert_eq!(cluster.node(1).log.snapshot_index(), 15);
    assert_eq!(cluster.members[&1].disk.snapshot.as_ref().unwrap().0, 15);
    cluster.kill(2);
    assert_eq!(cluster.send(&mut client, "get key14").unwrap(), "value14");
    cluster.kill(1);
    cluster.restart(1);
    assert_eq!(cluster.node(1).log.snapshot_index(), 15);
    assert_eq!(cluster.node(1).last_applied, 15);
    assert_eq!(cluster.members[&1].store.db["key13"], "value13");
}

#[test]
fn lagging_follower_is_sent_the_snapshot() {
    let mut cluster = Cluster::new(3);
    assert!(cluster.campaign(1));
    cluster.settle();
    let mut client = client();
    cluster.init_session(&mut client).unwrap();
    cluster.send(&mut client, "put a 0").unwrap();
    cluster.heartbeat(1);
    cluster.settle();
    cluster.kill(3);
    for i in 0..6 {
        cluster.send(&mut client, &format!("put b {}", i)).unwrap();
    }
    assert!(cluster.node(1).log.snapshot_index() > cluster.node(3).log.last_index());
    cluster.restart(3);
    assert!(matches!(
        cluster.node(1).append_entries_for(3),
        FollowerMessage::InstallSnapshot { .. }
    ));
    cluster.send_to(1, 3);
    let (to, event, origin) = cluster.queue.pop_front().unwrap();
    cluster.deliver(to, event, origin);
    let snapshot_index = cluster.node(1).log.snapshot_index();
    assert_eq!(cluster.members[&3].disk.snapshot.as_ref().unwrap().0, snapshot_index);
    assert_eq!(cluster.node(3).last_applied, snapshot_index);
    assert_eq!(cluster.members[&3].store.db, cluster.members[&1].disk_view());
    assert_eq!(cluster.node(3).log.snapshot_index(), snapshot_index);
    assert_eq!(cluster.node(3).log.snapshot_term(), 1);
    assert_eq!(cluster.node(3).log.last_index(), snapshot_index);
    cluster.settle();
    cluster.send(&mut client, "put b last").unwrap();
    cluster.heartbeat(1);
    cluster.settle();
    let last = cluster.node(1).log.last_index();
    assert!(last > snapshot_index);
    assert_eq!(cluster.node(3).log.last_index(), last);
    assert_eq!(cluster.node(3).last_applied, last);
    assert_eq!(cluster.members[&3].store.db["b"], "last");
    assert_eq!(cluster.members[&3].store.db, cluster.members[&1].store.db);
    cluster.restart(3);
    assert_eq!(cluster.node(3).log.snapshot_index(), snapshot_index);
    cluster.kill(1);
    assert!(cluster.campaign(3));
    cluster.settle();
    assert_eq!(cluster.send(&mut client, "get b").unwrap(), "last");
}

#[test]
fn clients_of_different_leaders_have_different_ids() {
    let mut cluster = Cluster::new(3);
    let mut ids = vec![];
    for id in [1, 2, 3] {
        assert!(cluster.campaign(id) || cluster.campaign(id));
        cluster.settle();
        let mut session = RaftClient::new(id, vec![1, 2, 3], Arc::new(()));
        cluster.init_session(&mut session).unwrap();
        cluster.heartbeat(id);
        cluster.settle();
        ids.push(session.command_request(&vec![]).unwrap().client_id.to_u64());
    }
    assert_eq!(ids, vec![1, 2, 3]);
}

#[test]
fn command_that_was_given_up_does_not_hide_the_next() {
    let mut cluster = Cluster::new(3);
    assert!(cluster.campaign(1));
    cluster.settle();
    let mut session = client();
    cluster.init_session(&mut session).unwrap();
    cluster.kill(2);
    cluster.kill(3);
    assert!(cluster.send(&mut session, "put a 1").is_err());
    cluster.restart(2);
    cluster.heartbeat(1);
    cluster.settle();
    assert_eq!(cluster.send(&mut session, "put a 2").unwrap(), "");
    assert_eq!(cluster.send(&mut session, "get a").unwrap(), "2");
}

impl Member {
    /// What the stored snapshot holds.
    fn disk_view(&self) -> BTreeMap<String, String> {
        let mut store = Store::default();
        store.restore(&self.disk.snapshot.as_ref().unwrap().2).unwrap();
        store.db
    }
}

#[test]
fn a_term_has_one_leader() {
    let mut cluster = Cluster::new(5);
    assert!(cluster.campaign(1));
    cluster.settle();
    assert_eq!(cluster.leaders(), vec![1]);
    cluster.kill(1);
    assert!(cluster.campaign(2));
    cluster.settle();
    cluster.kill(3);
    cluster.kill(4);
    assert!(!cluster.campaign(5));
    assert_eq!(cluster.node(5).state, State::Candidate);
    cluster.restart(3);
    assert_eq!(cluster.members[&3].node.voted_for, Some(2));
    assert!(cluster.campaign(5));
    cluster.settle();
    assert_eq!(cluster.leaders(), vec![5]);
}

#[test]
fn outdated_node_does_not_win() {
    let mut cluster = Cluster::new(3);
    assert!(cluster.campaign(1));
    cluster.settle();
    let mut client = client();
    cluster.init_session(&mut client).unwrap();
    cluster.kill(3);
    cluster.send(&mut client, "put a 1").unwrap();
    cluster.kill(1);
    cluster.restart(3);
    assert!(!cluster.campaign(3));
    assert!(cluster.campaign(2) || cluster.campaign(2));
    cluster.settle();
    assert_eq!(cluster.send(&mut client, "get a").unwrap(), "1");
}

#[test]
fn divergent_entries_are_replaced() {
    let mut cluster = Cluster::new(3);
    assert!(cluster.campaign(1));
    cluster.settle();
    let mut session = client();
    cluster.init_session(&mut session).unwrap();
    cluster.heartbeat(1);
    cluster.settle();
    cluster.kill(2);
    cluster.kill(3);
    assert!(cluster.send(&mut session, "put lost 1").is_err());
    assert_eq!(cluster.terms(1), vec![1, 1]);
    cluster.kill(1);
    cluster.restart(2);
    cluster.restart(3);
    assert!(cluster.campaign(3));
    cluster.settle();
    let mut other = RaftClient::new(3, vec![1, 2, 3], Arc::new(()));
    cluster.init_session(&mut other).unwrap();
    cluster.send(&mut other, "put kept 2").unwrap();
    cluster.restart(1);
    cluster.heartbeat(3);
    cluster.settle();
    cluster.heartbeat(3);
    cluster.settle();
    assert_eq!(cluster.terms(1), cluster.terms(3));
    assert!(!cluster.members[&1].store.db.contains_key("lost"));
    assert_eq!(cluster.members[&1].store.db["kept"], "2");
    let terms = cluster.terms(1);
    cluster.restart(1);
    assert_eq!(cluster.terms(1), terms);
}

#[test]
fn nodes_start_again_with_the_log_that_they_had() {
    let mut cluster = Cluster::new(3);
    assert!(cluster.campaign(1));
    cluster.settle();
    let mut session = client();
    cluster.init_session(&mut session).unwrap();
    for i in 0..8 {
        cluster.send(&mut session, &format!("put k{} v{}", i, i)).unwrap();
    }
    cluster.heartbeat(1);
    cluster.settle();
    for id in 1..=3 {
        let shape = |c: &mut Cluster| {
            let log = &c.node(id).log;
            (log.snapshot_index(), log.snapshot_term(), log.last_index(), log.len())
        };
        let before = shape(&mut cluster);
        let terms = cluster.terms(id);
        let vote = (cluster.node(id).current_term, cluster.node(id).voted_for);
        cluster.restart(id);
        assert_eq!(shape(&mut cluster), before);
        assert_eq!(cluster.terms(id), terms);
        assert_eq!((cluster.node(id).current_term, cluster.node(id).voted_for), vote);
        assert_eq!(cluster.node(id).commit_index, before.0);
    }
}

#[test]
fn node_starts_from_a_later_snapshot_than_its_log() {
    let mut cluster = Cluster::new(3);
    assert!(cluster.campaign(1));
    cluster.settle();
    let mut session = client();
    cluster.init_session(&mut session).unwrap();
    for i in 0..3 {
        cluster.send(&mut session, &format!("put k {}", i)).unwrap();
    }
    cluster.heartbeat(1);
    cluster.settle();
    let member = cluster.members.get_mut(&2).unwrap();
    assert_eq!(member.node.last_applied, 4);
    member.disk.snapshot = Some((3, 1, b"k 1".to_vec()));
    cluster.restart(2);
    assert_eq!(cluster.node(2).log.snapshot_index(), 3);
    assert_eq!(cluster.node(2).log.last_index(), 4);
    assert_eq!(cluster.members[&2].store.db["k"], "1");
    cluster.heartbeat(1);
    cluster.settle();
    assert_eq!(cluster.members[&2].store.db["k"], "2");
}

#[test]
fn shutdown_tells_waiting_clients() {
    let mut cluster = Cluster::new(3);
    assert!(cluster.campaign(1));
    cluster.settle();
    cluster.kill(2);
    cluster.kill(3);
    let req = cluster.node(1).register_client(77).unwrap();
    cluster.queue.push_back((1, RaftEvent::ClientRequest(req), Origin::Nobody));
    cluster.settle();
    cluster.queue.push_back((1, RaftEvent::Shutdown, Origin::Nobody));
    cluster.settle();
    assert!(matches!(&cluster.replies[&77], CommandResult::Error(t) if t == "Node is shutting down"));
    assert_eq!((cluster.members[&1].disk.term, cluster.members[&1].disk.voted_for), (1, Some(1)));
}

#[test]
fn saved_vote_matches_the_node() {
    let mut cluster = Cluster::new(3);
    for id in [1, 2, 3, 1] {
        cluster.campaign(id);
        cluster.settle();
        for member in cluster.members.values() {
            assert_eq!(member.disk.term, member.node.current_term);
            assert_eq!(member.disk.voted_for, member.node.voted_for);
        }
    }
}
