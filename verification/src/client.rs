//! The side of the client: a session with the cluster.

use crate::bytes::u64_from_le_bytes;
use crate::messages::{ClientCommandRequest, ClientCommandView};
use crate::types::{ClientId, CommandResult, NodeId, ResultView, SeqNum};
use std::sync::Arc;
use vstd::prelude::*;

verus! {

/// A client of the cluster.
///
/// A request that fails is sent again, to the node that the answer names or to the
/// next peer, at most as often as there are peers.
#[derive(Debug)]
pub struct RaftClient<T> {
    client_id: Option<ClientId>,
    next_seq_num: SeqNum,
    last_received_seq: SeqNum,
    current_leader: NodeId,
    peers: Vec<NodeId>,
    transport: Arc<T>,
}

/// A client as a mathematical value.
pub struct ClientView<T> {
    /// `None` until the client is registered.
    pub client_id: Option<ClientId>,
    /// The number of the next command.
    pub next_seq_num: SeqNum,
    /// The number of the last command that was answered.
    pub last_received_seq: SeqNum,
    /// The node to which the next request goes.
    pub current_leader: NodeId,
    pub peers: Seq<NodeId>,
    pub transport: Arc<T>,
}

impl<T> View for RaftClient<T> {
    type V = ClientView<T>;

    closed spec fn view(&self) -> ClientView<T> {
        ClientView {
            client_id: self.client_id,
            next_seq_num: self.next_seq_num,
            last_received_seq: self.last_received_seq,
            current_leader: self.current_leader,
            peers: self.peers@,
            transport: self.transport,
        }
    }
}

impl<T> ClientView<T> {
    /// The first position of the current leader among the peers from `start` on, zero
    /// if it is not there.
    pub open spec fn position_from(self, start: int) -> int
        decreases self.peers.len() - start,
    {
        if start >= self.peers.len() {
            0
        } else if self.peers[start] == self.current_leader {
            start
        } else {
            self.position_from(start + 1)
        }
    }

    /// The peer after the current leader, the first after the last.
    pub open spec fn next_peer(self) -> NodeId {
        self.peers[(self.position_from(0) + 1) % self.peers.len() as int]
    }

    /// The client after an answer that settles nothing.
    pub open spec fn look_elsewhere(self, reply: ResultView) -> ClientView<T> {
        match reply {
            ResultView::Success(_) => self,
            ResultView::Redirect(id) => ClientView { current_leader: id, ..self },
            ResultView::Error(_) => ClientView { current_leader: self.next_peer(), ..self },
        }
    }

    /// The client with a new session.
    pub open spec fn registered(self, id: ClientId) -> ClientView<T> {
        ClientView {
            client_id: Some(id),
            next_seq_num: SeqNum(1),
            last_received_seq: SeqNum(0),
            ..self
        }
    }

    /// The client once its command was answered.
    pub open spec fn answered(self) -> ClientView<T> {
        ClientView {
            last_received_seq: self.next_seq_num,
            next_seq_num: SeqNum((self.next_seq_num.0 + 1) as u64),
            ..self
        }
    }

    /// The client once it gave its command up.  The number is spent: the command may still
    /// be carried out under it.
    pub open spec fn gave_up(self) -> ClientView<T> {
        ClientView { next_seq_num: SeqNum((self.next_seq_num.0 + 1) as u64), ..self }
    }
}

/// What follows from an answer: another attempt, or the outcome.
#[derive(Debug)]
pub enum ClientStep<R> {
    /// The request goes to `target`; `attempts` have failed.
    Retry { target: NodeId, attempts: usize },
    Done { outcome: Result<R, String> },
}

impl<T> RaftClient<T> {
    pub fn new(initial_node: NodeId, peers: Vec<NodeId>, transport: Arc<T>) -> (r: Self)
        ensures
            r@ == (ClientView {
                client_id: None,
                next_seq_num: SeqNum(1),
                last_received_seq: SeqNum(0),
                current_leader: initial_node,
                peers: peers@,
                transport,
            }),
    {
        RaftClient {
            client_id: None,
            next_seq_num: SeqNum::from_u64(1),
            last_received_seq: SeqNum::from_u64(0),
            current_leader: initial_node,
            peers,
            transport,
        }
    }

    /// The node to which the next request goes.
    pub fn target(&self) -> (r: NodeId)
        ensures
            r == self@.current_leader,
    {
        self.current_leader
    }

    pub fn transport(&self) -> (r: &Arc<T>)
        ensures
            *r == self@.transport,
    {
        &self.transport
    }

    pub fn has_peers(&self) -> (r: bool)
        ensures
            r == (self@.peers.len() > 0),
    {
        self.peers.len() > 0
    }

    /// The peer after the current leader, the first after the last.
    pub fn pick_next_peer(&self) -> (r: NodeId)
        requires
            self@.peers.len() > 0,
        ensures
            r == self@.next_peer(),
    {
        let n: usize = self.peers.len();
        let mut i: usize = 0;
        while i < n && self.peers[i] != self.current_leader
            invariant
                n == self.peers@.len(),
                i <= n,
                self@.position_from(0) == self@.position_from(i as int),
            decreases n - i,
        {
            i = i + 1;
        }
        let position: usize = if i < n {
            i
        } else {
            0
        };
        assert(position == self@.position_from(0));
        if position + 1 < n {
            proof {
                vstd::arithmetic::div_mod::lemma_small_mod((position + 1) as nat, n as nat);
            }
            self.peers[position + 1]
        } else {
            proof {
                vstd::arithmetic::div_mod::lemma_mod_self_0(n as int);
            }
            self.peers[0]
        }
    }

    /// Turns to another node after an answer that settles nothing.
    fn look_elsewhere(&mut self, reply: &CommandResult)
        requires
            reply is Error ==> old(self)@.peers.len() > 0,
        ensures
            final(self)@ == old(self)@.look_elsewhere(reply@),
    {
        match reply {
            CommandResult::Success(_) => {},
            CommandResult::Redirect(id) => {
                self.current_leader = *id;
            },
            CommandResult::Error(_) => {
                self.current_leader = self.pick_next_peer();
            },
        }
    }

    /// Takes the answer to a request for registration, after `attempts` that failed.
    pub fn init_session_step(&mut self, attempts: usize, reply: CommandResult) -> (r: ClientStep<
        (),
    >)
        requires
            attempts <= old(self)@.peers.len(),
            reply is Error ==> old(self)@.peers.len() > 0,
        ensures
            match reply@ {
                ResultView::Success(bytes) => if bytes.len() == 8 {
                    &&& final(self)@ == old(self)@.registered(
                        ClientId(crate::bytes::le_value(bytes) as u64),
                    )
                    &&& r matches ClientStep::Done { outcome } && outcome is Ok
                } else {
                    &&& final(self)@ == old(self)@
                    &&& r matches ClientStep::Done { outcome: Err(text) } && text@
                        == "Invalid ClientId bytes length from leader"@
                },
                _ => {
                    &&& final(self)@ == old(self)@.look_elsewhere(reply@)
                    &&& if attempts < old(self)@.peers.len() {
                        r matches ClientStep::Retry { target, attempts: failed } && target
                            == final(self)@.current_leader && failed == attempts + 1
                    } else {
                        r matches ClientStep::Done { outcome: Err(text) } && text@
                            == "Failed to register client: Cluster unavailable"@
                    }
                },
            },
    {
        if let CommandResult::Success(bytes) = reply {
            if bytes.len() == 8 {
                self.client_id = Some(ClientId::from_u64(u64_from_le_bytes(&bytes)));
                self.next_seq_num = SeqNum::from_u64(1);
                self.last_received_seq = SeqNum::from_u64(0);
                return ClientStep::Done { outcome: Ok(()) };
            }
            return ClientStep::Done {
                outcome: Err("Invalid ClientId bytes length from leader".to_string()),
            };
        }
        self.look_elsewhere(&reply);
        if attempts < self.peers.len() {
            ClientStep::Retry { target: self.current_leader, attempts: attempts + 1 }
        } else {
            ClientStep::Done {
                outcome: Err("Failed to register client: Cluster unavailable".to_string()),
            }
        }
    }

    /// The request that carries `command`.  Each attempt at one command carries the same
    /// number, and the next command another one, whether this one is answered or given up.
    pub fn command_request(&self, command: &Vec<u8>) -> (r: Result<ClientCommandRequest, String>)
        ensures
            match self@.client_id {
                Some(client_id) => r matches Ok(request) && request@ == (ClientCommandView {
                    client_id,
                    seq_num: self@.next_seq_num,
                    last_received_seq: self@.last_received_seq,
                    command: command@,
                }),
                None => r matches Err(text) && text@
                    == "Client session is not initialized. Call init_session first."@,
            },
    {
        match self.client_id {
            Some(client_id) => {
                let copy = command.clone();
                assert(copy@ =~= command@);
                Ok(
                    ClientCommandRequest {
                        client_id,
                        seq_num: self.next_seq_num,
                        last_received_seq: self.last_received_seq,
                        command: copy,
                    },
                )
            },
            None => Err(
                "Client session is not initialized. Call init_session first.".to_string(),
            ),
        }
    }

    /// There is a sequence number left for the command after the next.
    pub fn can_count_on(&self) -> (r: bool)
        ensures
            r == (self@.next_seq_num.0 < u64::MAX),
    {
        self.next_seq_num.0 < u64::MAX
    }

    /// After `attempts` that failed, the next failure is the last one.
    pub fn is_last_attempt(&self, attempts: usize) -> (r: bool)
        ensures
            r == (attempts >= self@.peers.len()),
    {
        attempts >= self.peers.len()
    }

    /// Takes the answer to a command, after `attempts` that failed.
    pub fn send_command_step(&mut self, attempts: usize, reply: CommandResult) -> (r: ClientStep<
        Vec<u8>,
    >)
        requires
            attempts <= old(self)@.peers.len(),
            reply is Error ==> old(self)@.peers.len() > 0,
            reply is Success || attempts == old(self)@.peers.len()
                ==> old(self)@.next_seq_num.0 < u64::MAX,
        ensures
            match reply@ {
                ResultView::Success(bytes) => {
                    &&& final(self)@ == old(self)@.answered()
                    &&& r matches ClientStep::Done { outcome: Ok(payload) } && payload@ == bytes
                },
                _ => if attempts < old(self)@.peers.len() {
                    &&& final(self)@ == old(self)@.look_elsewhere(reply@)
                    &&& r matches ClientStep::Retry { target, attempts: failed } && target
                        == final(self)@.current_leader && failed == attempts + 1
                } else {
                    &&& final(self)@ == old(self)@.look_elsewhere(reply@).gave_up()
                    &&& r matches ClientStep::Done { outcome: Err(text) } && text@
                        == "Command execution failed: Cluster leader timeout or split-brain"@
                },
            },
    {
        if let CommandResult::Success(payload) = reply {
            self.last_received_seq = self.next_seq_num;
            self.next_seq_num = SeqNum::from_u64(self.next_seq_num.0 + 1);
            return ClientStep::Done { outcome: Ok(payload) };
        }
        self.look_elsewhere(&reply);
        if attempts < self.peers.len() {
            ClientStep::Retry { target: self.current_leader, attempts: attempts + 1 }
        } else {
            self.next_seq_num = SeqNum::from_u64(self.next_seq_num.0 + 1);
            ClientStep::Done {
                outcome: Err(
                    "Command execution failed: Cluster leader timeout or split-brain".to_string(),
                ),
            }
        }
    }
}

} // verus!
