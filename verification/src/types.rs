//! Identifiers, commands, results and configuration.

use std::cmp::Ordering;
use vstd::prelude::*;
use vstd::std_specs::cmp::{PartialOrdIs, PartialOrdSpecImpl};

verus! {

pub type NodeId = u64;

/// Identifies a client session.  Registered clients have ids above zero.
#[derive(Debug, Clone, Copy, PartialEq, Eq, Ord, Hash, Structural)]
pub struct ClientId(pub u64);

impl PartialOrd for ClientId {
    fn partial_cmp(&self, other: &Self) -> (r: Option<Ordering>) {
        self.0.partial_cmp(&other.0)
    }
}

impl PartialOrdSpecImpl for ClientId {
    open spec fn obeys_partial_cmp_spec() -> bool {
        true
    }

    open spec fn partial_cmp_spec(&self, other: &Self) -> Option<Ordering> {
        if self.0 < other.0 {
            Some(Ordering::Less)
        } else if self.0 == other.0 {
            Some(Ordering::Equal)
        } else {
            Some(Ordering::Greater)
        }
    }
}

impl ClientId {
    /// Makes a `ClientId` out of its number.
    /// Use this strictly for network code.
    pub fn new(id: u64) -> (r: Self)
        ensures
            r == ClientId(id),
    {
        ClientId(id)
    }

    pub fn to_u64(self) -> (r: u64)
        ensures
            r == self.0,
    {
        self.0
    }

    pub(crate) fn from_u64(id: u64) -> (r: Self)
        ensures
            r == ClientId(id),
    {
        ClientId(id)
    }

    /// An id is its number: the number of an id made out of `x` is `x`, an id is made anew
    /// out of its number, and ids are equal and ordered as their numbers are.
    pub proof fn ids_are_numbers(id: ClientId, x: u64, y: u64)
        ensures
            ClientId(x).0 == x,
            ClientId(id.0) == id,
            ClientId(x) == ClientId(y) <==> x == y,
            ClientId(x).is_lt(&ClientId(y)) <==> x < y,
            ClientId(x).is_le(&ClientId(y)) <==> x <= y,
    {
    }

    /// The requests of the client up to the sequence number `up_to`.
    pub open spec fn requests_up_to(self, up_to: SeqNum) -> Set<(ClientId, SeqNum)> {
        Set::new(|k: (ClientId, SeqNum)| k.0 == self && k.1.0 <= up_to.0)
    }
}

/// Numbers the requests of one client.
#[derive(Debug, Clone, Copy, PartialEq, Eq, Ord, Hash, Structural)]
pub struct SeqNum(pub u64);

impl PartialOrd for SeqNum {
    fn partial_cmp(&self, other: &Self) -> (r: Option<Ordering>) {
        self.0.partial_cmp(&other.0)
    }
}

impl PartialOrdSpecImpl for SeqNum {
    open spec fn obeys_partial_cmp_spec() -> bool {
        true
    }

    open spec fn partial_cmp_spec(&self, other: &Self) -> Option<Ordering> {
        if self.0 < other.0 {
            Some(Ordering::Less)
        } else if self.0 == other.0 {
            Some(Ordering::Equal)
        } else {
            Some(Ordering::Greater)
        }
    }
}

impl SeqNum {
    /// Makes a `SeqNum` out of its number.
    /// Use this strictly for network code.
    pub fn new(id: u64) -> (r: Self)
        ensures
            r == SeqNum(id),
    {
        SeqNum(id)
    }

    pub fn to_u64(self) -> (r: u64)
        ensures
            r == self.0,
    {
        self.0
    }

    pub(crate) fn from_u64(seq_num: u64) -> (r: Self)
        ensures
            r == SeqNum(seq_num),
    {
        SeqNum(seq_num)
    }

    /// A sequence number is made out of its number and gives it back; sequence numbers are
    /// equal and ordered as their numbers are.
    pub proof fn seq_nums_are_numbers(seq_num: SeqNum, x: u64, y: u64)
        ensures
            SeqNum(x).0 == x,
            SeqNum(seq_num.0) == seq_num,
            SeqNum(x) == SeqNum(y) <==> x == y,
            SeqNum(x).is_lt(&SeqNum(y)) <==> x < y,
            SeqNum(x).is_le(&SeqNum(y)) <==> x <= y,
    {
    }
}

/// What a log entry asks for.
#[derive(Debug)]
pub enum RaftCommand {
    RegisterClient,
    ClientCommand(Vec<u8>),
}

/// A command as a mathematical value.
pub enum CommandView {
    RegisterClient,
    ClientCommand(Seq<u8>),
}

impl View for RaftCommand {
    type V = CommandView;

    open spec fn view(&self) -> CommandView {
        match self {
            RaftCommand::RegisterClient => CommandView::RegisterClient,
            RaftCommand::ClientCommand(bytes) => CommandView::ClientCommand(bytes@),
        }
    }
}

impl Clone for RaftCommand {
    fn clone(&self) -> (r: Self)
        ensures
            r@ == self@,
    {
        match self {
            RaftCommand::RegisterClient => RaftCommand::RegisterClient,
            RaftCommand::ClientCommand(bytes) => {
                let copy = bytes.clone();
                assert(copy@ =~= bytes@);
                RaftCommand::ClientCommand(copy)
            },
        }
    }
}

/// The answer to a client.
#[derive(Debug)]
pub enum CommandResult {
    Success(Vec<u8>),
    Error(String),
    Redirect(NodeId),
}

/// An answer as a mathematical value.
pub enum ResultView {
    Success(Seq<u8>),
    Error(Seq<char>),
    Redirect(NodeId),
}

impl View for CommandResult {
    type V = ResultView;

    open spec fn view(&self) -> ResultView {
        match self {
            CommandResult::Success(bytes) => ResultView::Success(bytes@),
            CommandResult::Error(text) => ResultView::Error(text@),
            CommandResult::Redirect(id) => ResultView::Redirect(*id),
        }
    }
}

impl Clone for CommandResult {
    fn clone(&self) -> (r: Self)
        ensures
            r@ == self@,
    {
        match self {
            CommandResult::Success(bytes) => {
                let copy = bytes.clone();
                assert(copy@ =~= bytes@);
                CommandResult::Success(copy)
            },
            CommandResult::Error(text) => CommandResult::Error(text.clone()),
            CommandResult::Redirect(id) => CommandResult::Redirect(*id),
        }
    }
}

/// A request of a client, with the handle `T` through which it is answered.
///
/// `client_id` comes from the registration of the client.  `seq_num` grows by
/// one with every command, whether it was answered or given up.  Cached results of
/// the client with a sequence number up to `last_received_seq` are dropped.
#[derive(Debug)]
pub struct ClientRequest<T> {
    pub client_id: ClientId,
    pub seq_num: SeqNum,
    pub last_received_seq: SeqNum,
    pub command: RaftCommand,
    pub response_tx: T,
}

/// A request of a client as a mathematical value.
pub struct ClientRequestView<T> {
    pub client_id: ClientId,
    pub seq_num: SeqNum,
    pub last_received_seq: SeqNum,
    pub command: CommandView,
    pub response_tx: T,
}

impl<T> View for ClientRequest<T> {
    type V = ClientRequestView<T>;

    open spec fn view(&self) -> ClientRequestView<T> {
        ClientRequestView {
            client_id: self.client_id,
            seq_num: self.seq_num,
            last_received_seq: self.last_received_seq,
            command: self.command@,
            response_tx: self.response_tx,
        }
    }
}

/// The settings of a node.  Times are in milliseconds.
#[derive(Debug)]
pub struct Config {
    pub node_id: NodeId,
    /// The other nodes of the cluster.
    pub peers: Vec<NodeId>,
    pub election_timeout_min: u64,
    pub election_timeout_max: u64,
    pub heartbeat_interval: u64,
    /// How many entries are applied past the last snapshot before the next one.
    pub snapshot_threshold: u64,
    pub listen_addr: String,
}

impl Clone for Config {
    fn clone(&self) -> (r: Self)
        ensures
            r.node_id == self.node_id,
            r.peers@ == self.peers@,
            r.election_timeout_min == self.election_timeout_min,
            r.election_timeout_max == self.election_timeout_max,
            r.heartbeat_interval == self.heartbeat_interval,
            r.snapshot_threshold == self.snapshot_threshold,
            r.listen_addr@ == self.listen_addr@,
    {
        let peers = self.peers.clone();
        assert(peers@ =~= self.peers@);
        Config {
            node_id: self.node_id,
            peers,
            election_timeout_min: self.election_timeout_min,
            election_timeout_max: self.election_timeout_max,
            heartbeat_interval: self.heartbeat_interval,
            snapshot_threshold: self.snapshot_threshold,
            listen_addr: self.listen_addr.clone(),
        }
    }
}

impl Config {
    /// How many nodes, this one counted, make a majority of the cluster.
    pub open spec fn majority_of(peers: nat) -> nat {
        (peers + 1) / 2 + 1
    }

    pub open spec fn majority_view(self) -> nat {
        Config::majority_of(self.peers@.len())
    }

    /// How many nodes, this one counted, make a majority of the cluster.
    pub fn majority(&self) -> (r: usize)
        ensures
            r == self.majority_view(),
    {
        let n: usize = self.peers.len();
        n / 2 + n % 2 + 1
    }
}

impl Default for Config {
    fn default() -> (r: Self)
        ensures
            r.node_id == 1,
            r.peers@ == Seq::<NodeId>::empty(),
            r.election_timeout_min == 150,
            r.election_timeout_max == 300,
            r.heartbeat_interval == 50,
            r.snapshot_threshold == 500,
            r.listen_addr@ == "127.0.0.1:50051"@,
    {
        Config {
            node_id: 1,
            peers: Vec::new(),
            election_timeout_min: 150,
            election_timeout_max: 300,
            heartbeat_interval: 50,
            snapshot_threshold: 500,
            listen_addr: "127.0.0.1:50051".to_string(),
        }
    }
}

} // verus!
