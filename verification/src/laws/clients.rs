//! What a client session promises.

use crate::client::ClientView;
use crate::types::{ClientId, NodeId, ResultView};
use vstd::prelude::*;

verus! {

/// The session is the same but for the node that is asked next.
pub open spec fn same_session<T>(before: ClientView<T>, after: ClientView<T>) -> bool {
    &&& after.client_id == before.client_id
    &&& after.next_seq_num == before.next_seq_num
    &&& after.last_received_seq == before.last_received_seq
    &&& after.peers == before.peers
    &&& after.transport == before.transport
}

impl<T> ClientView<T> {
    /// After a redirection the client asks the node that was named, whether or not it is
    /// registered and whether or not the node is one of its peers.
    pub proof fn redirection_is_followed(self, id: NodeId)
        ensures
            self.look_elsewhere(ResultView::Redirect(id)).current_leader == id,
            same_session(self, self.look_elsewhere(ResultView::Redirect(id))),
    {
    }

    /// After an error the client asks the peer behind the one that it asked, where that stands
    /// in the list for the first time, and the first one behind the last.  A node that is not
    /// in the list counts as the first one.
    pub proof fn next_peer_is_asked_after_an_error(self, text: Seq<char>, i: int)
        requires
            0 <= i < self.peers.len(),
            self.peers[i] == self.current_leader || i == 0,
            forall|j: int| 0 <= j < i ==> #[trigger] self.peers[j] != self.current_leader,
            i == 0 ==> self.peers[0] == self.current_leader || !self.peers.contains(
                self.current_leader,
            ),
        ensures
            ({
                let after = self.look_elsewhere(ResultView::Error(text));
                &&& same_session(self, after)
                &&& i + 1 < self.peers.len() ==> after.current_leader == self.peers[i + 1]
                &&& i + 1 == self.peers.len() ==> after.current_leader == self.peers[0]
            }),
    {
        self.lemma_found_at(0, i);
        if i + 1 < self.peers.len() {
            vstd::arithmetic::div_mod::lemma_small_mod((i + 1) as nat, self.peers.len());
        } else {
            vstd::arithmetic::div_mod::lemma_mod_self_0(self.peers.len() as int);
        }
    }

    proof fn lemma_found_at(self, start: int, i: int)
        requires
            0 <= start <= self.peers.len(),
            0 <= i < self.peers.len(),
            forall|j: int| 0 <= j < i ==> #[trigger] self.peers[j] != self.current_leader,
            self.peers[i] == self.current_leader && start <= i || i == 0 && (start > 0 ==> forall|
                j: int,
            |
                start <= j < self.peers.len() ==> #[trigger] self.peers[j] != self.current_leader)
                && (start == 0 ==> self.peers[0] == self.current_leader || !self.peers.contains(
                self.current_leader,
            )),
        ensures
            self.position_from(start) == i,
        decreases self.peers.len() - start,
    {
        if start < self.peers.len() && self.peers[start] != self.current_leader {
            if start == 0 && i == 0 {
                assert forall|j: int| 1 <= j < self.peers.len() implies #[trigger] self.peers[j]
                    != self.current_leader by {
                    if self.peers[j] == self.current_leader {
                        assert(self.peers.contains(self.current_leader));
                    }
                }
            }
            self.lemma_found_at(start + 1, i);
        }
    }

    /// A success changes nothing of whom the client asks.
    pub proof fn success_keeps_the_node(self, bytes: Seq<u8>)
        ensures
            self.look_elsewhere(ResultView::Success(bytes)) == self,
    {
    }

    /// A new session has the id that was given, starts at the number one and has received
    /// nothing; a command that was answered is the last one that was received, one that was
    /// given up is not, and the next command has the next number.
    pub proof fn session_counts_its_commands(self, id: ClientId)
        requires
            self.next_seq_num.0 < u64::MAX,
        ensures
            self.registered(id).client_id == Some(id),
            self.registered(id).next_seq_num.0 == 1,
            self.registered(id).last_received_seq.0 == 0,
            self.registered(id).current_leader == self.current_leader,
            self.registered(id).peers == self.peers,
            self.registered(id).transport == self.transport,
            self.answered().next_seq_num.0 == self.next_seq_num.0 + 1,
            self.answered().last_received_seq == self.next_seq_num,
            self.answered().client_id == self.client_id,
            self.answered().current_leader == self.current_leader,
            self.answered().peers == self.peers,
            self.answered().transport == self.transport,
            self.gave_up().next_seq_num.0 == self.next_seq_num.0 + 1,
            self.gave_up().last_received_seq == self.last_received_seq,
            self.gave_up().client_id == self.client_id,
            self.gave_up().current_leader == self.current_leader,
            self.gave_up().peers == self.peers,
            self.gave_up().transport == self.transport,
    {
    }
}

} // verus!
