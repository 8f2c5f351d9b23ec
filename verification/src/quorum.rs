//! Majorities of a cluster.

use crate::types::{Config, NodeId};
use vstd::prelude::*;

verus! {

/// Two majorities of one cluster have a node in common.
pub proof fn majorities_meet(members: Set<NodeId>, a: Set<NodeId>, b: Set<NodeId>)
    requires
        members.finite(),
        members.len() > 0,
        a.subset_of(members),
        b.subset_of(members),
        a.len() >= Config::majority_of((members.len() - 1) as nat),
        b.len() >= Config::majority_of((members.len() - 1) as nat),
    ensures
        exists|node: NodeId| #[trigger] a.contains(node) && b.contains(node),
{
    if forall|node: NodeId| #[trigger] a.contains(node) ==> !b.contains(node) {
        vstd::set_lib::lemma_len_subset(a, members);
        vstd::set_lib::lemma_len_subset(b, members);
        assert(a.disjoint(b));
        vstd::set_lib::lemma_set_disjoint_lens(a, b);
        assert((a + b).subset_of(members));
        vstd::set_lib::lemma_len_subset(a + b, members);
    }
}

} // verus!
