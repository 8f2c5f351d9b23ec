//! Snapshots that travel from a leader to a follower.

use crate::messages::{InstallSnapshotRequest, InstallSnapshotResponse, InstallSnapshotView};
use crate::model::{SnapshotOffer, StorageOp, StorageOpView};
use crate::raft::RaftNode;
use vstd::prelude::*;

verus! {

/// How a node takes a snapshot of a leader.
#[derive(Debug)]
pub enum SnapshotStart {
    /// The leader is of an earlier term.
    Refused { response: InstallSnapshotResponse },
    /// After the storage operations, the snapshot is restored and saved.
    Proceed { storage: Vec<StorageOp> },
}

/// What a leader does with the snapshot that it has loaded for a follower.
#[derive(Debug)]
pub enum SnapshotLoad {
    Send { request: InstallSnapshotRequest },
    /// The stored snapshot, with this index and term, is another one than that of the log.
    Mismatch { index: u64, term: u64 },
    /// The log starts after a snapshot, but none is stored.
    Missing,
    /// The storage could not be read; the next message to the follower tries again.
    Unavailable { error: String },
}

impl SnapshotOffer {
    /// The request that brings the snapshot with this data to a follower.
    pub open spec fn with_data(self, data: Seq<u8>) -> InstallSnapshotView {
        InstallSnapshotView {
            term: self.term,
            leader_id: self.leader_id,
            last_included_index: self.last_included_index,
            last_included_term: self.last_included_term,
            data,
        }
    }

    /// Decides what becomes of the offer once the storage was read: `loaded` holds the
    /// index, the term and the data of the stored snapshot.
    pub fn complete(self, loaded: Result<Option<(u64, u64, Vec<u8>)>, String>) -> (r: SnapshotLoad)
        ensures
            match loaded {
                Ok(Some((index, term, data))) => if index == self.last_included_index && term
                    == self.last_included_term {
                    r matches SnapshotLoad::Send { request } && request@ == self.with_data(data@)
                } else {
                    r matches SnapshotLoad::Mismatch { index: i, term: t } && i == index && t == term
                },
                Ok(None) => r is Missing,
                Err(text) => r matches SnapshotLoad::Unavailable { error } && error@ == text@,
            },
    {
        match loaded {
            Ok(Some((index, term, data))) => {
                if index != self.last_included_index || term != self.last_included_term {
                    return SnapshotLoad::Mismatch { index, term };
                }
                SnapshotLoad::Send {
                    request: InstallSnapshotRequest {
                        term: self.term,
                        leader_id: self.leader_id,
                        last_included_index: self.last_included_index,
                        last_included_term: self.last_included_term,
                        data,
                    },
                }
            },
            Ok(None) => SnapshotLoad::Missing,
            Err(error) => SnapshotLoad::Unavailable { error },
        }
    }
}

impl<T> RaftNode<T> {
    /// Takes a snapshot of a leader, up to the point where it is to be restored.
    pub fn handle_install_snapshot(&mut self, req: &InstallSnapshotRequest) -> (r: SnapshotStart)
        ensures
            req.term < old(self).current_term ==> {
                &&& final(self)@ == old(self)@
                &&& r matches SnapshotStart::Refused { response } && response == (
                InstallSnapshotResponse { term: old(self).current_term, success: false })
            },
            req.term >= old(self).current_term ==> {
                &&& final(self)@ == old(self)@.before_snapshot(req@)
                &&& r matches SnapshotStart::Proceed { storage } && StorageOpView::all(storage@)
                    == old(self)@.observe_term_ops(req.term)
            },
    {
        if req.term < self.current_term {
            return SnapshotStart::Refused {
                response: InstallSnapshotResponse { term: self.current_term, success: false },
            };
        }
        let mut storage: Vec<StorageOp> = Vec::new();
        if req.term > self.current_term {
            storage.push(self.become_follower(req.term));
        }
        self.current_leader = Some(req.leader_id);
        assert(StorageOpView::all(storage@) =~= old(self)@.observe_term_ops(req.term));
        SnapshotStart::Proceed { storage }
    }

    /// Ends the installation of a snapshot.  `installed` says whether the state machine
    /// took it and the storage has saved it.
    pub fn finish_install_snapshot(
        &mut self,
        req: &InstallSnapshotRequest,
        installed: bool,
    ) -> (r: (InstallSnapshotResponse, Vec<StorageOp>))
        ensures
            r.0 == (InstallSnapshotResponse {
                term: old(self).current_term,
                success: installed,
            }),
            installed ==> {
                &&& final(self)@ == old(self)@.after_snapshot(req@)
                &&& StorageOpView::all(r.1@) == seq![
                    StorageOpView::TruncateLog { index: req.last_included_index },
                ]
            },
            !installed ==> final(self)@ == old(self)@ && r.1@.len() == 0,
    {
        let mut storage: Vec<StorageOp> = Vec::new();
        if !installed {
            return (
                InstallSnapshotResponse { term: self.current_term, success: false },
                storage,
            );
        }
        self.log.compact(req.last_included_index, req.last_included_term);
        storage.push(StorageOp::TruncateLog { index: req.last_included_index });
        if self.commit_index < req.last_included_index {
            self.commit_index = req.last_included_index;
        }
        if self.last_applied < req.last_included_index {
            self.last_applied = req.last_included_index;
        }
        self.current_leader = Some(req.leader_id);
        assert(StorageOpView::all(storage@) =~= seq![
            StorageOpView::TruncateLog { index: req.last_included_index },
        ]);
        (InstallSnapshotResponse { term: self.current_term, success: true }, storage)
    }
}

} // verus!
