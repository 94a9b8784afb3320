//! The worker's view of the cluster and of its partition hand-overs.
use crate::collections::SortedMap;
use crate::common::{Key, Node, NodeId, PartitionId, Partitions};
use vstd::prelude::*;

verus! {

/// Progress of handing one partition over to one recipient.
#[derive(Debug, Clone, Copy, PartialEq, Eq, Structural)]
pub struct SyncState {
    pub prev_max_key: Option<Key>,
    pub curr_max_key: Key,
    pub confirmed: bool,
    pub last_start_time: u64,
}

impl View for SyncState {
    type V = SyncState;

    open spec fn view(&self) -> SyncState {
        *self
    }
}

/// Hand-over progress of one partition, by recipient.
pub type RecipientSyncs = SortedMap<NodeId, SyncState>;

/// What the worker knows of the cluster.
#[derive(Debug)]
pub struct State {
    pub epoch: Option<u64>,
    pub elected_leader_id: Option<NodeId>,
    pub nodes: SortedMap<NodeId, Node>,
    pub partitions: Partitions,
    pub sync: SortedMap<PartitionId, RecipientSyncs>,
}

impl State {
    /// The members, the partition table and the hand-over progress are well formed.
    pub open spec fn wf(&self) -> bool {
        &&& self.nodes.wf()
        &&& self.partitions.wf()
        &&& self.sync.wf()
        &&& forall|i: int| 0 <= i < self.sync.pairs().len() ==> (#[trigger] self.sync.pairs()[i]).1.wf()
    }
}

} // verus!
