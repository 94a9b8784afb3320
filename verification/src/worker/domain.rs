//! Messages that the worker's state machine takes in and sends out.
use crate::collections::SortedMap;
use crate::common::{ClusterState, ClusterStateView, Heartbeat, Key, NodeId, PartitionId};
use vstd::prelude::*;

verus! {

/// A record as it travels in a synchronisation batch.
#[derive(Debug, Clone)]
pub struct Record {
    pub key: Key,
    pub value: Vec<u8>,
    pub ttl: u64,
    pub creation_time_ms: u64,
}

/// The abstract content of a travelling record.
pub struct RecordView {
    pub key: Key,
    pub value: Seq<u8>,
    pub ttl: u64,
    pub creation_time_ms: u64,
}

impl View for Record {
    type V = RecordView;

    open spec fn view(&self) -> RecordView {
        RecordView {
            key: self.key,
            value: self.value@,
            ttl: self.ttl,
            creation_time_ms: self.creation_time_ms,
        }
    }
}

/// A batch of records that one worker hands to another.
#[derive(Debug, Clone)]
pub struct SyncBatchRequest {
    pub sender_id: NodeId,
    pub request_id: String,
    pub records: Vec<Record>,
}

/// A message between the worker state machine and its peers.
#[derive(Debug)]
pub enum WorkerProtocol {
    NewConnection { id: Option<NodeId>, host: String, port: u32, manager: bool },
    Heartbeat { id: NodeId, heartbeat: Heartbeat },
    GetClusterState { id: NodeId },
    ClusterState { recipient_id: NodeId, state: ClusterState },
    NodeDisconnected { id: NodeId },
    Leader { id: NodeId, epoch: u64, ts: u64 },
    RemovePartitionFromReplica { id: NodeId, replica_id: NodeId, partition_id: PartitionId },
    SyncBatch { recipient_id: NodeId, request: std::sync::Arc<SyncBatchRequest> },
    SyncBatchResponse {
        recipient_id: NodeId,
        partition_id_to_max_applied_key: SortedMap<PartitionId, Key>,
    },
}

/// The abstract content of a worker message.
pub enum WorkerMessage {
    NewConnection { id: Option<NodeId>, host: String, port: u32, manager: bool },
    Heartbeat { id: NodeId, heartbeat: Heartbeat },
    GetClusterState { id: NodeId },
    ClusterState { recipient_id: NodeId, state: ClusterStateView },
    NodeDisconnected { id: NodeId },
    Leader { id: NodeId, epoch: u64, ts: u64 },
    RemovePartitionFromReplica { id: NodeId, replica_id: NodeId, partition_id: PartitionId },
    SyncBatch { recipient_id: NodeId, sender_id: NodeId, request_id: String, records: Seq<RecordView> },
    SyncBatchResponse { recipient_id: NodeId, partition_id_to_max_applied_key: Map<PartitionId, Key> },
}

impl View for WorkerProtocol {
    type V = WorkerMessage;

    open spec fn view(&self) -> WorkerMessage {
        match self {
            WorkerProtocol::NewConnection { id, host, port, manager } => WorkerMessage::NewConnection {
                id: *id,
                host: *host,
                port: *port,
                manager: *manager,
            },
            WorkerProtocol::Heartbeat { id, heartbeat } => WorkerMessage::Heartbeat {
                id: *id,
                heartbeat: *heartbeat,
            },
            WorkerProtocol::GetClusterState { id } => WorkerMessage::GetClusterState { id: *id },
            WorkerProtocol::ClusterState { recipient_id, state } => WorkerMessage::ClusterState {
                recipient_id: *recipient_id,
                state: state@,
            },
            WorkerProtocol::NodeDisconnected { id } => WorkerMessage::NodeDisconnected { id: *id },
            WorkerProtocol::Leader { id, epoch, ts } => WorkerMessage::Leader {
                id: *id,
                epoch: *epoch,
                ts: *ts,
            },
            WorkerProtocol::RemovePartitionFromReplica { id, replica_id, partition_id } =>
                WorkerMessage::RemovePartitionFromReplica {
                id: *id,
                replica_id: *replica_id,
                partition_id: *partition_id,
            },
            WorkerProtocol::SyncBatch { recipient_id, request } => WorkerMessage::SyncBatch {
                recipient_id: *recipient_id,
                sender_id: request.sender_id,
                request_id: request.request_id,
                records: request.records@.map_values(|r: Record| r@),
            },
            WorkerProtocol::SyncBatchResponse { recipient_id, partition_id_to_max_applied_key } =>
                WorkerMessage::SyncBatchResponse {
                recipient_id: *recipient_id,
                partition_id_to_max_applied_key: partition_id_to_max_applied_key@,
            },
        }
    }
}

/// The contents of a sequence of worker messages.
pub open spec fn worker_message_views(s: Seq<WorkerProtocol>) -> Seq<WorkerMessage> {
    s.map_values(|m: WorkerProtocol| m@)
}

/// Sending one more message adds its content at the end.
pub proof fn lemma_worker_views_push(s: Seq<WorkerProtocol>, m: WorkerProtocol)
    ensures
        worker_message_views(s.push(m)) == worker_message_views(s).push(m@),
{
}

} // verus!
