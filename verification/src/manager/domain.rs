//! Messages that the manager's state machine takes in and sends out.
use crate::common::{ClusterState, ClusterStateView, Heartbeat, NodeId};
use vstd::prelude::*;

verus! {

/// A message between the manager state machine and its peers.
#[derive(Debug)]
pub enum NodeProtocol {
    NewConnection { id: Option<NodeId>, host: String, port: u32, manager: bool },
    Heartbeat { recipient_id: NodeId, heartbeat: Heartbeat },
    GetClusterState { id: NodeId },
    ClusterState { recipient_id: NodeId, state: ClusterState },
    VoteRequest { id: NodeId, epoch: u64, ts: u64 },
    VoteResponse { id: NodeId, leader_id: NodeId, ts: u64 },
    Leader { id: NodeId, epoch: u64, ts: u64 },
    NodeDisconnected { id: NodeId },
    RemoveOldPartition { id: NodeId, replica_id: NodeId, partition_id: u16 },
}

/// The abstract content of a message.
pub enum NodeMessage {
    NewConnection { id: Option<NodeId>, host: String, port: u32, manager: bool },
    Heartbeat { recipient_id: NodeId, heartbeat: Heartbeat },
    GetClusterState { id: NodeId },
    ClusterState { recipient_id: NodeId, state: ClusterStateView },
    VoteRequest { id: NodeId, epoch: u64, ts: u64 },
    VoteResponse { id: NodeId, leader_id: NodeId, ts: u64 },
    Leader { id: NodeId, epoch: u64, ts: u64 },
    NodeDisconnected { id: NodeId },
    RemoveOldPartition { id: NodeId, replica_id: NodeId, partition_id: u16 },
}

impl View for NodeProtocol {
    type V = NodeMessage;

    open spec fn view(&self) -> NodeMessage {
        match self {
            NodeProtocol::NewConnection { id, host, port, manager } => NodeMessage::NewConnection {
                id: *id,
                host: *host,
                port: *port,
                manager: *manager,
            },
            NodeProtocol::Heartbeat { recipient_id, heartbeat } => NodeMessage::Heartbeat {
                recipient_id: *recipient_id,
                heartbeat: *heartbeat,
            },
            NodeProtocol::GetClusterState { id } => NodeMessage::GetClusterState { id: *id },
            NodeProtocol::ClusterState { recipient_id, state } => NodeMessage::ClusterState {
                recipient_id: *recipient_id,
                state: state@,
            },
            NodeProtocol::VoteRequest { id, epoch, ts } => NodeMessage::VoteRequest {
                id: *id,
                epoch: *epoch,
                ts: *ts,
            },
            NodeProtocol::VoteResponse { id, leader_id, ts } => NodeMessage::VoteResponse {
                id: *id,
                leader_id: *leader_id,
                ts: *ts,
            },
            NodeProtocol::Leader { id, epoch, ts } => NodeMessage::Leader {
                id: *id,
                epoch: *epoch,
                ts: *ts,
            },
            NodeProtocol::NodeDisconnected { id } => NodeMessage::NodeDisconnected { id: *id },
            NodeProtocol::RemoveOldPartition { id, replica_id, partition_id } =>
                NodeMessage::RemoveOldPartition {
                id: *id,
                replica_id: *replica_id,
                partition_id: *partition_id,
            },
        }
    }
}

/// The contents of a sequence of messages.
pub open spec fn message_views(s: Seq<NodeProtocol>) -> Seq<NodeMessage> {
    s.map_values(|m: NodeProtocol| m@)
}

/// Sending one more message adds its content at the end.
pub proof fn lemma_message_views_push(s: Seq<NodeProtocol>, m: NodeProtocol)
    ensures
        message_views(s.push(m)) == message_views(s).push(m@),
{
}

} // verus!
