//! The events a manager exchanges over its connections with peers: which
//! incoming event becomes which message for the state machine, which ends
//! the connection, and which connection a message of the state machine goes
//! out on.
use crate::common::{ClusterNode, ClusterState, Heartbeat, NodeId, NodeType, Partitions};
use crate::manager::domain::{NodeMessage, NodeProtocol};
use vstd::prelude::*;

verus! {

/// A member as a cluster snapshot carries it over a connection: its address
/// may be missing.
#[derive(Debug)]
pub struct EventNode {
    pub id: NodeId,
    pub addr: Option<(String, u32)>,
    pub last_heartbeat: u64,
    pub node_type: NodeType,
}

impl View for EventNode {
    type V = EventNode;

    open spec fn view(&self) -> EventNode {
        *self
    }
}

/// An event that another manager sends over its connection.
#[derive(Debug)]
pub enum ManagerEvent {
    RemovePartitionFromReplica { replica_id: NodeId, partition_id: u32 },
    Heartbeat { id: NodeId, ts: u64 },
    GetClusterState,
    ClusterState {
        epoch: u64,
        leader_id: NodeId,
        nodes: Vec<EventNode>,
        partitions: Option<Partitions>,
    },
    VoteRequest { epoch: u64, ts: u64 },
    VoteResponse { leader_id: NodeId, ts: u64 },
    Leader { id: NodeId, epoch: u64, ts: u64 },
    Connect,
    ConnectResponse,
}

/// An event that a worker sends over its connection.
#[derive(Debug)]
pub enum WorkerEvent {
    RemovePartitionFromReplica { replica_id: NodeId, partition_id: u32 },
    Heartbeat { id: NodeId, ts: u64 },
    GetClusterState,
    ClusterState,
    ManagerLeader,
    Connect,
    ConnectResponse,
}

/// The partition number that a 32-bit partition field stands for: its low
/// 16 bits.
pub open spec fn partition_number(partition_id: u32) -> u16 {
    (partition_id % 0x10000) as u16
}

/// The members of a snapshot that carry an address, in order, as the state
/// machine takes them.
pub open spec fn addressed_items(nodes: Seq<EventNode>) -> Seq<ClusterNode>
    decreases nodes.len(),
{
    if nodes.len() == 0 {
        Seq::empty()
    } else {
        let rest = addressed_items(nodes.drop_last());
        let n = nodes.last();
        match n.addr {
            Some((host, port)) => rest.push(
                ClusterNode {
                    id: n.id,
                    host,
                    port,
                    last_heartbeat: n.last_heartbeat,
                    node_type: n.node_type,
                },
            ),
            None => rest,
        }
    }
}

/// What a manager event from `peer` becomes for the state machine of `me`;
/// `None` ends the connection.
pub open spec fn manager_event_message(
    me: NodeId,
    peer: NodeId,
    event: ManagerEvent,
) -> Option<NodeMessage> {
    match event {
        ManagerEvent::RemovePartitionFromReplica { replica_id, partition_id } => Some(
            NodeMessage::RemoveOldPartition {
                id: peer,
                replica_id,
                partition_id: partition_number(partition_id),
            },
        ),
        ManagerEvent::Heartbeat { id, ts } => Some(
            NodeMessage::Heartbeat { recipient_id: peer, heartbeat: Heartbeat { id, ts } },
        ),
        ManagerEvent::GetClusterState => Some(NodeMessage::GetClusterState { id: peer }),
        ManagerEvent::ClusterState { epoch, leader_id, nodes, partitions } => match partitions {
            Some(p) => Some(
                NodeMessage::ClusterState {
                    recipient_id: me,
                    state: crate::common::ClusterStateView {
                        epoch,
                        leader_id,
                        items: addressed_items(nodes@),
                        partitions: p@,
                    },
                },
            ),
            None => None,
        },
        ManagerEvent::VoteRequest { epoch, ts } => Some(
            NodeMessage::VoteRequest { id: peer, epoch, ts },
        ),
        ManagerEvent::VoteResponse { leader_id, ts } => Some(
            NodeMessage::VoteResponse { id: peer, leader_id, ts },
        ),
        ManagerEvent::Leader { id, epoch, ts } => Some(NodeMessage::Leader { id, epoch, ts }),
        ManagerEvent::Connect => None,
        ManagerEvent::ConnectResponse => None,
    }
}

/// What a worker event from `peer` becomes for the manager's state machine;
/// `None` ends the connection.
pub open spec fn worker_event_message(peer: NodeId, event: WorkerEvent) -> Option<NodeMessage> {
    match event {
        WorkerEvent::RemovePartitionFromReplica { replica_id, partition_id } => Some(
            NodeMessage::RemoveOldPartition {
                id: peer,
                replica_id,
                partition_id: partition_number(partition_id),
            },
        ),
        WorkerEvent::Heartbeat { id, ts } => Some(
            NodeMessage::Heartbeat { recipient_id: peer, heartbeat: Heartbeat { id, ts } },
        ),
        WorkerEvent::GetClusterState => Some(NodeMessage::GetClusterState { id: peer }),
        _ => None,
    }
}

/// The members of a snapshot that carry an address.
fn addressed(nodes: Vec<EventNode>) -> (items: Vec<ClusterNode>)
    ensures
        items@ == addressed_items(nodes@),
{
    let mut items: Vec<ClusterNode> = Vec::new();
    let mut i: usize = 0;
    while i < nodes.len()
        invariant
            i <= nodes@.len(),
            items@ == addressed_items(nodes@.take(i as int)),
        decreases nodes@.len() - i,
    {
        let n = &nodes[i];
        assert(nodes@.take(i + 1).drop_last() =~= nodes@.take(i as int));
        match &n.addr {
            Some(addr) => {
                items.push(
                    ClusterNode {
                        id: n.id,
                        host: addr.0.clone(),
                        port: addr.1,
                        last_heartbeat: n.last_heartbeat,
                        node_type: n.node_type,
                    },
                );
            },
            None => {},
        }
        i += 1;
    }
    assert(nodes@.take(nodes@.len() as int) =~= nodes@);
    items
}

/// Turns an event that manager `peer` sent to manager `me` into a message for
/// the state machine, or `None` where the event ends the connection: a
/// second connection request, a connection answer, or a snapshot without a
/// partition table.
pub fn manager_event_to_message(me: NodeId, peer: NodeId, event: ManagerEvent) -> (r: Option<
    NodeProtocol,
>)
    ensures
        match r {
            Some(m) => manager_event_message(me, peer, event) == Some(m@),
            None => manager_event_message(me, peer, event) is None,
        },
{
    match event {
        ManagerEvent::RemovePartitionFromReplica { replica_id, partition_id } => Some(
            NodeProtocol::RemoveOldPartition {
                id: peer,
                replica_id,
                partition_id: (partition_id % 0x10000) as u16,
            },
        ),
        ManagerEvent::Heartbeat { id, ts } => Some(
            NodeProtocol::Heartbeat { recipient_id: peer, heartbeat: Heartbeat { id, ts } },
        ),
        ManagerEvent::GetClusterState => Some(NodeProtocol::GetClusterState { id: peer }),
        ManagerEvent::ClusterState { epoch, leader_id, nodes, partitions } => match partitions {
            Some(p) => {
                let items = addressed(nodes);
                Some(
                    NodeProtocol::ClusterState {
                        recipient_id: me,
                        state: ClusterState { epoch, leader_id, items, partitions: p },
                    },
                )
            },
            None => None,
        },
        ManagerEvent::VoteRequest { epoch, ts } => Some(
            NodeProtocol::VoteRequest { id: peer, epoch, ts },
        ),
        ManagerEvent::VoteResponse { leader_id, ts } => Some(
            NodeProtocol::VoteResponse { id: peer, leader_id, ts },
        ),
        ManagerEvent::Leader { id, epoch, ts } => Some(NodeProtocol::Leader { id, epoch, ts }),
        ManagerEvent::Connect => None,
        ManagerEvent::ConnectResponse => None,
    }
}

/// Turns an event that worker `peer` sent into a message for the manager's
/// state machine, or `None` where the event ends the connection: anything
/// but a partition hand-over report, a heartbeat or a request for the
/// cluster state.
pub fn worker_event_to_message(peer: NodeId, event: WorkerEvent) -> (r: Option<NodeProtocol>)
    ensures
        match r {
            Some(m) => worker_event_message(peer, event) == Some(m@),
            None => worker_event_message(peer, event) is None,
        },
{
    match event {
        WorkerEvent::RemovePartitionFromReplica { replica_id, partition_id } => Some(
            NodeProtocol::RemoveOldPartition {
                id: peer,
                replica_id,
                partition_id: (partition_id % 0x10000) as u16,
            },
        ),
        WorkerEvent::Heartbeat { id, ts } => Some(
            NodeProtocol::Heartbeat { recipient_id: peer, heartbeat: Heartbeat { id, ts } },
        ),
        WorkerEvent::GetClusterState => Some(NodeProtocol::GetClusterState { id: peer }),
        _ => None,
    }
}

/// Where a message of the manager's state machine goes.
#[derive(Debug, PartialEq, Eq)]
pub enum Destination {
    /// Over the connection with this worker.
    Worker(NodeId),
    /// Over the connection with this manager.
    Manager(NodeId),
    /// Over a new connection to the manager at this address.
    ConnectToManager { host: String, port: u32 },
    /// Nowhere: a manager does not open connections to workers.
    Nowhere,
}

/// Where `msg` goes, where `to_worker` says whether its recipient holds a
/// worker connection.
pub open spec fn destination_of(msg: NodeMessage, to_worker: bool) -> Destination {
    match msg {
        NodeMessage::RemoveOldPartition { id, .. } => if to_worker {
            Destination::Worker(id)
        } else {
            Destination::Manager(id)
        },
        NodeMessage::Heartbeat { recipient_id, .. } => if to_worker {
            Destination::Worker(recipient_id)
        } else {
            Destination::Manager(recipient_id)
        },
        NodeMessage::NewConnection { host, port, manager, .. } => if manager {
            Destination::ConnectToManager { host, port }
        } else {
            Destination::Nowhere
        },
        NodeMessage::GetClusterState { id } => Destination::Manager(id),
        NodeMessage::ClusterState { recipient_id, .. } => if to_worker {
            Destination::Worker(recipient_id)
        } else {
            Destination::Manager(recipient_id)
        },
        NodeMessage::VoteRequest { id, .. } => Destination::Manager(id),
        NodeMessage::VoteResponse { id, .. } => Destination::Manager(id),
        NodeMessage::Leader { id, .. } => if to_worker {
            Destination::Worker(id)
        } else {
            Destination::Manager(id)
        },
        NodeMessage::NodeDisconnected { .. } => Destination::Nowhere,
    }
}

/// Where a message of the manager's state machine goes out, where
/// `to_worker` says whether its recipient holds a worker connection:
/// partition hand-over reports, heartbeats, snapshots and leader
/// announcements go to a worker's connection where the recipient has one;
/// connection requests open a connection to a manager; everything else goes
/// to the recipient manager.  The state machine never sends a disconnection
/// notice.
pub fn route(msg: &NodeProtocol, to_worker: bool) -> (d: Destination)
    requires
        !(msg is NodeDisconnected),
    ensures
        d == destination_of(msg@, to_worker),
{
    match msg {
        NodeProtocol::RemoveOldPartition { id, .. } => if to_worker {
            Destination::Worker(*id)
        } else {
            Destination::Manager(*id)
        },
        NodeProtocol::Heartbeat { recipient_id, .. } => if to_worker {
            Destination::Worker(*recipient_id)
        } else {
            Destination::Manager(*recipient_id)
        },
        NodeProtocol::NewConnection { host, port, manager, .. } => if *manager {
            Destination::ConnectToManager { host: host.clone(), port: *port }
        } else {
            Destination::Nowhere
        },
        NodeProtocol::GetClusterState { id } => Destination::Manager(*id),
        NodeProtocol::ClusterState { recipient_id, .. } => if to_worker {
            Destination::Worker(*recipient_id)
        } else {
            Destination::Manager(*recipient_id)
        },
        NodeProtocol::VoteRequest { id, .. } => Destination::Manager(*id),
        NodeProtocol::VoteResponse { id, .. } => Destination::Manager(*id),
        NodeProtocol::Leader { id, .. } => if to_worker {
            Destination::Worker(*id)
        } else {
            Destination::Manager(*id)
        },
        NodeProtocol::NodeDisconnected { .. } => Destination::Nowhere,
    }
}

} // verus!
