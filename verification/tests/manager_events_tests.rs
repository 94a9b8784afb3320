use cluster_manager::common::{NodeId, NodeType, Partitions};
use cluster_manager::manager::domain::NodeProtocol;
use cluster_manager::manager::events::{
    manager_event_to_message, route, worker_event_to_message, Destination, EventNode,
    ManagerEvent, WorkerEvent,
};

fn node_id(id: &str) -> NodeId {
    NodeId::from_string(id)
}

#[test]
fn manager_events_become_messages_from_the_peer() {
    let me = node_id("11111111-1111-1111-1111-111111111111");
    let peer = node_id("22222222-2222-2222-2222-222222222222");
    let other = node_id("33333333-3333-3333-3333-333333333333");

    assert!(matches!(
        manager_event_to_message(me, peer, ManagerEvent::RemovePartitionFromReplica {
            replica_id: other,
            partition_id: 0x1_0005,
        }),
        Some(NodeProtocol::RemoveOldPartition { id, replica_id, partition_id: 5 })
            if id == peer && replica_id == other
    ));
    assert!(matches!(
        manager_event_to_message(me, peer, ManagerEvent::Heartbeat { id: other, ts: 42 }),
        Some(NodeProtocol::Heartbeat { recipient_id, heartbeat })
            if recipient_id == peer && heartbeat.id == other && heartbeat.ts == 42
    ));
    assert!(matches!(
        manager_event_to_message(me, peer, ManagerEvent::GetClusterState),
        Some(NodeProtocol::GetClusterState { id }) if id == peer
    ));
    assert!(matches!(
        manager_event_to_message(me, peer, ManagerEvent::VoteRequest { epoch: 3, ts: 9 }),
        Some(NodeProtocol::VoteRequest { id, epoch: 3, ts: 9 }) if id == peer
    ));
    assert!(matches!(
        manager_event_to_message(me, peer, ManagerEvent::VoteResponse { leader_id: other, ts: 9 }),
        Some(NodeProtocol::VoteResponse { id, leader_id, ts: 9 }) if id == peer && leader_id == other
    ));
    assert!(matches!(
        manager_event_to_message(me, peer, ManagerEvent::Leader { id: other, epoch: 4, ts: 1 }),
        Some(NodeProtocol::Leader { id, epoch: 4, ts: 1 }) if id == other
    ));
    assert!(manager_event_to_message(me, peer, ManagerEvent::Connect).is_none());
    assert!(manager_event_to_message(me, peer, ManagerEvent::ConnectResponse).is_none());
}

#[test]
fn snapshots_keep_addressed_nodes_and_need_a_partition_table() {
    let me = node_id("11111111-1111-1111-1111-111111111111");
    let peer = node_id("22222222-2222-2222-2222-222222222222");
    let other = node_id("33333333-3333-3333-3333-333333333333");
    let nodes = vec![
        EventNode {
            id: peer,
            addr: Some(("peer.local".to_string(), 9001)),
            last_heartbeat: 5,
            node_type: NodeType::Manager,
        },
        EventNode {
            id: other,
            addr: None,
            last_heartbeat: 6,
            node_type: NodeType::Worker,
        },
    ];
    match manager_event_to_message(
        me,
        peer,
        ManagerEvent::ClusterState {
            epoch: 2,
            leader_id: peer,
            nodes,
            partitions: Some(Partitions::new()),
        },
    ) {
        Some(NodeProtocol::ClusterState { recipient_id, state }) => {
            assert_eq!(recipient_id, me);
            assert_eq!(state.epoch, 2);
            assert_eq!(state.leader_id, peer);
            assert_eq!(state.items.len(), 1);
            assert_eq!(state.items[0].id, peer);
            assert_eq!(state.items[0].host, "peer.local");
            assert_eq!(state.items[0].port, 9001);
        }
        other => panic!("unexpected message: {:?}", other),
    }
    assert!(manager_event_to_message(
        me,
        peer,
        ManagerEvent::ClusterState {
            epoch: 2,
            leader_id: peer,
            nodes: vec![],
            partitions: None,
        },
    )
    .is_none());
}

#[test]
fn worker_events_become_messages_or_end_the_connection() {
    let peer = node_id("22222222-2222-2222-2222-222222222222");
    assert!(matches!(
        worker_event_to_message(peer, WorkerEvent::GetClusterState),
        Some(NodeProtocol::GetClusterState { id }) if id == peer
    ));
    assert!(matches!(
        worker_event_to_message(peer, WorkerEvent::Heartbeat { id: peer, ts: 7 }),
        Some(NodeProtocol::Heartbeat { recipient_id, heartbeat }) if recipient_id == peer && heartbeat.ts == 7
    ));
    assert!(worker_event_to_message(peer, WorkerEvent::ClusterState).is_none());
    assert!(worker_event_to_message(peer, WorkerEvent::ManagerLeader).is_none());
    assert!(worker_event_to_message(peer, WorkerEvent::Connect).is_none());
}

#[test]
fn messages_are_routed_by_the_recipients_connection() {
    let id = node_id("22222222-2222-2222-2222-222222222222");
    let leader = NodeProtocol::Leader { id, epoch: 1, ts: 2 };
    assert_eq!(route(&leader, true), Destination::Worker(id));
    assert_eq!(route(&leader, false), Destination::Manager(id));
    let vote = NodeProtocol::VoteRequest { id, epoch: 1, ts: 2 };
    assert_eq!(route(&vote, true), Destination::Manager(id));
    let connect = NodeProtocol::NewConnection {
        id: None,
        host: "m".to_string(),
        port: 9000,
        manager: true,
    };
    assert_eq!(
        route(&connect, false),
        Destination::ConnectToManager {
            host: "m".to_string(),
            port: 9000
        }
    );
    let to_worker = NodeProtocol::NewConnection {
        id: None,
        host: "w".to_string(),
        port: 9000,
        manager: false,
    };
    assert_eq!(route(&to_worker, false), Destination::Nowhere);
}
