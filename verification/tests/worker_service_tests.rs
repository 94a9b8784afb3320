use cluster_manager::common::{Config, Me, NodeId, NodeType};
use cluster_manager::worker::domain::WorkerProtocol;
use cluster_manager::worker::service::WorkerService;

fn config() -> Config {
    Config::Worker {
        grpc_port: 5001,
        self_host_port: ("127.0.0.1".to_string(), 7777),
        manager_host_port: ("10.0.0.1".to_string(), 6000),
    }
}

#[test]
fn worker_init_sets_up_its_state_and_connects_to_the_manager() {
    let me = Me {
        id: NodeId::from_string("11111111-1111-1111-1111-111111111111"),
        host: "127.0.0.1".to_string(),
        port: 7777,
    };
    let mut service = WorkerService::new(me.clone(), config());
    let output = service.get_init_messages_at(1234);
    assert!(matches!(
        output.as_slice(),
        [WorkerProtocol::NewConnection { id: None, host, port, manager: true }]
            if host == "10.0.0.1" && *port == 6000
    ));
    let state = service.state.as_ref().expect("state initialized");
    assert_eq!(state.epoch, None);
    assert_eq!(state.elected_leader_id, None);
    assert_eq!(state.nodes.len(), 1);
    let mine = state.nodes.get(&me.id).unwrap();
    assert_eq!(mine.last_heartbeat, 1234);
    assert_eq!(mine.node_type, NodeType::Worker);
    assert!(state.sync.is_empty());
    assert!(service.get_init_messages().is_empty());
}

#[test]
fn clock_reads_after_the_epoch() {
    assert!(cluster_manager::common::now_millis() > 1_600_000_000_000);
}

#[test]
fn messages_built_through_the_library_are_well_formed() {
    let id = NodeId::from_string("11111111-1111-1111-1111-111111111111");
    assert!(WorkerProtocol::NodeDisconnected { id }.is_well_formed());
    let snapshot = cluster_manager::common::ClusterState {
        epoch: 1,
        leader_id: id,
        items: vec![],
        partitions: cluster_manager::common::Partitions::new(),
    };
    assert!(WorkerProtocol::ClusterState {
        recipient_id: id,
        state: snapshot,
    }
    .is_well_formed());
}
