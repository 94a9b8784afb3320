use cluster_manager::collections::{SortedMap, SortedSet};
use cluster_manager::common::{
    ClusterNode, Config, Me, Node, NodeId, NodeType, Partition, PartitionId, Partitions,
};
use cluster_manager::manager::cluster_state::{handle_cluster_state, handle_get_cluster_state};
use cluster_manager::manager::connection::{handle_new_connection_at, handle_node_disconnected};
use cluster_manager::manager::domain::NodeProtocol;
use cluster_manager::manager::election::{
    handle_leader, handle_vote_request, handle_vote_response, start_election_at, Election,
    Elections,
};
use cluster_manager::manager::heartbeat::{handle_heartbeat, heartbeats_at};
use cluster_manager::manager::service::ManagerService;
use cluster_manager::manager::state::State;

fn node_id(id: &str) -> NodeId {
    NodeId::from_string(id)
}

fn me(id: &str) -> Me {
    Me {
        id: node_id(id),
        host: "127.0.0.1".to_string(),
        port: 7000,
    }
}

fn config(manager_host_port: Option<(String, u16)>) -> Config {
    Config::Manager {
        grpc_port: 8080,
        self_host_port: ("127.0.0.1".to_string(), 7000),
        manager_host_port,
        replication_factor: 3,
    }
}

fn fresh_node(me: &Me, last_heartbeat: u64) -> Node {
    Node {
        host: me.host.clone(),
        port: me.port,
        last_heartbeat,
        node_type: NodeType::Manager,
    }
}

fn node(host: &str, port: u32, last_heartbeat: u64) -> Node {
    Node {
        host: host.to_string(),
        port,
        last_heartbeat,
        node_type: NodeType::Manager,
    }
}

fn worker_node(host: &str, port: u32, last_heartbeat: u64) -> Node {
    Node {
        host: host.to_string(),
        port,
        last_heartbeat,
        node_type: NodeType::Worker,
    }
}

fn cluster_node(
    id: NodeId,
    host: &str,
    port: u32,
    last_heartbeat: u64,
    node_type: NodeType,
) -> ClusterNode {
    ClusterNode {
        id,
        host: host.to_string(),
        port,
        last_heartbeat,
        node_type,
    }
}

fn state(
    epoch: Option<u64>,
    leader: Option<NodeId>,
    entries: Vec<(NodeId, Node)>,
) -> State {
    let mut nodes = SortedMap::new();
    for (k, v) in entries {
        nodes.insert(k, v);
    }
    let mut s = State::new(nodes, epoch);
    s.elected_leader_id = leader;
    s
}

fn set(ids: Vec<NodeId>) -> SortedSet<NodeId> {
    let mut s = SortedSet::new();
    for id in ids {
        s.insert(id);
    }
    s
}

fn mine(ts: u64, approvers: Vec<NodeId>) -> Election {
    Election::Mine {
        ts,
        approvers: set(approvers),
    }
}

const NOW: u64 = 1_000_000;

#[test]
fn init_with_manager_connection_requests_connection_and_sets_state() {
    let me = me("11111111-1111-1111-1111-111111111111");
    let mut service = ManagerService::new(
        me.clone(),
        config(Some(("manager.local".to_string(), 9000))),
    );

    let output = service.get_init_messages_at(NOW);

    assert!(matches!(
        output.as_slice(),
        [NodeProtocol::NewConnection {
            id: None,
            host,
            port,
            manager: true,
        }] if host == "manager.local" && *port == 9000
    ));
    let state = service.state.as_ref().expect("state initialized");
    assert_eq!(state.epoch, None);
    assert_eq!(state.elected_leader_id, None);
    assert!(state.nodes.contains_key(&me.id));
    assert_eq!(state.nodes.get(&me.id).unwrap().last_heartbeat, NOW);
}

#[test]
fn init_without_manager_starts_as_epoch_zero() {
    let me = me("11111111-1111-1111-1111-111111111111");
    let mut service = ManagerService::new(me.clone(), config(None));

    let output = service.get_init_messages();

    assert!(output.is_empty());
    let state = service.state.as_ref().expect("state initialized");
    assert_eq!(state.epoch, Some(0));
    assert_eq!(state.elected_leader_id, None);
    assert_eq!(state.nodes.len(), 1);
    assert!(state.nodes.contains_key(&me.id));

    assert!(service.get_init_messages().is_empty());
}

#[test]
fn get_cluster_state_returns_current_cluster_snapshot() {
    let me = me("11111111-1111-1111-1111-111111111111");
    let peer_id = node_id("22222222-2222-2222-2222-222222222222");
    let mut s = state(
        Some(3),
        Some(me.id),
        vec![
            (me.id, fresh_node(&me, NOW)),
            (peer_id, node("peer.local", 9001, 120)),
        ],
    );

    let mut output = vec![];
    handle_get_cluster_state(&mut output, &mut s, peer_id);

    match output.as_slice() {
        [NodeProtocol::ClusterState {
            recipient_id,
            state,
        }] => {
            assert_eq!(recipient_id, &peer_id);
            assert_eq!(state.epoch, 3);
            assert_eq!(state.leader_id, me.id);
            assert_eq!(state.items.len(), 2);
            assert!(state.partitions.mapping.is_empty());
            assert!(state.partitions.old_replicas.is_empty());
        }
        other => panic!("unexpected output: {:?}", other),
    }
}

#[test]
fn get_cluster_state_is_ignored_until_the_cluster_is_known() {
    let me = me("11111111-1111-1111-1111-111111111111");
    let mut s = state(None, None, vec![(me.id, fresh_node(&me, NOW))]);
    let mut output = vec![];
    handle_get_cluster_state(
        &mut output,
        &mut s,
        node_id("22222222-2222-2222-2222-222222222222"),
    );
    assert!(output.is_empty());
}

#[test]
fn cluster_state_updates_known_nodes_and_requests_unknown_managers() {
    let me = me("11111111-1111-1111-1111-111111111111");
    let peer = node_id("22222222-2222-2222-2222-222222222222");
    let unknown = node_id("33333333-3333-3333-3333-333333333333");
    let mut s = state(
        Some(1),
        Some(me.id),
        vec![
            (me.id, fresh_node(&me, NOW)),
            (peer, node("peer.local", 9001, NOW)),
        ],
    );

    let mut output = vec![];
    handle_cluster_state(
        &mut output,
        &mut s,
        2,
        me.id,
        vec![
            cluster_node(me.id, &me.host, me.port, NOW + 1, NodeType::Manager),
            cluster_node(unknown, "unknown.local", 9002, NOW + 2, NodeType::Manager),
        ],
        Partitions::new(),
    );

    assert!(matches!(
        output.as_slice(),
        [NodeProtocol::NewConnection { id, host, port, manager }]
            if id.is_none() && host == "unknown.local" && *port == 9002 && *manager
    ));
    assert_eq!(s.epoch, Some(2));
    assert_eq!(s.elected_leader_id, Some(me.id));
    assert_eq!(s.nodes.get(&me.id).unwrap().last_heartbeat, NOW + 1);
    assert_eq!(s.nodes.get(&peer).unwrap().last_heartbeat, NOW);
}

#[test]
fn cluster_state_accepts_new_epoch_same_leader_and_rejects_conflicts() {
    let me = me("11111111-1111-1111-1111-111111111111");
    let leader = node_id("22222222-2222-2222-2222-222222222222");
    let other_leader = node_id("33333333-3333-3333-3333-333333333333");
    let mut s = state(
        None,
        None,
        vec![
            (me.id, fresh_node(&me, NOW)),
            (leader, node("leader.local", 9001, NOW)),
        ],
    );

    let mut first = vec![];
    handle_cluster_state(
        &mut first,
        &mut s,
        4,
        leader,
        vec![
            cluster_node(me.id, &me.host, me.port, NOW, NodeType::Manager),
            cluster_node(leader, "leader.local", 9001, NOW, NodeType::Manager),
        ],
        Partitions::new(),
    );
    assert!(first.is_empty());
    assert_eq!(s.epoch, Some(4));

    let mut same_epoch_same_leader = vec![];
    handle_cluster_state(
        &mut same_epoch_same_leader,
        &mut s,
        4,
        leader,
        vec![cluster_node(me.id, &me.host, me.port, NOW + 1, NodeType::Manager)],
        Partitions::new(),
    );
    assert!(same_epoch_same_leader.is_empty());
    assert_eq!(s.nodes.get(&me.id).unwrap().last_heartbeat, NOW + 1);

    let mut conflict = vec![];
    handle_cluster_state(
        &mut conflict,
        &mut s,
        4,
        other_leader,
        vec![cluster_node(me.id, &me.host, me.port, NOW + 2, NodeType::Manager)],
        Partitions::new(),
    );
    assert!(conflict.is_empty());
    assert_eq!(s.epoch, Some(4));
    assert_eq!(s.nodes.get(&me.id).unwrap().last_heartbeat, NOW + 1);
}

#[test]
fn cluster_state_applies_partition_mapping_and_adds_unknown_workers() {
    let me = me("11111111-1111-1111-1111-111111111111");
    let worker = node_id("22222222-2222-2222-2222-222222222222");
    let other_worker = node_id("33333333-3333-3333-3333-333333333333");
    let mut s = state(
        Some(1),
        Some(me.id),
        vec![
            (me.id, fresh_node(&me, NOW)),
            (worker, worker_node("worker.local", 9100, NOW)),
        ],
    );
    let mut partitions = Partitions::new();
    partitions.mapping.insert(
        PartitionId(9),
        Partition {
            master: worker,
            replicas: set(vec![other_worker]),
        },
    );
    partitions
        .old_replicas
        .insert(PartitionId(8), set(vec![worker, other_worker]));

    let mut output = vec![];
    handle_cluster_state(
        &mut output,
        &mut s,
        2,
        me.id,
        vec![
            cluster_node(worker, "worker.local", 9100, NOW + 10, NodeType::Worker),
            cluster_node(other_worker, "worker-two.local", 9101, NOW + 20, NodeType::Worker),
        ],
        partitions,
    );

    assert!(output.is_empty());
    assert_eq!(s.nodes.get(&worker).unwrap().last_heartbeat, NOW + 10);
    let added = s.nodes.get(&other_worker).unwrap();
    assert_eq!(
        (&added.host, added.port, added.node_type),
        (&"worker-two.local".to_string(), 9101, NodeType::Worker)
    );
    let p9 = s.partitions.mapping.get(&PartitionId(9)).unwrap();
    assert_eq!(p9.master, worker);
    assert_eq!(p9.replicas.to_vec(), vec![other_worker]);
    assert_eq!(
        s.partitions.old_replicas.get(&PartitionId(8)).unwrap().to_vec(),
        vec![worker, other_worker]
    );
}

#[test]
fn stale_cluster_state_is_ignored() {
    let me = me("11111111-1111-1111-1111-111111111111");
    let leader = node_id("22222222-2222-2222-2222-222222222222");
    let mut s = state(
        Some(3),
        Some(leader),
        vec![
            (me.id, fresh_node(&me, NOW)),
            (leader, node("leader.local", 9001, NOW)),
        ],
    );

    let mut output = vec![];
    handle_cluster_state(
        &mut output,
        &mut s,
        2,
        me.id,
        vec![cluster_node(me.id, &me.host, me.port, NOW + 50, NodeType::Manager)],
        Partitions::new(),
    );

    assert!(output.is_empty());
    assert_eq!(s.epoch, Some(3));
    assert_eq!(s.elected_leader_id, Some(leader));
    assert_eq!(s.nodes.get(&me.id).unwrap().last_heartbeat, NOW);
}

#[test]
fn new_connection_adds_node_and_requests_cluster_state() {
    let me = me("11111111-1111-1111-1111-111111111111");
    let peer_id = node_id("22222222-2222-2222-2222-222222222222");
    let mut s = state(None, None, vec![(me.id, fresh_node(&me, NOW))]);

    let mut output = vec![];
    handle_new_connection_at(
        &mut output,
        &mut s,
        Some(peer_id),
        "peer.local".to_string(),
        9001,
        &me,
        true,
        NOW,
    );

    assert!(matches!(
        output.as_slice(),
        [NodeProtocol::GetClusterState { id }] if id == &peer_id
    ));
    assert!(s.nodes.contains_key(&peer_id));
    assert_eq!(s.nodes.get(&peer_id).unwrap().last_heartbeat, NOW);
}

#[test]
fn new_connection_while_we_are_leader_does_not_request_cluster_state() {
    let me = me("11111111-1111-1111-1111-111111111111");
    let peer = node_id("22222222-2222-2222-2222-222222222222");
    let mut s = state(
        Some(1),
        Some(me.id),
        vec![
            (me.id, fresh_node(&me, NOW)),
            (peer, node("peer.local", 9001, NOW)),
        ],
    );

    let mut output = vec![];
    handle_new_connection_at(
        &mut output,
        &mut s,
        Some(node_id("33333333-3333-3333-3333-333333333333")),
        "third.local".to_string(),
        9002,
        &me,
        true,
        NOW,
    );

    assert!(output.is_empty());
}

#[test]
fn node_disconnected_for_unknown_node_is_a_noop() {
    let me = me("11111111-1111-1111-1111-111111111111");
    let leader = node_id("22222222-2222-2222-2222-222222222222");
    let mut s = state(
        Some(1),
        Some(leader),
        vec![
            (me.id, fresh_node(&me, NOW)),
            (leader, node("leader.local", 9001, NOW)),
        ],
    );

    handle_node_disconnected(
        &mut s,
        node_id("33333333-3333-3333-3333-333333333333"),
        &me,
    );

    assert!(s.nodes.contains_key(&me.id));
    assert!(s.nodes.contains_key(&leader));
    assert_eq!(s.elected_leader_id, Some(leader));
}

#[test]
fn node_disconnected_clears_current_leader() {
    let me = me("11111111-1111-1111-1111-111111111111");
    let leader = node_id("22222222-2222-2222-2222-222222222222");
    let mut s = state(Some(7), Some(leader), vec![(leader, node("leader.local", 9001, 0))]);

    handle_node_disconnected(&mut s, leader, &me);

    assert_eq!(s.elected_leader_id, None);
    assert!(!s.nodes.contains_key(&leader));
    assert_eq!(s.epoch, Some(7));
}

#[test]
fn vote_request_adds_new_election_reuses_candidate_and_ignores_stale_epochs() {
    let me = me("11111111-1111-1111-1111-111111111111");
    let peer_one = node_id("22222222-2222-2222-2222-222222222222");
    let peer_two = node_id("33333333-3333-3333-3333-333333333333");
    let mut s = state(
        Some(0),
        Some(me.id),
        vec![
            (me.id, fresh_node(&me, NOW)),
            (peer_one, node("peer-one.local", 9001, NOW)),
            (peer_two, node("peer-two.local", 9002, NOW)),
        ],
    );
    let mut elections: Elections = SortedMap::new();

    let mut first = vec![];
    handle_vote_request(&mut first, &mut s, peer_one, 1, 100, &mut elections);
    assert!(matches!(
        first.as_slice(),
        [NodeProtocol::VoteResponse { id, leader_id, ts }]
            if id == &peer_one && leader_id == &peer_one && *ts == 100
    ));

    let mut second = vec![];
    handle_vote_request(&mut second, &mut s, peer_two, 1, 200, &mut elections);
    assert!(matches!(
        second.as_slice(),
        [NodeProtocol::VoteResponse { id, leader_id, ts }]
            if id == &peer_two && leader_id == &peer_one && *ts == 100
    ));

    let mut stale = vec![];
    handle_vote_request(&mut stale, &mut s, peer_two, 0, 300, &mut elections);
    assert!(stale.is_empty());
}

#[test]
fn vote_request_started_earlier_takes_the_vote_over() {
    let me = me("11111111-1111-1111-1111-111111111111");
    let peer_one = node_id("22222222-2222-2222-2222-222222222222");
    let peer_two = node_id("33333333-3333-3333-3333-333333333333");
    let mut s = state(Some(0), None, vec![(me.id, fresh_node(&me, NOW))]);
    let mut elections: Elections = SortedMap::new();
    let mut first = vec![];
    handle_vote_request(&mut first, &mut s, peer_one, 1, 200, &mut elections);
    let mut second = vec![];
    handle_vote_request(&mut second, &mut s, peer_two, 1, 100, &mut elections);
    assert!(matches!(
        second.as_slice(),
        [NodeProtocol::VoteResponse { id, leader_id, ts }]
            if id == &peer_two && leader_id == &peer_two && *ts == 100
    ));
}

#[test]
fn vote_response_for_unknown_leader_requests_cluster_state() {
    let me = me("11111111-1111-1111-1111-111111111111");
    let peer = node_id("22222222-2222-2222-2222-222222222222");
    let unknown_leader = node_id("33333333-3333-3333-3333-333333333333");
    let mut s = state(
        Some(1),
        Some(me.id),
        vec![
            (me.id, fresh_node(&me, NOW)),
            (peer, node("peer.local", 9001, NOW)),
        ],
    );
    let mut elections: Elections = SortedMap::new();
    elections.insert(1, mine(100, vec![]));

    let mut output = vec![];
    handle_vote_response(&mut output, &mut s, peer, unknown_leader, 100, &me, &mut elections);

    assert!(matches!(
        output.as_slice(),
        [NodeProtocol::GetClusterState { id }] if id == &peer
    ));
}

#[test]
fn vote_responses_elect_self_and_broadcast_leader() {
    let me = me("11111111-1111-1111-1111-111111111111");
    let peer_one = node_id("22222222-2222-2222-2222-222222222222");
    let peer_two = node_id("33333333-3333-3333-3333-333333333333");
    let mut s = state(
        Some(0),
        Some(me.id),
        vec![
            (me.id, fresh_node(&me, NOW)),
            (peer_one, node("peer-one.local", 9001, 0)),
            (peer_two, node("peer-two.local", 9002, 0)),
        ],
    );
    let mut elections: Elections = SortedMap::new();
    elections.insert(1, mine(100, vec![]));

    let mut first = vec![];
    handle_vote_response(&mut first, &mut s, peer_one, me.id, 100, &me, &mut elections);
    assert!(first.is_empty());

    let mut second = vec![];
    handle_vote_response(&mut second, &mut s, peer_two, me.id, 100, &me, &mut elections);

    assert_eq!(s.elected_leader_id, Some(me.id));
    assert_eq!(s.epoch, Some(1));
    assert!(elections.is_empty());
    assert!(matches!(
        second.as_slice(),
        [
            NodeProtocol::Leader { id, epoch, ts },
            NodeProtocol::Leader { id: id2, epoch: epoch2, ts: ts2 }
        ] if *epoch == 1
            && *ts == 100
            && *epoch2 == 1
            && *ts2 == 100
            && ((id == &peer_one && id2 == &peer_two) || (id == &peer_two && id2 == &peer_one))
    ));
}

#[test]
fn vote_responses_complete_election_with_worker_nodes_present() {
    let me = me("11111111-1111-1111-1111-111111111111");
    let manager_peer = node_id("22222222-2222-2222-2222-222222222222");
    let worker_peer = node_id("33333333-3333-3333-3333-333333333333");
    let mut s = state(
        Some(0),
        Some(me.id),
        vec![
            (me.id, fresh_node(&me, NOW)),
            (manager_peer, node("manager.local", 9001, 0)),
            (worker_peer, worker_node("worker.local", 9100, 0)),
        ],
    );
    let mut elections: Elections = SortedMap::new();
    elections.insert(1, mine(100, vec![]));

    let mut output = vec![];
    handle_vote_response(&mut output, &mut s, manager_peer, me.id, 100, &me, &mut elections);

    assert_eq!(s.elected_leader_id, Some(me.id));
    assert_eq!(s.epoch, Some(1));
    assert_eq!(output.len(), 2);
    assert!(output
        .iter()
        .any(|msg| matches!(msg, NodeProtocol::Leader { id, .. } if id == &manager_peer)));
    assert!(output
        .iter()
        .any(|msg| matches!(msg, NodeProtocol::Leader { id, .. } if id == &worker_peer)));
}

#[test]
fn vote_for_an_older_election_is_not_counted() {
    let me = me("11111111-1111-1111-1111-111111111111");
    let peer = node_id("22222222-2222-2222-2222-222222222222");
    let mut s = state(
        Some(0),
        None,
        vec![(me.id, fresh_node(&me, NOW)), (peer, node("peer.local", 9001, 0))],
    );
    let mut elections: Elections = SortedMap::new();
    elections.insert(1, mine(100, vec![]));
    let mut output = vec![];
    handle_vote_response(&mut output, &mut s, peer, me.id, 99, &me, &mut elections);
    assert!(output.is_empty());
    assert_eq!(s.elected_leader_id, None);
    assert_eq!(s.epoch, Some(0));
}

#[test]
fn leader_message_updates_epoch_and_clears_pending_elections() {
    let me = me("11111111-1111-1111-1111-111111111111");
    let leader = node_id("22222222-2222-2222-2222-222222222222");
    let mut s = state(
        Some(1),
        None,
        vec![
            (me.id, fresh_node(&me, NOW)),
            (leader, node("leader.local", 9001, NOW)),
        ],
    );
    let mut elections: Elections = SortedMap::new();
    elections.insert(2, mine(NOW, vec![leader]));

    handle_leader(&mut Vec::new(), &mut s, leader, 2, NOW + 10, &me, &mut elections);

    assert_eq!(s.epoch, Some(2));
    assert_eq!(s.elected_leader_id, Some(leader));
    assert_eq!(s.nodes.get(&leader).unwrap().last_heartbeat, NOW + 10);
    assert!(elections.is_empty());
}

#[test]
fn leader_with_unknown_id_requests_cluster_state_from_manager_peers_only() {
    let me = me("11111111-1111-1111-1111-111111111111");
    let manager_peer = node_id("22222222-2222-2222-2222-222222222222");
    let worker_peer = node_id("33333333-3333-3333-3333-333333333333");
    let leader = node_id("44444444-4444-4444-4444-444444444444");
    let mut s = state(
        Some(1),
        None,
        vec![
            (me.id, fresh_node(&me, NOW)),
            (manager_peer, node("manager.local", 9001, NOW)),
            (worker_peer, worker_node("worker.local", 9100, NOW)),
        ],
    );
    let mut elections: Elections = SortedMap::new();

    let mut output = vec![];
    handle_leader(&mut output, &mut s, leader, 2, NOW + 10, &me, &mut elections);

    assert!(matches!(
        output.as_slice(),
        [NodeProtocol::GetClusterState { id }] if id == &manager_peer
    ));
    assert_eq!(s.epoch, Some(1));
}

#[test]
fn leader_messages_only_move_state_forward() {
    let me = me("11111111-1111-1111-1111-111111111111");
    let leader = node_id("22222222-2222-2222-2222-222222222222");
    let mut s = state(
        Some(1),
        None,
        vec![
            (me.id, fresh_node(&me, NOW)),
            (leader, node("leader.local", 9001, NOW)),
        ],
    );
    let mut elections: Elections = SortedMap::new();

    handle_leader(&mut vec![], &mut s, leader, 2, NOW, &me, &mut elections);
    assert_eq!(s.epoch, Some(2));
    assert_eq!(s.elected_leader_id, Some(leader));
    assert_eq!(s.nodes.get(&leader).unwrap().last_heartbeat, NOW);

    handle_leader(&mut vec![], &mut s, me.id, 1, 88, &me, &mut elections);
    assert_eq!(s.epoch, Some(2));
    assert_eq!(s.elected_leader_id, Some(leader));
}

#[test]
fn tick_starts_election_when_leader_is_missing() {
    let me = me("11111111-1111-1111-1111-111111111111");
    let peer = node_id("22222222-2222-2222-2222-222222222222");
    let mut s = state(
        Some(4),
        None,
        vec![(me.id, fresh_node(&me, NOW)), (peer, node("peer.local", 9001, 0))],
    );
    let mut elections: Elections = SortedMap::new();

    let mut output = vec![];
    start_election_at(&mut s, &mut elections, &me, &mut output, NOW, 700);

    assert!(matches!(
        output.as_slice(),
        [NodeProtocol::VoteRequest { id, epoch, ts }] if id == &peer && *epoch == 5 && *ts == NOW
    ));
    assert_eq!(elections.len(), 1);
    assert_eq!(elections.key_at(0), 5);
    assert!(matches!(elections.value_at(0), Election::Mine { ts, .. } if *ts == NOW));
}

#[test]
fn tick_starts_a_new_election_only_for_manager_peers() {
    let me = me("11111111-1111-1111-1111-111111111111");
    let manager_peer = node_id("22222222-2222-2222-2222-222222222222");
    let worker_peer = node_id("33333333-3333-3333-3333-333333333333");
    let mut s = state(
        Some(7),
        None,
        vec![
            (me.id, fresh_node(&me, NOW)),
            (manager_peer, node("manager.local", 9001, 0)),
            (worker_peer, worker_node("worker.local", 9100, 0)),
        ],
    );
    let mut elections: Elections = SortedMap::new();

    let mut output = vec![];
    start_election_at(&mut s, &mut elections, &me, &mut output, NOW, 500);

    assert!(matches!(
        output.as_slice(),
        [NodeProtocol::VoteRequest { id, epoch, .. }] if id == &manager_peer && *epoch == 8
    ));
    assert_eq!(elections.key_at(0), 8);
}

#[test]
fn election_waits_before_starting_again() {
    let me = me("11111111-1111-1111-1111-111111111111");
    let peer = node_id("22222222-2222-2222-2222-222222222222");
    let mut s = state(
        Some(4),
        None,
        vec![(me.id, fresh_node(&me, NOW)), (peer, node("peer.local", 9001, 0))],
    );
    let mut elections: Elections = SortedMap::new();
    let mut first = vec![];
    start_election_at(&mut s, &mut elections, &me, &mut first, NOW, 700);
    let mut early = vec![];
    start_election_at(&mut s, &mut elections, &me, &mut early, NOW + 699, 700);
    assert!(early.is_empty());
    let mut later = vec![];
    start_election_at(&mut s, &mut elections, &me, &mut later, NOW + 701, 700);
    assert!(matches!(
        later.as_slice(),
        [NodeProtocol::VoteRequest { epoch, .. }] if *epoch == 6
    ));
}

#[test]
fn no_election_while_a_leader_is_known_or_alone() {
    let me = me("11111111-1111-1111-1111-111111111111");
    let peer = node_id("22222222-2222-2222-2222-222222222222");
    let mut led = state(
        Some(4),
        Some(peer),
        vec![(me.id, fresh_node(&me, NOW)), (peer, node("peer.local", 9001, 0))],
    );
    let mut elections: Elections = SortedMap::new();
    let mut output = vec![];
    start_election_at(&mut led, &mut elections, &me, &mut output, NOW, 700);
    assert!(output.is_empty());
    let mut alone = state(Some(4), None, vec![(me.id, fresh_node(&me, NOW))]);
    start_election_at(&mut alone, &mut elections, &me, &mut output, NOW, 700);
    assert!(output.is_empty());
    assert!(elections.is_empty());
}

#[test]
fn heartbeat_from_unknown_node_requests_cluster_state_from_peers() {
    let me = me("11111111-1111-1111-1111-111111111111");
    let peer_id = node_id("22222222-2222-2222-2222-222222222222");
    let mut s = state(
        Some(1),
        Some(me.id),
        vec![
            (me.id, fresh_node(&me, NOW)),
            (peer_id, node("peer.local", 9001, 0)),
        ],
    );

    let mut output = vec![];
    handle_heartbeat(
        &mut output,
        &mut s,
        node_id("33333333-3333-3333-3333-333333333333"),
        42,
        &me,
    );

    assert!(matches!(
        output.as_slice(),
        [NodeProtocol::GetClusterState { id }] if id == &peer_id
    ));
}

#[test]
fn heartbeat_from_known_peer_is_forwarded_only_when_we_are_leader() {
    let me = me("11111111-1111-1111-1111-111111111111");
    let peer_one = node_id("22222222-2222-2222-2222-222222222222");
    let peer_two = node_id("33333333-3333-3333-3333-333333333333");
    let mut s = state(
        Some(1),
        Some(me.id),
        vec![
            (me.id, fresh_node(&me, NOW)),
            (peer_one, node("peer-one.local", 9001, 0)),
            (peer_two, node("peer-two.local", 9002, 0)),
        ],
    );

    let mut forwarded = vec![];
    handle_heartbeat(&mut forwarded, &mut s, peer_one, 42, &me);
    assert!(matches!(
        forwarded.as_slice(),
        [NodeProtocol::Heartbeat { recipient_id, heartbeat }]
            if recipient_id == &peer_two && heartbeat.id == peer_one && heartbeat.ts == 42
    ));

    s.elected_leader_id = Some(peer_two);
    let mut not_forwarded = vec![];
    handle_heartbeat(&mut not_forwarded, &mut s, peer_one, 43, &me);
    assert!(not_forwarded.is_empty());
    assert_eq!(s.nodes.get(&peer_one).unwrap().last_heartbeat, 43);
}

#[test]
fn heartbeat_from_worker_updates_worker_without_forwarding() {
    let me = me("11111111-1111-1111-1111-111111111111");
    let worker = node_id("22222222-2222-2222-2222-222222222222");
    let manager_peer = node_id("33333333-3333-3333-3333-333333333333");
    let mut s = state(
        Some(1),
        Some(me.id),
        vec![
            (me.id, fresh_node(&me, NOW)),
            (worker, worker_node("worker.local", 9100, 12)),
            (manager_peer, node("manager.local", 9001, 0)),
        ],
    );

    let mut output = vec![];
    handle_heartbeat(&mut output, &mut s, worker, 44, &me);

    assert!(matches!(
        output.as_slice(),
        [NodeProtocol::Heartbeat { recipient_id, heartbeat }]
            if recipient_id == &manager_peer && heartbeat.id == worker && heartbeat.ts == 44
    ));
    assert_eq!(s.nodes.get(&worker).unwrap().last_heartbeat, 44);
}

#[test]
fn tick_emits_heartbeats_for_stale_self_heartbeat() {
    let me = me("11111111-1111-1111-1111-111111111111");
    let peer_id = node_id("22222222-2222-2222-2222-222222222222");
    let mut s = state(
        Some(1),
        Some(me.id),
        vec![
            (me.id, fresh_node(&me, NOW - 1_000)),
            (peer_id, node("peer.local", 9001, 0)),
        ],
    );

    let mut output = vec![];
    heartbeats_at(&mut s, &mut output, &me, NOW, 700);

    assert!(matches!(
        output.as_slice(),
        [NodeProtocol::Heartbeat { recipient_id, heartbeat }]
            if recipient_id == &peer_id && heartbeat.id == me.id && heartbeat.ts == NOW
    ));
    assert_eq!(s.nodes.get(&me.id).unwrap().last_heartbeat, NOW);
}

#[test]
fn fresh_self_heartbeat_is_not_repeated() {
    let me = me("11111111-1111-1111-1111-111111111111");
    let peer_id = node_id("22222222-2222-2222-2222-222222222222");
    let mut s = state(
        Some(1),
        Some(me.id),
        vec![
            (me.id, fresh_node(&me, NOW - 199)),
            (peer_id, node("peer.local", 9001, 0)),
        ],
    );
    let mut output = vec![];
    heartbeats_at(&mut s, &mut output, &me, NOW, 700);
    assert!(output.is_empty());
    assert_eq!(s.nodes.get(&me.id).unwrap().last_heartbeat, NOW - 199);
}

#[test]
fn tick_clears_stale_remote_leader_without_emitting_messages() {
    let me = me("11111111-1111-1111-1111-111111111111");
    let leader = node_id("22222222-2222-2222-2222-222222222222");
    let mut s = state(
        None,
        Some(leader),
        vec![
            (me.id, fresh_node(&me, NOW)),
            (leader, node("leader.local", 9001, NOW - 1_000)),
        ],
    );

    let mut output = vec![];
    heartbeats_at(&mut s, &mut output, &me, NOW, 999);

    assert!(output.is_empty());
    assert_eq!(s.elected_leader_id, None);
}

#[test]
fn recent_remote_leader_is_kept() {
    let me = me("11111111-1111-1111-1111-111111111111");
    let leader = node_id("22222222-2222-2222-2222-222222222222");
    let mut s = state(
        Some(2),
        Some(leader),
        vec![
            (me.id, fresh_node(&me, NOW)),
            (leader, node("leader.local", 9001, NOW - 1_000)),
        ],
    );
    let mut output = vec![];
    heartbeats_at(&mut s, &mut output, &me, NOW, 1_000);
    assert_eq!(s.elected_leader_id, Some(leader));
}

#[test]
fn process_before_init_only_ticks() {
    let me = me("11111111-1111-1111-1111-111111111111");
    let mut service = ManagerService::new(me, config(None));
    let mut output = vec![];
    service.process(
        NodeProtocol::GetClusterState {
            id: node_id("22222222-2222-2222-2222-222222222222"),
        },
        &mut output,
    );
    assert!(output.is_empty());
    assert!(service.state.is_none());
}

#[test]
fn process_routes_a_message_to_its_handler() {
    let me = me("11111111-1111-1111-1111-111111111111");
    let peer = node_id("22222222-2222-2222-2222-222222222222");
    let mut service = ManagerService::new(me.clone(), config(None));
    service.get_init_messages();
    let mut output = vec![];
    service.process(
        NodeProtocol::NewConnection {
            id: Some(peer),
            host: "peer.local".to_string(),
            port: 9001,
            manager: false,
        },
        &mut output,
    );
    let state = service.state.as_ref().unwrap();
    assert!(state.nodes.contains_key(&peer));
    assert!(state.nodes.get(&peer).unwrap().is_worker());
}

#[test]
fn late_vote_for_an_older_election_takes_its_epoch() {
    let me = me("11111111-1111-1111-1111-111111111111");
    let peer = node_id("22222222-2222-2222-2222-222222222222");
    let other_leader = node_id("44444444-4444-4444-4444-444444444444");
    let mut s = state(
        Some(0),
        None,
        vec![(me.id, fresh_node(&me, NOW)), (peer, node("peer.local", 9001, 0))],
    );
    let mut elections: Elections = SortedMap::new();
    let mut output = vec![];
    start_election_at(&mut s, &mut elections, &me, &mut output, NOW, 600);
    handle_cluster_state(&mut output, &mut s, 7, other_leader, vec![], Partitions::new());
    assert_eq!(s.epoch, Some(7));

    let mut votes = vec![];
    handle_vote_response(&mut votes, &mut s, peer, me.id, NOW, &me, &mut elections);
    assert_eq!(s.elected_leader_id, Some(me.id));
    assert_eq!(s.epoch, Some(1));
}
