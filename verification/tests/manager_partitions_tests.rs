use cluster_manager::collections::{SortedMap, SortedSet};
use cluster_manager::common::{Me, Node, NodeId, NodeType, Partition, PartitionId, Partitions};
use cluster_manager::manager::domain::NodeProtocol;
use cluster_manager::manager::partitions::{
    calc_replica_index, calculate_new_mapping, create_new_workers_state, current_workers,
    deduplicate_partitions, move_current_mapping_to_old, worker_partitions,
};
use cluster_manager::manager::state::State;

fn node_id(id: &str) -> NodeId {
    NodeId::from_string(id)
}

fn replicas(ids: Vec<NodeId>) -> SortedSet<NodeId> {
    let mut s = SortedSet::new();
    for id in ids {
        s.insert(id);
    }
    s
}

fn ids(s: &SortedSet<NodeId>) -> Vec<NodeId> {
    s.to_vec()
}

fn sorted(mut v: Vec<NodeId>) -> Vec<NodeId> {
    v.sort();
    v
}

fn manager_node(host: &str, port: u32, last_heartbeat: u64) -> Node {
    Node {
        host: host.to_string(),
        port,
        last_heartbeat,
        node_type: NodeType::Manager,
    }
}

fn worker_node(host: &str, port: u32, last_heartbeat: u64) -> Node {
    Node {
        host: host.to_string(),
        port,
        last_heartbeat,
        node_type: NodeType::Worker,
    }
}

fn nodes(entries: Vec<(NodeId, Node)>) -> SortedMap<NodeId, Node> {
    let mut m = SortedMap::new();
    for (k, v) in entries {
        m.insert(k, v);
    }
    m
}

fn me(id: &str) -> Me {
    Me {
        id: node_id(id),
        host: "127.0.0.1".to_string(),
        port: 7000,
    }
}

#[test]
fn deduplicate_partitions_removes_new_master_and_secondary_replicas_from_old_replicas() {
    let old_only = node_id("11111111-1111-1111-1111-111111111111");
    let new_master = node_id("22222222-2222-2222-2222-222222222222");
    let new_replica = node_id("33333333-3333-3333-3333-333333333333");
    let other_old = node_id("44444444-4444-4444-4444-444444444444");
    let mut partitions = Partitions::new();
    partitions.mapping.insert(
        PartitionId(1),
        Partition {
            master: new_master,
            replicas: replicas(vec![new_replica]),
        },
    );
    partitions.old_replicas.insert(
        PartitionId(1),
        replicas(vec![old_only, new_master, new_replica]),
    );
    partitions
        .old_replicas
        .insert(PartitionId(2), replicas(vec![other_old]));

    deduplicate_partitions(&mut partitions);

    assert_eq!(
        partitions.old_replicas.get(&PartitionId(1)).map(ids),
        Some(vec![old_only])
    );
    assert_eq!(
        partitions.old_replicas.get(&PartitionId(2)).map(ids),
        Some(vec![other_old])
    );
}

#[test]
fn deduplicate_partitions_removes_partition_when_all_old_replicas_are_new_replicas() {
    let new_master = node_id("11111111-1111-1111-1111-111111111111");
    let new_replica = node_id("22222222-2222-2222-2222-222222222222");
    let mut partitions = Partitions::new();
    partitions.mapping.insert(
        PartitionId(1),
        Partition {
            master: new_master,
            replicas: replicas(vec![new_replica]),
        },
    );
    partitions
        .old_replicas
        .insert(PartitionId(1), replicas(vec![new_master, new_replica]));

    deduplicate_partitions(&mut partitions);

    assert!(!partitions.old_replicas.contains_key(&PartitionId(1)));
}

#[test]
fn deduplicate_partitions_keeps_old_replicas_of_unplaced_partitions() {
    let a = node_id("11111111-1111-1111-1111-111111111111");
    let mut partitions = Partitions::new();
    partitions.old_replicas.insert(PartitionId(5), replicas(vec![a]));
    deduplicate_partitions(&mut partitions);
    assert_eq!(
        partitions.old_replicas.get(&PartitionId(5)).map(ids),
        Some(vec![a])
    );
}

#[test]
fn move_current_mapping_to_old_merges_existing_old_mapping_and_filters_stale_replicas() {
    let me = me("11111111-1111-1111-1111-111111111111");
    let current_master = node_id("22222222-2222-2222-2222-222222222222");
    let current_replica = node_id("33333333-3333-3333-3333-333333333333");
    let old_master = node_id("44444444-4444-4444-4444-444444444444");
    let old_replica = node_id("55555555-5555-5555-5555-555555555555");
    let stale_worker = node_id("66666666-6666-6666-6666-666666666666");
    let mut state = State::with_epoch(
        nodes(vec![
            (me.id, manager_node(&me.host, me.port, 0)),
            (current_master, worker_node("worker.local", 9100, 0)),
            (current_replica, worker_node("replica.local", 9101, 0)),
            (old_replica, worker_node("old-replica.local", 9102, 0)),
        ]),
        1,
    );
    state.elected_leader_id = Some(me.id);
    state.partitions.mapping.insert(
        PartitionId(1),
        Partition {
            master: current_master,
            replicas: replicas(vec![current_replica, old_replica]),
        },
    );
    state
        .partitions
        .old_replicas
        .insert(PartitionId(1), replicas(vec![old_master, old_replica]));
    state
        .partitions
        .old_replicas
        .insert(PartitionId(2), replicas(vec![stale_worker]));

    let current_keys = vec![current_master, current_replica, old_replica];
    move_current_mapping_to_old(&mut state, &current_keys);

    assert!(state.partitions.mapping.is_empty());
    assert_eq!(
        state.partitions.old_replicas.get(&PartitionId(1)).map(ids),
        Some(sorted(vec![current_master, current_replica, old_replica]))
    );
    assert!(!state
        .partitions
        .old_replicas
        .get(&PartitionId(1))
        .unwrap()
        .contains(&old_master));
    assert!(!state.partitions.old_replicas.contains_key(&PartitionId(2)));
}

#[test]
fn calc_replica_index_steps_back_from_the_master() {
    assert_eq!(calc_replica_index(5, 3, 0), 3);
    assert_eq!(calc_replica_index(5, 3, 1), 2);
    assert_eq!(calc_replica_index(5, 3, 3), 0);
    assert_eq!(calc_replica_index(5, 3, 4), 4);
    assert_eq!(calc_replica_index(5, 0, 1), 4);
    assert_eq!(calc_replica_index(5, 0, 2), 3);
    assert_eq!(calc_replica_index(5, 2, 7), 0);
    assert_eq!(calc_replica_index(3, 1, 9), 1);
    assert_eq!(calc_replica_index(1, 0, 4), 0);
}

#[test]
fn calculate_new_mapping_places_masters_round_robin_and_replicas_behind_them() {
    let a = node_id("11111111-1111-1111-1111-111111111111");
    let b = node_id("22222222-2222-2222-2222-222222222222");
    let c = node_id("33333333-3333-3333-3333-333333333333");
    let mut state = State::with_epoch(nodes(vec![]), 0);
    let workers = vec![a, b, c];
    calculate_new_mapping(&mut state, 6, 2, &workers);
    assert_eq!(state.partitions.mapping.len(), 6);
    let p0 = state.partitions.mapping.get(&PartitionId(0)).unwrap();
    assert_eq!(p0.master, a);
    assert_eq!(ids(&p0.replicas), vec![c]);
    let p1 = state.partitions.mapping.get(&PartitionId(1)).unwrap();
    assert_eq!(p1.master, b);
    assert_eq!(ids(&p1.replicas), vec![a]);
    let p5 = state.partitions.mapping.get(&PartitionId(5)).unwrap();
    assert_eq!(p5.master, c);
    assert_eq!(ids(&p5.replicas), vec![b]);
}

#[test]
fn calculate_new_mapping_with_factor_one_has_no_secondary_replicas() {
    let a = node_id("11111111-1111-1111-1111-111111111111");
    let b = node_id("22222222-2222-2222-2222-222222222222");
    let mut state = State::with_epoch(nodes(vec![]), 0);
    calculate_new_mapping(&mut state, 4, 1, &vec![a, b]);
    for p in 0..4u16 {
        let placed = state.partitions.mapping.get(&PartitionId(p)).unwrap();
        assert_eq!(placed.master, if p % 2 == 0 { a } else { b });
        assert!(placed.replicas.is_empty());
    }
}

#[test]
fn calculate_new_mapping_with_more_copies_than_workers_reuses_the_master() {
    let a = node_id("11111111-1111-1111-1111-111111111111");
    let mut state = State::with_epoch(nodes(vec![]), 0);
    calculate_new_mapping(&mut state, 2, 3, &vec![a]);
    let placed = state.partitions.mapping.get(&PartitionId(1)).unwrap();
    assert_eq!(placed.master, a);
    assert_eq!(ids(&placed.replicas), vec![a]);
}

#[test]
fn current_workers_lists_only_workers() {
    let m = node_id("11111111-1111-1111-1111-111111111111");
    let w1 = node_id("22222222-2222-2222-2222-222222222222");
    let w2 = node_id("33333333-3333-3333-3333-333333333333");
    let all = nodes(vec![
        (w2, worker_node("w2", 2, 0)),
        (m, manager_node("m", 1, 0)),
        (w1, worker_node("w1", 1, 0)),
    ]);
    assert_eq!(ids(&current_workers(&all)), vec![w1, w2]);
}

#[test]
fn create_new_workers_state_carries_the_epoch_leader_and_table() {
    let leader = node_id("11111111-1111-1111-1111-111111111111");
    let w = node_id("22222222-2222-2222-2222-222222222222");
    let mut state = State::with_epoch(nodes(vec![(w, worker_node("w", 1, 0))]), 4);
    state.elected_leader_id = Some(leader);
    calculate_new_mapping(&mut state, 3, 1, &vec![w]);
    let snapshot = create_new_workers_state(&state);
    assert_eq!(snapshot.epoch, 4);
    assert_eq!(snapshot.leader_id, leader);
    assert!(snapshot.items.is_empty());
    assert_eq!(snapshot.partitions.mapping.len(), 3);
    assert_eq!(
        snapshot.partitions.mapping.get(&PartitionId(2)).unwrap().master,
        w
    );
}

#[test]
fn worker_partitions_on_the_leader_places_all_partitions_and_tells_the_others() {
    let me = me("11111111-1111-1111-1111-111111111111");
    let w1 = node_id("22222222-2222-2222-2222-222222222222");
    let w2 = node_id("33333333-3333-3333-3333-333333333333");
    let mut state = State::with_epoch(
        nodes(vec![
            (me.id, manager_node(&me.host, me.port, 0)),
            (w1, worker_node("w1", 1, 0)),
            (w2, worker_node("w2", 2, 0)),
        ]),
        3,
    );
    state.elected_leader_id = Some(me.id);
    let mut output = vec![];
    worker_partitions(&mut state, &mut output, &me, 2);

    assert_eq!(state.partitions.mapping.len(), 4096);
    assert_eq!(ids(&state.workers_with_calculated_partitions), vec![w1, w2]);
    let p0 = state.partitions.mapping.get(&PartitionId(0)).unwrap();
    assert_eq!(p0.master, w1);
    assert_eq!(ids(&p0.replicas), vec![w2]);
    assert_eq!(output.len(), 2);
    for (msg, expected) in output.iter().zip([w1, w2]) {
        match msg {
            NodeProtocol::ClusterState {
                recipient_id,
                state: snapshot,
            } => {
                assert_eq!(*recipient_id, expected);
                assert_eq!(snapshot.epoch, 3);
                assert_eq!(snapshot.leader_id, me.id);
                assert_eq!(snapshot.partitions.mapping.len(), 4096);
            }
            other => panic!("unexpected message: {:?}", other),
        }
    }

    let mut again = vec![];
    worker_partitions(&mut state, &mut again, &me, 2);
    assert!(again.is_empty());
}

#[test]
fn worker_partitions_is_skipped_when_not_leading() {
    let me = me("11111111-1111-1111-1111-111111111111");
    let w1 = node_id("22222222-2222-2222-2222-222222222222");
    let mut state = State::with_epoch(
        nodes(vec![
            (me.id, manager_node(&me.host, me.port, 0)),
            (w1, worker_node("w1", 1, 0)),
        ]),
        3,
    );
    let mut output = vec![];
    worker_partitions(&mut state, &mut output, &me, 2);
    assert!(state.partitions.mapping.is_empty());
    assert!(output.is_empty());
}

#[test]
fn worker_partitions_without_workers_retires_the_table() {
    let me = me("11111111-1111-1111-1111-111111111111");
    let gone = node_id("22222222-2222-2222-2222-222222222222");
    let mut state = State::with_epoch(nodes(vec![(me.id, manager_node(&me.host, me.port, 0))]), 1);
    state.elected_leader_id = Some(me.id);
    state.workers_with_calculated_partitions.insert(gone);
    state.partitions.mapping.insert(
        PartitionId(0),
        Partition {
            master: gone,
            replicas: replicas(vec![]),
        },
    );
    let mut output = vec![];
    worker_partitions(&mut state, &mut output, &me, 2);
    assert!(state.partitions.mapping.is_empty());
    assert!(state.partitions.old_replicas.is_empty());
    assert!(state.workers_with_calculated_partitions.is_empty());
    assert!(output.is_empty());
}

#[test]
fn calculate_new_mapping_past_the_id_range_lets_later_partitions_win() {
    let a = node_id("11111111-1111-1111-1111-111111111111");
    let b = node_id("22222222-2222-2222-2222-222222222222");
    let c = node_id("33333333-3333-3333-3333-333333333333");
    let mut state = State::with_epoch(nodes(vec![]), 0);
    calculate_new_mapping(&mut state, 65537, 1, &vec![a, b, c]);
    assert_eq!(state.partitions.mapping.len(), 65536);
    assert_eq!(state.partitions.mapping.get(&PartitionId(0)).unwrap().master, b);
    assert_eq!(state.partitions.mapping.get(&PartitionId(1)).unwrap().master, b);
}
