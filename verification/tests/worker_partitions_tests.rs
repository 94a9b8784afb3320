use cluster_manager::common::Me;
use cluster_manager::worker::service::partitions::{apply_sync_round, plan_sync_round, SyncAction};
use cluster_manager::collections::{SortedMap, SortedSet};
use cluster_manager::common::{Node, NodeId, NodeType, Partition, PartitionId, Partitions};
use cluster_manager::worker::domain::{Record, SyncBatchRequest, WorkerProtocol};
use cluster_manager::worker::runtime_store::{Key, RuntimeStore};
use cluster_manager::worker::service::partitions::{
    get_node_ids_curr_node_has_to_sync_the_partition_to, handle_sync_batch,
    handle_sync_batch_response, plan_sync, record_sync, SyncPlan, SYNC_TIMEOUT_MS,
};
use cluster_manager::worker::service::state::{State, SyncState};

const PARTITION: PartitionId = PartitionId(17);

fn node_id(value: u128) -> NodeId {
    NodeId::from_string(&uuid::Uuid::from_u128(value).to_string())
}

fn worker() -> Node {
    Node {
        host: "worker.local".to_owned(),
        port: 9000,
        last_heartbeat: 0,
        node_type: NodeType::Worker,
    }
}

fn cluster_nodes(ids: &[NodeId]) -> SortedMap<NodeId, Node> {
    let mut m = SortedMap::new();
    for id in ids {
        m.insert(*id, worker());
    }
    m
}

fn set(ids: &[NodeId]) -> SortedSet<NodeId> {
    let mut s = SortedSet::new();
    for id in ids {
        s.insert(*id);
    }
    s
}

fn mapping(master: NodeId, replicas: &[NodeId]) -> SortedMap<PartitionId, Partition> {
    let mut m = SortedMap::new();
    m.insert(
        PARTITION,
        Partition {
            master,
            replicas: set(replicas),
        },
    );
    m
}

fn one(ids: &[NodeId]) -> SortedMap<PartitionId, SortedSet<NodeId>> {
    let mut m = SortedMap::new();
    m.insert(PARTITION, set(ids));
    m
}

fn sorted(mut v: Vec<NodeId>) -> Vec<NodeId> {
    v.sort();
    v
}

#[test]
fn old_replica_syncs_to_every_available_node_in_the_current_mapping_except_itself() {
    let me = node_id(1);
    let master = node_id(2);
    let replica = node_id(3);
    let disconnected_replica = node_id(4);
    let partitions = Partitions {
        mapping: mapping(master, &[me, replica, disconnected_replica]),
        old_replicas: one(&[me]),
        new_replicas: one(&[replica]),
    };
    let nodes = cluster_nodes(&[me, master, replica]);

    let actual =
        get_node_ids_curr_node_has_to_sync_the_partition_to(PARTITION, &me, &partitions, &nodes);

    assert_eq!(actual.to_vec(), sorted(vec![master, replica]));
}

#[test]
fn node_does_not_start_second_phase_while_an_old_replica_remains() {
    let me = node_id(1);
    let new_replica = node_id(2);
    let old_replica = node_id(3);
    let partitions = Partitions {
        mapping: mapping(me, &[new_replica]),
        old_replicas: one(&[old_replica]),
        new_replicas: one(&[new_replica]),
    };
    let nodes = cluster_nodes(&[me, new_replica, old_replica]);

    let actual =
        get_node_ids_curr_node_has_to_sync_the_partition_to(PARTITION, &me, &partitions, &nodes);

    assert!(actual.is_empty());
}

#[test]
fn retained_current_node_syncs_to_available_new_replicas_after_old_replicas_are_done() {
    let me = node_id(1);
    let new_replica = node_id(2);
    let disconnected_new_replica = node_id(3);
    let partitions = Partitions {
        mapping: mapping(me, &[new_replica, disconnected_new_replica]),
        old_replicas: one(&[]),
        new_replicas: one(&[new_replica, disconnected_new_replica]),
    };
    let nodes = cluster_nodes(&[me, new_replica]);

    let actual =
        get_node_ids_curr_node_has_to_sync_the_partition_to(PARTITION, &me, &partitions, &nodes);

    assert_eq!(actual.to_vec(), vec![new_replica]);
}

#[test]
fn absent_old_replicas_entry_also_means_the_first_phase_is_done() {
    let me = node_id(1);
    let new_master = node_id(2);
    let partitions = Partitions {
        mapping: mapping(new_master, &[me]),
        old_replicas: SortedMap::new(),
        new_replicas: one(&[new_master]),
    };
    let nodes = cluster_nodes(&[me, new_master]);

    let actual =
        get_node_ids_curr_node_has_to_sync_the_partition_to(PARTITION, &me, &partitions, &nodes);

    assert_eq!(actual.to_vec(), vec![new_master]);
}

#[test]
fn newly_added_node_does_not_relay_the_partition_to_other_new_nodes() {
    let me = node_id(1);
    let retained_master = node_id(2);
    let other_new_replica = node_id(3);
    let partitions = Partitions {
        mapping: mapping(retained_master, &[me, other_new_replica]),
        old_replicas: SortedMap::new(),
        new_replicas: one(&[me, other_new_replica]),
    };
    let nodes = cluster_nodes(&[me, retained_master, other_new_replica]);

    let actual =
        get_node_ids_curr_node_has_to_sync_the_partition_to(PARTITION, &me, &partitions, &nodes);

    assert!(actual.is_empty());
}

#[test]
fn node_outside_both_old_and_current_mapping_has_no_sync_targets() {
    let me = node_id(1);
    let master = node_id(2);
    let new_replica = node_id(3);
    let partitions = Partitions {
        mapping: mapping(master, &[new_replica]),
        old_replicas: SortedMap::new(),
        new_replicas: one(&[new_replica]),
    };
    let nodes = cluster_nodes(&[me, master, new_replica]);

    let actual =
        get_node_ids_curr_node_has_to_sync_the_partition_to(PARTITION, &me, &partitions, &nodes);

    assert!(actual.is_empty());
}

#[test]
fn old_replica_without_a_current_mapping_has_no_sync_targets() {
    let me = node_id(1);
    let partitions = Partitions {
        mapping: SortedMap::new(),
        old_replicas: one(&[me]),
        new_replicas: SortedMap::new(),
    };
    let nodes = cluster_nodes(&[me, node_id(2)]);
    let actual =
        get_node_ids_curr_node_has_to_sync_the_partition_to(PARTITION, &me, &partitions, &nodes);
    assert!(actual.is_empty());
}

fn batch_record(key: u64, value: u8, creation_time_ms: u64) -> Record {
    Record {
        key: Key(key),
        value: vec![value],
        ttl: 0,
        creation_time_ms,
    }
}

#[test]
fn handle_sync_batch_applies_records_and_acknowledges_greatest_key_per_partition() {
    let sender = node_id(9);
    let request = SyncBatchRequest {
        sender_id: sender,
        request_id: "r1".to_string(),
        records: vec![
            batch_record(17 + 4096 * 2, 1, 10),
            batch_record(17, 2, 10),
            batch_record(18, 3, 10),
            batch_record(17 + 4096, 4, 10),
        ],
    };
    let mut store = RuntimeStore::new();
    let mut output = vec![];
    handle_sync_batch(&mut output, &request, &mut store);

    assert_eq!(store.get(Key(17)).unwrap().value, vec![2]);
    assert_eq!(store.get(Key(18)).unwrap().value, vec![3]);
    assert_eq!(store.get(Key(17 + 4096)).unwrap().value, vec![4]);
    assert_eq!(store.get(Key(17 + 4096 * 2)).unwrap().value, vec![1]);
    assert_eq!(output.len(), 1);
    match &output[0] {
        WorkerProtocol::SyncBatchResponse {
            recipient_id,
            partition_id_to_max_applied_key,
        } => {
            assert_eq!(*recipient_id, sender);
            assert_eq!(partition_id_to_max_applied_key.len(), 2);
            assert_eq!(
                partition_id_to_max_applied_key.get(&PartitionId(17)),
                Some(&Key(17 + 4096 * 2))
            );
            assert_eq!(
                partition_id_to_max_applied_key.get(&PartitionId(18)),
                Some(&Key(18))
            );
        }
        other => panic!("unexpected message: {:?}", other),
    }
}

#[test]
fn handle_sync_batch_keeps_newer_local_records() {
    let mut store = RuntimeStore::new();
    store.put(
        Key(5),
        cluster_manager::worker::runtime_store::Record {
            expiration_time_ms: 0,
            creation_time_ms: 100,
            value: vec![9],
        },
    );
    let request = SyncBatchRequest {
        sender_id: node_id(2),
        request_id: "r".to_string(),
        records: vec![batch_record(5, 1, 50)],
    };
    let mut output = vec![];
    handle_sync_batch(&mut output, &request, &mut store);
    assert_eq!(store.get(Key(5)).unwrap().value, vec![9]);
    match &output[0] {
        WorkerProtocol::SyncBatchResponse {
            partition_id_to_max_applied_key,
            ..
        } => assert_eq!(
            partition_id_to_max_applied_key.get(&PartitionId(5)),
            Some(&Key(5))
        ),
        other => panic!("unexpected message: {:?}", other),
    }
}

#[test]
fn empty_sync_batch_is_acknowledged_with_no_partition() {
    let request = SyncBatchRequest {
        sender_id: node_id(2),
        request_id: "r".to_string(),
        records: vec![],
    };
    let mut store = RuntimeStore::new();
    let mut output = vec![];
    handle_sync_batch(&mut output, &request, &mut store);
    match &output[0] {
        WorkerProtocol::SyncBatchResponse {
            partition_id_to_max_applied_key,
            ..
        } => assert!(partition_id_to_max_applied_key.is_empty()),
        other => panic!("unexpected message: {:?}", other),
    }
}

fn sync_state(curr: u64, confirmed: bool) -> SyncState {
    SyncState {
        prev_max_key: Some(Key(1)),
        curr_max_key: Key(curr),
        confirmed,
        last_start_time: 0,
    }
}

fn worker_state(sync: SortedMap<PartitionId, SortedMap<NodeId, SyncState>>) -> State {
    State {
        epoch: Some(1),
        elected_leader_id: None,
        nodes: SortedMap::new(),
        partitions: Partitions::new(),
        sync,
    }
}

#[test]
fn handle_sync_batch_response_confirms_only_matching_acknowledgements() {
    let a = node_id(1);
    let b = node_id(2);
    let mut recipients = SortedMap::new();
    recipients.insert(a, sync_state(10, false));
    recipients.insert(b, sync_state(20, false));
    let mut sync = SortedMap::new();
    sync.insert(PARTITION, recipients);
    let mut state = worker_state(sync);

    let mut acks = SortedMap::new();
    acks.insert(PARTITION, Key(10));
    acks.insert(PartitionId(99), Key(10));
    handle_sync_batch_response(&mut state, acks, a);

    let recipients = state.sync.get(&PARTITION).unwrap();
    assert!(recipients.get(&a).unwrap().confirmed);
    assert!(!recipients.get(&b).unwrap().confirmed);

    let mut wrong = SortedMap::new();
    wrong.insert(PARTITION, Key(19));
    handle_sync_batch_response(&mut state, wrong, b);
    assert!(!state.sync.get(&PARTITION).unwrap().get(&b).unwrap().confirmed);
}

#[test]
fn sync_plan_follows_the_acknowledgements() {
    assert_eq!(plan_sync(None, true, 5), SyncPlan::Start);
    assert_eq!(plan_sync(Some(sync_state(10, false)), false, 5), SyncPlan::Forget);
    assert_eq!(
        plan_sync(Some(sync_state(10, true)), true, 5),
        SyncPlan::Next { after_key: Key(10) }
    );
    assert_eq!(plan_sync(Some(sync_state(10, false)), true, 5), SyncPlan::Wait);
    assert_eq!(
        plan_sync(Some(sync_state(10, false)), true, SYNC_TIMEOUT_MS),
        SyncPlan::Retry {
            after_key: Some(Key(1))
        }
    );
    assert_eq!(
        plan_sync(Some(sync_state(10, false)), true, SYNC_TIMEOUT_MS - 1),
        SyncPlan::Wait
    );
}

#[test]
fn record_sync_moves_the_window_forward() {
    let current = Some(sync_state(10, true));
    let next = record_sync(current, SyncPlan::Next { after_key: Key(10) }, Key(30), 7).unwrap();
    assert_eq!(next.prev_max_key, Some(Key(10)));
    assert_eq!(next.curr_max_key, Key(30));
    assert!(!next.confirmed);
    assert_eq!(next.last_start_time, 7);

    let retried = record_sync(
        Some(sync_state(10, false)),
        SyncPlan::Retry {
            after_key: Some(Key(1)),
        },
        Key(12),
        8,
    )
    .unwrap();
    assert_eq!(retried.prev_max_key, Some(Key(1)));
    assert_eq!(retried.curr_max_key, Key(12));

    let started = record_sync(None, SyncPlan::Start, Key(3), 9).unwrap();
    assert_eq!(started.prev_max_key, None);
    assert_eq!(started.curr_max_key, Key(3));

    assert_eq!(record_sync(current, SyncPlan::Forget, Key(3), 9), None);
    assert_eq!(record_sync(current, SyncPlan::Wait, Key(3), 9), current);
}

#[test]
fn applying_a_batch_again_changes_nothing() {
    let request = SyncBatchRequest {
        sender_id: node_id(2),
        request_id: "r".to_string(),
        records: vec![
            batch_record(5, 1, 10),
            batch_record(5, 2, 10),
            batch_record(5, 3, 5),
            batch_record(6, 4, 1),
        ],
    };
    let mut store = RuntimeStore::new();
    let mut output = vec![];
    handle_sync_batch(&mut output, &request, &mut store);
    assert_eq!(store.get(Key(5)).unwrap().value, vec![2]);
    handle_sync_batch(&mut output, &request, &mut store);
    assert_eq!(store.get(Key(5)).unwrap().value, vec![2]);
    assert_eq!(store.get(Key(6)).unwrap().value, vec![4]);
    assert_eq!(output.len(), 2);
}


#[test]
fn sync_round_plans_each_recipient_of_each_held_partition() {
    let me = Me {
        id: node_id(1),
        host: "w1".to_string(),
        port: 1,
    };
    let master = node_id(2);
    let replica = node_id(3);
    let mut partitions = Partitions::new();
    partitions.mapping = mapping(master, &[replica]);
    partitions.old_replicas = one(&[me.id]);
    let mut sync = SortedMap::new();
    let mut recipients = SortedMap::new();
    recipients.insert(master, sync_state(10, true));
    sync.insert(PARTITION, recipients);
    let state = State {
        epoch: Some(1),
        elected_leader_id: None,
        nodes: cluster_nodes(&[me.id, master, replica]),
        partitions,
        sync,
    };
    let mut store = RuntimeStore::new();
    store.put(
        Key(17),
        cluster_manager::worker::runtime_store::Record {
            expiration_time_ms: 0,
            creation_time_ms: 1,
            value: vec![1],
        },
    );
    store.put(
        Key(18),
        cluster_manager::worker::runtime_store::Record {
            expiration_time_ms: 0,
            creation_time_ms: 1,
            value: vec![2],
        },
    );

    let actions = plan_sync_round(&state, &store, &me, 5);
    assert_eq!(
        actions,
        vec![
            SyncAction {
                partition: PARTITION,
                recipient: master,
                plan: SyncPlan::Next { after_key: Key(10) },
            },
            SyncAction {
                partition: PARTITION,
                recipient: replica,
                plan: SyncPlan::Start,
            },
        ]
    );

    let mut state = state;
    apply_sync_round(&mut state, &actions, &[Key(40), Key(41)], 5);
    let recipients = state.sync.get(&PARTITION).unwrap();
    let to_master = recipients.get(&master).unwrap();
    assert_eq!(to_master.prev_max_key, Some(Key(10)));
    assert_eq!(to_master.curr_max_key, Key(40));
    assert!(!to_master.confirmed);
    assert_eq!(to_master.last_start_time, 5);
    let to_replica = recipients.get(&replica).unwrap();
    assert_eq!(to_replica.prev_max_key, None);
    assert_eq!(to_replica.curr_max_key, Key(41));
}

#[test]
fn sync_round_without_records_does_nothing() {
    let me = Me {
        id: node_id(1),
        host: "w1".to_string(),
        port: 1,
    };
    let state = worker_state(SortedMap::new());
    let store = RuntimeStore::new();
    assert!(plan_sync_round(&state, &store, &me, 0).is_empty());
}

#[test]
fn applying_a_forget_step_drops_the_progress() {
    let a = node_id(1);
    let mut recipients = SortedMap::new();
    recipients.insert(a, sync_state(10, false));
    let mut sync = SortedMap::new();
    sync.insert(PARTITION, recipients);
    let mut state = worker_state(sync);
    apply_sync_round(
        &mut state,
        &[SyncAction {
            partition: PARTITION,
            recipient: a,
            plan: SyncPlan::Forget,
        }],
        &[Key(0)],
        9,
    );
    assert!(state.sync.get(&PARTITION).unwrap().get(&a).is_none());
}
