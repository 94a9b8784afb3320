//! Exchange of cluster snapshots between managers, and the hand-over of
//! partitions that old replicas report as done.
use crate::collections::{lemma_pair_in_map, SortedMap};
use crate::common::{
    copy_mapping, copy_replica_sets, for_each_node, ClusterNode, ClusterState, ClusterStateView, Me,
    Node, NodeId, NodeType, PartitionId, Partitions,
};
use crate::manager::domain::{lemma_message_views_push, message_views, NodeMessage, NodeProtocol};
use crate::manager::election::epoch_ahead;
use crate::manager::state::{announce_removal, removal_message, removal_recipients, State};
use vstd::prelude::*;

verus! {

/// The members and the messages after folding the snapshot items in: a
/// known member keeps the later of the two heartbeats, an unknown worker
/// joins, and an unknown manager is to be connected to.
pub open spec fn apply_items(
    nodes: Map<NodeId, Node>,
    out: Seq<NodeMessage>,
    items: Seq<ClusterNode>,
) -> (Map<NodeId, Node>, Seq<NodeMessage>)
    decreases items.len(),
{
    if items.len() == 0 {
        (nodes, out)
    } else {
        let (n, o) = apply_items(nodes, out, items.drop_last());
        let it = items.last();
        if n.dom().contains(it.id) {
            if n[it.id].last_heartbeat < it.last_heartbeat {
                (n.insert(it.id, Node { last_heartbeat: it.last_heartbeat, ..n[it.id] }), o)
            } else {
                (n, o)
            }
        } else {
            match it.node_type {
                NodeType::Manager => (
                    n,
                    o.push(
                        NodeMessage::NewConnection {
                            id: None,
                            host: it.host,
                            port: it.port,
                            manager: true,
                        },
                    ),
                ),
                NodeType::Worker => (
                    n.insert(
                        it.id,
                        Node {
                            host: it.host,
                            port: it.port,
                            last_heartbeat: it.last_heartbeat,
                            node_type: NodeType::Worker,
                        },
                    ),
                    o,
                ),
            }
        }
    }
}

/// Whether a snapshot of `epoch` led by `leader_id` is accepted: it is ahead
/// of the known epoch, or it is the known epoch under the known leader.
pub open spec fn accepts_snapshot(
    known_epoch: Option<u64>,
    known_leader: Option<NodeId>,
    epoch: u64,
    leader_id: NodeId,
) -> bool {
    epoch_ahead(known_epoch, epoch) || (known_epoch == Some(epoch) && known_leader == Some(leader_id))
}

/// The outcome of a cluster snapshot of `epoch` led by `leader_id`.
pub open spec fn cluster_state_step(
    state: State,
    output: Seq<NodeProtocol>,
    final_state: State,
    final_output: Seq<NodeProtocol>,
    epoch: u64,
    leader_id: NodeId,
    items: Seq<ClusterNode>,
    partitions: Partitions,
) -> bool {
    &&& final_state.workers_with_calculated_partitions == state.workers_with_calculated_partitions
    &&& if accepts_snapshot(state.epoch, state.elected_leader_id, epoch, leader_id) {
        &&& final_state.epoch == Some(epoch)
        &&& final_state.elected_leader_id == Some(leader_id)
        &&& final_state.partitions == partitions
        &&& (final_state.nodes@, message_views(final_output)) == apply_items(
            state.nodes@,
            message_views(output),
            items,
        )
    } else {
        &&& final_state == state
        &&& final_output == output
    }
}

/// Takes in a cluster snapshot.  An accepted snapshot sets the epoch and the
/// leader, replaces the partition table and folds the members in.
pub fn handle_cluster_state(
    output: &mut Vec<NodeProtocol>,
    state: &mut State,
    epoch: u64,
    leader_id: NodeId,
    items: Vec<ClusterNode>,
    partitions: Partitions,
)
    requires
        old(state).wf(),
        partitions.wf(),
    ensures
        final(state).wf(),
        cluster_state_step(
            *old(state),
            old(output)@,
            *final(state),
            final(output)@,
            epoch,
            leader_id,
            items@,
            partitions,
        ),
{
    let accept = match state.epoch {
        None => {
            state.epoch = Some(epoch);
            state.elected_leader_id = Some(leader_id);
            true
        },
        Some(e) => if e < epoch {
            state.epoch = Some(epoch);
            state.elected_leader_id = Some(leader_id);
            true
        } else {
            e == epoch && state.elected_leader_id == Some(leader_id)
        },
    };
    if accept {
        state.partitions = partitions;
        let ghost out0 = message_views(old(output)@);
        let ghost nodes0 = old(state).nodes@;
        let mut i: usize = 0;
        while i < items.len()
            invariant
                state.wf(),
                i <= items@.len(),
                (state.nodes@, message_views(output@)) == apply_items(
                    nodes0,
                    out0,
                    items@.take(i as int),
                ),
                state.epoch == Some(epoch),
                state.elected_leader_id == Some(leader_id),
                state.partitions == partitions,
                state.workers_with_calculated_partitions == old(state).workers_with_calculated_partitions,
            decreases items@.len() - i,
        {
            let item = &items[i];
            assert(items@.take(i + 1).drop_last() =~= items@.take(i as int));
            match state.nodes.find(&item.id) {
                Some(j) => {
                    proof {
                        lemma_pair_in_map(state.nodes.pairs(), j as int);
                    }
                    if state.nodes.value_at(j).last_heartbeat < item.last_heartbeat {
                        let mut node = state.nodes.value_at(j).clone();
                        node.last_heartbeat = item.last_heartbeat;
                        state.nodes.replace_at(j, node);
                    }
                },
                None => {
                    match item.node_type {
                        NodeType::Manager => {
                            let m = NodeProtocol::NewConnection {
                                id: None,
                                host: item.host.clone(),
                                port: item.port,
                                manager: true,
                            };
                            proof {
                                lemma_message_views_push(output@, m);
                            }
                            output.push(m);
                        },
                        NodeType::Worker => {
                            state.nodes.insert(
                                item.id,
                                Node {
                                    host: item.host.clone(),
                                    port: item.port,
                                    last_heartbeat: item.last_heartbeat,
                                    node_type: NodeType::Worker,
                                },
                            );
                        },
                    }
                },
            }
            i += 1;
        }
        assert(items@.take(items@.len() as int) =~= items@);
    }
}

/// The members as items of a cluster snapshot.
pub open spec fn node_items(pairs: Seq<(NodeId, Node)>) -> Seq<ClusterNode> {
    pairs.map_values(
        |p: (NodeId, Node)|
            ClusterNode {
                id: p.0,
                host: p.1.host,
                port: p.1.port,
                last_heartbeat: p.1.last_heartbeat,
                node_type: p.1.node_type,
            },
    )
}

/// The outcome of member `id` asking for the cluster state.
pub open spec fn get_cluster_state_step(
    state: State,
    output: Seq<NodeProtocol>,
    final_state: State,
    final_output: Seq<NodeProtocol>,
    id: NodeId,
) -> bool {
    &&& final_state == state
    &&& if state.epoch is Some && state.elected_leader_id is Some {
        message_views(final_output) == message_views(output).push(
            NodeMessage::ClusterState {
                recipient_id: id,
                state: ClusterStateView {
                    epoch: state.epoch->0,
                    leader_id: state.elected_leader_id->0,
                    items: node_items(state.nodes.pairs()),
                    partitions: state.partitions@,
                },
            },
        )
    } else {
        final_output == output
    }
}

/// Sends member `id` a snapshot of the cluster, once the epoch and the
/// leader are known.
pub fn handle_get_cluster_state(output: &mut Vec<NodeProtocol>, state: &mut State, id: NodeId)
    requires
        old(state).wf(),
    ensures
        get_cluster_state_step(
            *old(state),
            old(output)@,
            *final(state),
            final(output)@,
            id,
        ),
{
    if let Some(epoch) = state.epoch {
        if let Some(leader_id) = state.elected_leader_id {
            let mut items: Vec<ClusterNode> = Vec::new();
            let mut i: usize = 0;
            while i < state.nodes.len()
                invariant
                    state.wf(),
                    i <= state.nodes.pairs().len(),
                    items@ == node_items(state.nodes.pairs().take(i as int)),
                decreases state.nodes.pairs().len() - i,
            {
                let k = state.nodes.key_at(i);
                let n = state.nodes.value_at(i);
                items.push(
                    ClusterNode {
                        id: k,
                        host: n.host.clone(),
                        port: n.port,
                        last_heartbeat: n.last_heartbeat,
                        node_type: n.node_type,
                    },
                );
                i += 1;
            }
            assert(state.nodes.pairs().take(state.nodes.pairs().len() as int)
                =~= state.nodes.pairs());
            let m = NodeProtocol::ClusterState {
                recipient_id: id,
                state: ClusterState {
                    epoch,
                    leader_id,
                    items,
                    partitions: Partitions {
                        mapping: copy_mapping(&state.partitions.mapping),
                        old_replicas: copy_replica_sets(&state.partitions.old_replicas),
                        new_replicas: copy_replica_sets(&state.partitions.new_replicas),
                    },
                },
            };
            proof {
                lemma_message_views_push(output@, m);
            }
            output.push(m);
        }
    }
}

/// The old replicas after `replica_id` reported partition `pid` handed over:
/// it leaves the partition's set, and a set it empties is dropped.
pub open spec fn after_removal(
    old_replicas: Map<PartitionId, Set<NodeId>>,
    pid: PartitionId,
    replica_id: NodeId,
) -> Map<PartitionId, Set<NodeId>> {
    if old_replicas.dom().contains(pid) {
        let s = old_replicas[pid].remove(replica_id);
        if old_replicas[pid].contains(replica_id) && s == Set::<NodeId>::empty() {
            old_replicas.remove(pid)
        } else {
            old_replicas.insert(pid, s)
        }
    } else {
        old_replicas
    }
}

/// The outcome of member `id` reporting that `replica_id` handed over `partition_id`.
pub open spec fn remove_old_partition_step(
    state: State,
    output: Seq<NodeProtocol>,
    final_state: State,
    final_output: Seq<NodeProtocol>,
    id: NodeId,
    replica_id: NodeId,
    partition_id: u16,
    me: NodeId,
) -> bool {
    &&& final_state.epoch == state.epoch
    &&& final_state.elected_leader_id == state.elected_leader_id
    &&& final_state.nodes == state.nodes
    &&& final_state.workers_with_calculated_partitions == state.workers_with_calculated_partitions
    &&& final_state.partitions.mapping == state.partitions.mapping
    &&& final_state.partitions.new_replicas == state.partitions.new_replicas
    &&& final_state.partitions@.old_replicas =~= after_removal(
        state.partitions@.old_replicas,
        PartitionId(partition_id),
        replica_id,
    )
    &&& message_views(final_output) == if state.elected_leader_id == Some(me) {
        message_views(output) + for_each_node(
            state.nodes.pairs(),
            removal_recipients(replica_id, id, me),
            removal_message(replica_id, partition_id),
        )
    } else {
        message_views(output)
    }
}

/// Records that `replica_id` handed over partition `partition_id`, as
/// reported by member `id`.  The leader passes the news on to every member
/// other than the replica, the reporter and itself.
pub fn handle_remove_old_partition(
    output: &mut Vec<NodeProtocol>,
    state: &mut State,
    id: NodeId,
    replica_id: NodeId,
    partition_id: u16,
    me: &Me,
)
    requires
        old(state).wf(),
    ensures
        final(state).wf(),
        remove_old_partition_step(
            *old(state),
            old(output)@,
            *final(state),
            final(output)@,
            id,
            replica_id,
            partition_id,
            me.id,
        ),
{
    let pid = PartitionId(partition_id);
    if let Some(i) = state.partitions.old_replicas.find(&pid) {
        proof {
            lemma_pair_in_map(state.partitions.old_replicas.pairs(), i as int);
        }
        let mut set = state.partitions.old_replicas.replace_at(i, crate::collections::SortedSet::new());
        let removed = set.remove(&replica_id);
        if removed && set.is_empty() {
            state.partitions.old_replicas.remove_at(i);
            proof {
                assert forall|j: int|
                    0 <= j < state.partitions.old_replicas.pairs().len() implies (
                #[trigger] state.partitions.old_replicas.pairs()[j]).1.wf() by {
                }
            }
        } else {
            state.partitions.old_replicas.replace_at(i, set);
            proof {
                assert forall|j: int|
                    0 <= j < state.partitions.old_replicas.pairs().len() implies (
                #[trigger] state.partitions.old_replicas.pairs()[j]).1.wf() by {
                }
            }
        }
    }
    if state.elected_leader_id == Some(me.id) {
        announce_removal(output, &state.nodes, replica_id, id, me.id, partition_id);
    }
}

} // verus!

verus! {

/// After a report that `replica_id` handed partition `partition_id` over, the
/// old replicas of that partition are exactly the previous ones without the
/// replica; the partition's entry is dropped only where that leaves no old
/// replica, and the old replicas of every other partition stay as they were.
pub proof fn lemma_removal_drops_only_the_replica(
    state: State,
    output: Seq<NodeProtocol>,
    final_state: State,
    final_output: Seq<NodeProtocol>,
    id: NodeId,
    replica_id: NodeId,
    partition_id: u16,
    me: NodeId,
)
    requires
        remove_old_partition_step(
            state,
            output,
            final_state,
            final_output,
            id,
            replica_id,
            partition_id,
            me,
        ),
    ensures
        ({
            let before = state.partitions@.old_replicas;
            let after = final_state.partitions@.old_replicas;
            let p = PartitionId(partition_id);
            &&& forall|q: PartitionId|
                q != p ==> (#[trigger] after.dom().contains(q) == before.dom().contains(q)) && (
                before.dom().contains(q) ==> after[q] == before[q])
            &&& before.dom().contains(p) && before[p].remove(replica_id) != Set::<NodeId>::empty()
                ==> after.dom().contains(p) && after[p] == before[p].remove(replica_id)
            &&& before.dom().contains(p) && before[p].contains(replica_id) && before[p].remove(
                replica_id,
            ) == Set::<NodeId>::empty() ==> !after.dom().contains(p)
            &&& before.dom().contains(p) && !before[p].contains(replica_id) ==> after.dom().contains(p)
                && after[p] == before[p]
            &&& !before.dom().contains(p) ==> !after.dom().contains(p)
        }),
{
    let before = state.partitions@.old_replicas;
    let p = PartitionId(partition_id);
    if before.dom().contains(p) && !before[p].contains(replica_id) {
        assert(before[p].remove(replica_id) =~= before[p]);
    }
}

/// The snapshot that answers a request for the cluster state, once the
/// epoch and the leader are known, is the only message sent; it goes to the
/// requester and carries the epoch, the leader, every member with its
/// address, heartbeat and kind, and the partition table unchanged.  Before
/// then nothing is sent.  The state stays as it is.
pub proof fn lemma_snapshot_carries_the_cluster(
    state: State,
    output: Seq<NodeProtocol>,
    final_state: State,
    final_output: Seq<NodeProtocol>,
    id: NodeId,
)
    requires
        state.wf(),
        get_cluster_state_step(state, output, final_state, final_output, id),
    ensures
        final_state == state,
        state.epoch is None || state.elected_leader_id is None ==> message_views(final_output)
            == message_views(output),
        state.epoch is Some && state.elected_leader_id is Some ==> {
            let sent = message_views(final_output);
            &&& sent.len() == message_views(output).len() + 1
            &&& sent.drop_last() == message_views(output)
            &&& sent.last() matches NodeMessage::ClusterState { recipient_id, state: snapshot }
            &&& recipient_id == id
            &&& snapshot.epoch == state.epoch->0
            &&& snapshot.leader_id == state.elected_leader_id->0
            &&& snapshot.partitions.mapping == state.partitions@.mapping
            &&& snapshot.partitions.old_replicas == state.partitions@.old_replicas
            &&& snapshot.partitions.new_replicas == state.partitions@.new_replicas
            &&& snapshot.items.len() == state.nodes.pairs().len()
            &&& forall|i: int|
                0 <= i < snapshot.items.len() ==> {
                    let item = #[trigger] snapshot.items[i];
                    &&& state.nodes@.dom().contains(item.id)
                    &&& state.nodes@[item.id].host == item.host
                    &&& state.nodes@[item.id].port == item.port
                    &&& state.nodes@[item.id].last_heartbeat == item.last_heartbeat
                    &&& state.nodes@[item.id].node_type == item.node_type
                }
            &&& forall|k: NodeId|
                state.nodes@.dom().contains(k) ==> exists|i: int|
                    0 <= i < snapshot.items.len() && (#[trigger] snapshot.items[i]).id == k
        },
{
    if state.epoch is Some && state.elected_leader_id is Some {
        let sent = message_views(final_output);
        assert(sent.drop_last() =~= message_views(output));
        let pairs = state.nodes.pairs();
        let items = node_items(pairs);
        assert forall|i: int| 0 <= i < items.len() implies {
            let item = #[trigger] items[i];
            &&& state.nodes@.dom().contains(item.id)
            &&& state.nodes@[item.id].host == item.host
            &&& state.nodes@[item.id].port == item.port
            &&& state.nodes@[item.id].last_heartbeat == item.last_heartbeat
            &&& state.nodes@[item.id].node_type == item.node_type
        } by {
            lemma_pair_in_map(pairs, i);
        }
        assert forall|k: NodeId| state.nodes@.dom().contains(k) implies exists|i: int|
            0 <= i < items.len() && (#[trigger] items[i]).id == k by {
            let i = choose|i: int| 0 <= i < pairs.len() && (#[trigger] pairs[i]).0 == k;
            assert(items[i].id == k);
        }
    }
}

} // verus!
