//! Cluster snapshots as the worker takes them in.
use crate::collections::lemma_pair_in_map;
use crate::common::{for_each_node, other_manager, ClusterNode, Me, Node, NodeId, NodeType, Partitions};
use crate::manager::cluster_state::accepts_snapshot;
use crate::worker::domain::{lemma_worker_views_push, worker_message_views, WorkerMessage, WorkerProtocol};
use crate::worker::service::heartbeat::{request_cluster_state, worker_get_state_message};
use crate::worker::service::state::State;
use vstd::prelude::*;

verus! {

/// The members and the messages after folding snapshot items in: a known
/// member keeps the later of the two heartbeats, and every unknown member is
/// to be connected to.
pub open spec fn worker_apply_items(
    nodes: Map<NodeId, Node>,
    out: Seq<WorkerMessage>,
    items: Seq<ClusterNode>,
) -> (Map<NodeId, Node>, Seq<WorkerMessage>)
    decreases items.len(),
{
    if items.len() == 0 {
        (nodes, out)
    } else {
        let (n, o) = worker_apply_items(nodes, out, items.drop_last());
        let it = items.last();
        if n.dom().contains(it.id) {
            if n[it.id].last_heartbeat < it.last_heartbeat {
                (n.insert(it.id, Node { last_heartbeat: it.last_heartbeat, ..n[it.id] }), o)
            } else {
                (n, o)
            }
        } else {
            (
                n,
                o.push(
                    WorkerMessage::NewConnection {
                        id: None,
                        host: it.host,
                        port: it.port,
                        manager: it.node_type == NodeType::Manager,
                    },
                ),
            )
        }
    }
}

/// The outcome of a cluster snapshot of `epoch` led by `leader_id`.
pub open spec fn worker_cluster_state_step(
    state: State,
    output: Seq<WorkerProtocol>,
    final_state: State,
    final_output: Seq<WorkerProtocol>,
    epoch: u64,
    leader_id: NodeId,
    items: Seq<ClusterNode>,
    partitions: Partitions,
) -> bool {
    &&& final_state.sync == state.sync
    &&& if accepts_snapshot(state.epoch, state.elected_leader_id, epoch, leader_id) {
        &&& final_state.epoch == Some(epoch)
        &&& final_state.elected_leader_id == Some(leader_id)
        &&& final_state.partitions == partitions
        &&& (final_state.nodes@, worker_message_views(final_output)) == worker_apply_items(
            state.nodes@,
            worker_message_views(output),
            items,
        )
    } else {
        &&& final_state == state
        &&& final_output == output
    }
}

/// Takes in a cluster snapshot.  An accepted snapshot sets the epoch and the
/// leader, replaces the partition table and folds the members in.
pub fn handle_cluster_state(
    output: &mut Vec<WorkerProtocol>,
    state: &mut State,
    epoch: u64,
    leader_id: NodeId,
    items: Vec<ClusterNode>,
    partitions: Partitions,
)
    requires
        old(state).wf(),
        partitions.wf(),
    ensures
        final(state).wf(),
        worker_cluster_state_step(
            *old(state),
            old(output)@,
            *final(state),
            final(output)@,
            epoch,
            leader_id,
            items@,
            partitions,
        ),
{
    let accept = match state.epoch {
        None => {
            state.epoch = Some(epoch);
            state.elected_leader_id = Some(leader_id);
            true
        },
        Some(e) => if e < epoch {
            state.epoch = Some(epoch);
            state.elected_leader_id = Some(leader_id);
            true
        } else {
            e == epoch && state.elected_leader_id == Some(leader_id)
        },
    };
    if accept {
        state.partitions = partitions;
        let ghost out0 = worker_message_views(old(output)@);
        let ghost nodes0 = old(state).nodes@;
        let mut i: usize = 0;
        while i < items.len()
            invariant
                state.wf(),
                i <= items@.len(),
                (state.nodes@, worker_message_views(output@)) == worker_apply_items(
                    nodes0,
                    out0,
                    items@.take(i as int),
                ),
                state.epoch == Some(epoch),
                state.elected_leader_id == Some(leader_id),
                state.partitions == partitions,
                state.sync == old(state).sync,
            decreases items@.len() - i,
        {
            let item = &items[i];
            assert(items@.take(i + 1).drop_last() =~= items@.take(i as int));
            match state.nodes.find(&item.id) {
                Some(j) => {
                    proof {
                        lemma_pair_in_map(state.nodes.pairs(), j as int);
                    }
                    if state.nodes.value_at(j).last_heartbeat < item.last_heartbeat {
                        let mut node = state.nodes.value_at(j).clone();
                        node.last_heartbeat = item.last_heartbeat;
                        state.nodes.replace_at(j, node);
                    }
                },
                None => {
                    let m = WorkerProtocol::NewConnection {
                        id: None,
                        host: item.host.clone(),
                        port: item.port,
                        manager: match item.node_type {
                            NodeType::Manager => true,
                            NodeType::Worker => false,
                        },
                    };
                    proof {
                        lemma_worker_views_push(output@, m);
                    }
                    output.push(m);
                },
            }
            i += 1;
        }
        assert(items@.take(items@.len() as int) =~= items@);
    }
}

/// The outcome of the news that `replica_id` gave up a partition: a worker
/// that knows the replica asks the managers for the cluster state.
pub open spec fn worker_removal_step(
    state: State,
    output: Seq<WorkerProtocol>,
    final_state: State,
    final_output: Seq<WorkerProtocol>,
    replica_id: NodeId,
    me: NodeId,
) -> bool {
    &&& final_state == state
    &&& worker_message_views(final_output) == if state.nodes@.dom().contains(replica_id) {
        worker_message_views(output) + for_each_node(
            state.nodes.pairs(),
            other_manager(me),
            worker_get_state_message(),
        )
    } else {
        worker_message_views(output)
    }
}

/// Takes in the news that `replica_id` gave up a partition.
pub fn handle_remove_old_partition(
    state: &mut State,
    replica_id: NodeId,
    output: &mut Vec<WorkerProtocol>,
    me: &Me,
)
    requires
        old(state).wf(),
    ensures
        final(state).wf(),
        worker_removal_step(*old(state), old(output)@, *final(state), final(output)@, replica_id, me.id),
{
    if state.nodes.contains_key(&replica_id) {
        request_cluster_state(output, &state.nodes, me.id);
    }
}

} // verus!
