//! Leader announcements, as the worker takes them.
use crate::collections::lemma_pair_in_map;
use crate::common::{for_each_node, other_manager, Me, Node, NodeId, NodeType};
use crate::manager::election::epoch_ahead;
use crate::worker::domain::{worker_message_views, WorkerProtocol};
use crate::worker::service::heartbeat::{request_cluster_state, worker_get_state_message};
use crate::worker::service::state::State;
use vstd::prelude::*;

verus! {

/// The outcome of a leader announcement from `id` for `epoch`, sent at `ts`:
/// for an epoch ahead of the known one, a known manager becomes the leader,
/// and an unknown one makes the worker ask the managers for the cluster state.
pub open spec fn worker_leader_step(
    state: State,
    output: Seq<WorkerProtocol>,
    final_state: State,
    final_output: Seq<WorkerProtocol>,
    id: NodeId,
    epoch: u64,
    ts: u64,
    me: NodeId,
) -> bool {
    if epoch_ahead(state.epoch, epoch) {
        &&& final_state.partitions == state.partitions
        &&& final_state.sync == state.sync
        &&& if state.nodes@.dom().contains(id) && state.nodes@[id].node_type == NodeType::Manager {
            &&& final_state.nodes@ == state.nodes@.insert(id, Node { last_heartbeat: ts, ..state.nodes@[id] })
            &&& final_state.elected_leader_id == Some(id)
            &&& final_state.epoch == Some(epoch)
            &&& final_output == output
        } else {
            &&& final_state == state
            &&& worker_message_views(final_output) == worker_message_views(output) + for_each_node(
                state.nodes.pairs(),
                other_manager(me),
                worker_get_state_message(),
            )
        }
    } else {
        &&& final_state == state
        &&& final_output == output
    }
}

/// Takes in a leader announcement.
pub fn handle_leader(
    output: &mut Vec<WorkerProtocol>,
    state: &mut State,
    id: NodeId,
    epoch: u64,
    ts: u64,
    me: &Me,
)
    requires
        old(state).wf(),
    ensures
        final(state).wf(),
        worker_leader_step(*old(state), old(output)@, *final(state), final(output)@, id, epoch, ts, me.id),
{
    let ahead = match state.epoch {
        None => true,
        Some(e) => e < epoch,
    };
    if ahead {
        match state.nodes.find(&id) {
            Some(i) => {
                proof {
                    lemma_pair_in_map(state.nodes.pairs(), i as int);
                }
                if state.nodes.value_at(i).is_manager() {
                    let mut node = state.nodes.value_at(i).clone();
                    node.last_heartbeat = ts;
                    state.nodes.replace_at(i, node);
                    state.elected_leader_id = Some(id);
                    state.epoch = Some(epoch);
                } else {
                    request_cluster_state(output, &state.nodes, me.id);
                }
            },
            None => {
                request_cluster_state(output, &state.nodes, me.id);
            },
        }
    }
}

} // verus!
