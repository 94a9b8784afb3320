//! Liveness: the manager's own heartbeats, the heartbeats it receives and the
//! expiry of a silent leader.
use crate::collections::lemma_pair_in_map;
use crate::common::{for_each_node, now_millis, other_manager, Heartbeat, Me, Node, NodeId, NodeType};
use crate::manager::domain::{message_views, NodeMessage, NodeProtocol};
use crate::manager::service::get_random_number;
use crate::manager::state::{
    get_state_message, heartbeat_message, heartbeat_recipients, request_cluster_state,
    send_heartbeat, State,
};
use vstd::prelude::*;

verus! {

/// How often, in milliseconds, a manager announces that it is alive.
pub const HEARTBEAT_INTERVAL_MS: u64 = 200;

/// Whether a leader last heard of at `leader` has been silent longer than
/// `timeout` at `now`.
pub open spec fn leader_expired(
    leader: Option<NodeId>,
    me: NodeId,
    nodes: Map<NodeId, Node>,
    now: u64,
    timeout: u64,
) -> bool {
    match leader {
        Some(l) => l != me && nodes.dom().contains(l) && nodes[l].node_type == NodeType::Manager
            && nodes[l].last_heartbeat + timeout < now,
        None => false,
    }
}

/// The outcome of the periodic heartbeat step at time `now`, where a leader
/// silent for longer than `timeout` is dropped.  A manager whose own
/// heartbeat is `HEARTBEAT_INTERVAL_MS` old refreshes it and sends it to the
/// other managers.
pub open spec fn heartbeats_step(
    state: State,
    output: Seq<NodeProtocol>,
    final_state: State,
    final_output: Seq<NodeProtocol>,
    me: NodeId,
    now: u64,
    timeout: u64,
) -> bool {
    if state.nodes@.dom().contains(me) && state.nodes@[me].node_type == NodeType::Manager {
        let mine = state.nodes@[me];
        let stale = mine.last_heartbeat + HEARTBEAT_INTERVAL_MS <= now;
        let nodes = if stale {
            state.nodes@.insert(me, Node { last_heartbeat: now, ..mine })
        } else {
            state.nodes@
        };
        &&& final_state.nodes@ == nodes
        &&& final_state.nodes.keys() == state.nodes.keys()
        &&& message_views(final_output) == if stale {
            message_views(output) + for_each_node(
                state.nodes.pairs(),
                heartbeat_recipients(me, me),
                heartbeat_message(Heartbeat { id: me, ts: now }),
            )
        } else {
            message_views(output)
        }
        &&& final_state.elected_leader_id == if leader_expired(
            state.elected_leader_id,
            me,
            nodes,
            now,
            timeout,
        ) {
            None
        } else {
            state.elected_leader_id
        }
        &&& final_state.epoch == state.epoch
        &&& final_state.partitions == state.partitions
        &&& final_state.workers_with_calculated_partitions == state.workers_with_calculated_partitions
    } else {
        &&& final_state == state
        &&& final_output == output
    }
}

/// The heartbeat step at the given time and leader timeout.
pub fn heartbeats_at(
    state: &mut State,
    output: &mut Vec<NodeProtocol>,
    me: &Me,
    now: u64,
    timeout: u64,
)
    requires
        old(state).wf(),
    ensures
        final(state).wf(),
        heartbeats_step(*old(state), old(output)@, *final(state), final(output)@, me.id, now, timeout),
{
    if let Some(i) = state.nodes.find(&me.id) {
        proof {
            lemma_pair_in_map(state.nodes.pairs(), i as int);
        }
        if state.nodes.value_at(i).is_manager() {
            let last = state.nodes.value_at(i).last_heartbeat;
            let stale = match last.checked_add(HEARTBEAT_INTERVAL_MS) {
                Some(t) => t <= now,
                None => false,
            };
            if stale {
                send_heartbeat(output, &state.nodes, me.id, me.id, Heartbeat { id: me.id, ts: now });
                let mut node = state.nodes.value_at(i).clone();
                node.last_heartbeat = now;
                state.nodes.replace_at(i, node);
                assert(state.nodes.keys() =~= old(state).nodes.keys());
            }
            if let Some(l) = state.elected_leader_id {
                if l != me.id {
                    if let Some(j) = state.nodes.find(&l) {
                        proof {
                            lemma_pair_in_map(state.nodes.pairs(), j as int);
                        }
                        let leader_node = state.nodes.value_at(j);
                        if leader_node.is_manager() {
                            if let Some(t) = leader_node.last_heartbeat.checked_add(timeout) {
                                if t < now {
                                    state.elected_leader_id = None;
                                }
                            }
                        }
                    }
                }
            }
        }
    }
}

/// The heartbeat step, reading the clock and drawing the randomized leader
/// timeout.  Whatever the clock reads, the outcome is that of
/// `heartbeats_at` for some time and some timeout in the randomized range.
pub fn heartbeats(state: &mut State, output: &mut Vec<NodeProtocol>, me: &Me)
    requires
        old(state).wf(),
    ensures
        final(state).wf(),
        exists|now: u64, timeout: u64|
            500 <= timeout < 1000 && #[trigger] heartbeats_step(
                *old(state),
                old(output)@,
                *final(state),
                final(output)@,
                me.id,
                now,
                timeout,
            ),
{
    let now = now_millis();
    let timeout = get_random_number();
    heartbeats_at(state, output, me, now, timeout);
}

/// The outcome of a heartbeat of member `id` taken at `ts`.
pub open spec fn heartbeat_step(
    state: State,
    output: Seq<NodeProtocol>,
    final_state: State,
    final_output: Seq<NodeProtocol>,
    id: NodeId,
    ts: u64,
    me: NodeId,
) -> bool {
    &&& final_state.epoch == state.epoch
    &&& final_state.elected_leader_id == state.elected_leader_id
    &&& final_state.partitions == state.partitions
    &&& final_state.workers_with_calculated_partitions == state.workers_with_calculated_partitions
    &&& if state.nodes@.dom().contains(id) {
        &&& final_state.nodes@ == state.nodes@.insert(
            id,
            Node { last_heartbeat: ts, ..state.nodes@[id] },
        )
        &&& final_state.nodes.keys() == state.nodes.keys()
        &&& message_views(final_output) == if state.elected_leader_id == Some(me) {
            message_views(output) + for_each_node(
                state.nodes.pairs(),
                heartbeat_recipients(id, me),
                heartbeat_message(Heartbeat { id, ts }),
            )
        } else {
            message_views(output)
        }
    } else {
        &&& final_state.nodes == state.nodes
        &&& message_views(final_output) == message_views(output) + for_each_node(
            state.nodes.pairs(),
            other_manager(me),
            get_state_message(),
        )
    }
}

/// Records a heartbeat of member `id` taken at `ts`.  The leader passes it on
/// to the other managers; a heartbeat of an unknown member makes this manager
/// ask the other managers for the cluster state.
pub fn handle_heartbeat(
    output: &mut Vec<NodeProtocol>,
    state: &mut State,
    id: NodeId,
    ts: u64,
    me: &Me,
)
    requires
        old(state).wf(),
    ensures
        final(state).wf(),
        heartbeat_step(
            *old(state),
            old(output)@,
            *final(state),
            final(output)@,
            id,
            ts,
            me.id,
        ),
{
    match state.nodes.find(&id) {
        None => {
            request_cluster_state(output, &state.nodes, me.id);
        },
        Some(i) => {
            proof {
                lemma_pair_in_map(state.nodes.pairs(), i as int);
            }
            if state.elected_leader_id == Some(me.id) {
                send_heartbeat(output, &state.nodes, id, me.id, Heartbeat { id, ts });
            }
            let mut node = state.nodes.value_at(i).clone();
            node.last_heartbeat = ts;
            state.nodes.replace_at(i, node);
            assert(state.nodes.keys() =~= old(state).nodes.keys());
        },
    }
}

} // verus!
