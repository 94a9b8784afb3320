//! Members joining and leaving.
use crate::collections::SortedMap;
use crate::common::{now_millis, Me, Node, NodeId, NodeType};
use crate::manager::domain::{lemma_message_views_push, message_views, NodeMessage, NodeProtocol};
use crate::manager::state::State;
use vstd::prelude::*;

verus! {

/// The outcome of member `id` disconnecting.
pub open spec fn node_disconnected_step(
    state: State,
    final_state: State,
    id: NodeId,
) -> bool {
    &&& final_state.epoch == state.epoch
    &&& final_state.partitions == state.partitions
    &&& final_state.workers_with_calculated_partitions == state.workers_with_calculated_partitions
    &&& if state.nodes@.dom().contains(id) {
        &&& final_state.nodes@ == state.nodes@.remove(id)
        &&& final_state.nodes.pairs().len() == state.nodes.pairs().len() - 1
        &&& final_state.elected_leader_id == if state.elected_leader_id == Some(id)
            || final_state.nodes.pairs().len() == 1 {
            None
        } else {
            state.elected_leader_id
        }
    } else {
        final_state == state
    }
}

/// Forgets member `id`.  The leader is forgotten too when it is the member
/// that left, or when this manager is left alone.
pub fn handle_node_disconnected(state: &mut State, id: NodeId, me: &Me)
    requires
        old(state).wf(),
    ensures
        final(state).wf(),
        node_disconnected_step(
            *old(state),
            *final(state),
            id,
        ),
{
    if let Some(_) = state.nodes.remove(&id) {
        if Some(id) == state.elected_leader_id || state.nodes.len() == 1 {
            state.elected_leader_id = None;
        }
    }
}

/// The outcome of a connection announcement for `id` at time `now`: a known
/// identity joins the members, and a manager that does not lead asks a new
/// manager for the cluster state.
pub open spec fn new_connection_step(
    state: State,
    output: Seq<NodeProtocol>,
    final_state: State,
    final_output: Seq<NodeProtocol>,
    id: Option<NodeId>,
    host: String,
    port: u32,
    me: NodeId,
    manager: bool,
    now: u64,
) -> bool {
    match id {
        None => {
            &&& final_state == state
            &&& final_output == output
        },
        Some(id) => {
            &&& final_state.nodes@ == state.nodes@.insert(
                id,
                Node {
                    host,
                    port,
                    last_heartbeat: now,
                    node_type: if manager {
                        NodeType::Manager
                    } else {
                        NodeType::Worker
                    },
                },
            )
            &&& final_state.epoch == state.epoch
            &&& final_state.elected_leader_id == state.elected_leader_id
            &&& final_state.partitions == state.partitions
            &&& final_state.workers_with_calculated_partitions
                == state.workers_with_calculated_partitions
            &&& message_views(final_output) == if manager && state.elected_leader_id != Some(me) {
                message_views(output).push(NodeMessage::GetClusterState { id })
            } else {
                message_views(output)
            }
        },
    }
}

/// Registers a new connection as of time `now`.
pub fn handle_new_connection_at(
    output: &mut Vec<NodeProtocol>,
    state: &mut State,
    id: Option<NodeId>,
    host: String,
    port: u32,
    me: &Me,
    manager: bool,
    now: u64,
)
    requires
        old(state).wf(),
    ensures
        final(state).wf(),
        new_connection_step(
            *old(state),
            old(output)@,
            *final(state),
            final(output)@,
            id,
            host,
            port,
            me.id,
            manager,
            now,
        ),
{
    if let Some(id) = id {
        if manager {
            if state.elected_leader_id.is_none() || state.elected_leader_id != Some(me.id) {
                let m = NodeProtocol::GetClusterState { id };
                proof {
                    lemma_message_views_push(output@, m);
                }
                output.push(m);
            }
            state.nodes.insert(
                id,
                Node { host, port, last_heartbeat: now, node_type: NodeType::Manager },
            );
        } else {
            state.nodes.insert(
                id,
                Node { host, port, last_heartbeat: now, node_type: NodeType::Worker },
            );
        }
    }
}

/// Registers a new connection, stamping it with the clock.  Whatever the
/// clock reads, the outcome is that of `handle_new_connection_at` at some time.
pub fn handle_new_connection(
    output: &mut Vec<NodeProtocol>,
    state: &mut State,
    id: Option<NodeId>,
    host: String,
    port: u32,
    me: &Me,
    manager: bool,
)
    requires
        old(state).wf(),
    ensures
        final(state).wf(),
        exists|now: u64|
            #[trigger] new_connection_step(
                *old(state),
                old(output)@,
                *final(state),
                final(output)@,
                id,
                host,
                port,
                me.id,
                manager,
                now,
            ),
{
    let now = now_millis();
    let ghost h = host;
    handle_new_connection_at(output, state, id, host, port, me, manager, now);
    assert(new_connection_step(
        *old(state),
        old(output)@,
        *state,
        output@,
        id,
        h,
        port,
        me.id,
        manager,
        now,
    ));
}

} // verus!
