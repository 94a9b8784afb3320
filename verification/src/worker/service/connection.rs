//! Members joining and leaving, as the worker sees them.
use crate::common::{now_millis, Me, Node, NodeId, NodeType};
use crate::worker::domain::{lemma_worker_views_push, worker_message_views, WorkerMessage, WorkerProtocol};
use crate::worker::service::state::State;
use vstd::prelude::*;

verus! {

/// The outcome of member `id` disconnecting: the worker forgets it.
pub open spec fn worker_disconnected_step(state: State, final_state: State, id: NodeId) -> bool {
    &&& final_state.nodes@ == state.nodes@.remove(id)
    &&& final_state.epoch == state.epoch
    &&& final_state.elected_leader_id == state.elected_leader_id
    &&& final_state.partitions == state.partitions
    &&& final_state.sync == state.sync
}

/// Forgets member `id`.
pub fn handle_node_disconnected(state: &mut State, id: NodeId, me: &Me)
    requires
        old(state).wf(),
    ensures
        final(state).wf(),
        worker_disconnected_step(*old(state), *final(state), id),
{
    let _ = state.nodes.remove(&id);
}

/// The outcome of a connection announcement for `id` at time `now`: a known
/// identity joins the members, and a new manager is asked for the cluster
/// state.
pub open spec fn worker_connection_step(
    state: State,
    output: Seq<WorkerProtocol>,
    final_state: State,
    final_output: Seq<WorkerProtocol>,
    id: Option<NodeId>,
    host: String,
    port: u32,
    manager: bool,
    now: u64,
) -> bool {
    match id {
        None => {
            &&& final_state == state
            &&& final_output == output
        },
        Some(id) => {
            &&& final_state.nodes@ == state.nodes@.insert(
                id,
                Node {
                    host,
                    port,
                    last_heartbeat: now,
                    node_type: if manager {
                        NodeType::Manager
                    } else {
                        NodeType::Worker
                    },
                },
            )
            &&& final_state.epoch == state.epoch
            &&& final_state.elected_leader_id == state.elected_leader_id
            &&& final_state.partitions == state.partitions
            &&& final_state.sync == state.sync
            &&& worker_message_views(final_output) == if manager {
                worker_message_views(output).push(WorkerMessage::GetClusterState { id })
            } else {
                worker_message_views(output)
            }
        },
    }
}

/// Registers a new connection as of time `now`.
pub fn handle_new_connection_at(
    output: &mut Vec<WorkerProtocol>,
    state: &mut State,
    id: Option<NodeId>,
    host: String,
    port: u32,
    me: &Me,
    manager: bool,
    now: u64,
)
    requires
        old(state).wf(),
    ensures
        final(state).wf(),
        worker_connection_step(
            *old(state),
            old(output)@,
            *final(state),
            final(output)@,
            id,
            host,
            port,
            manager,
            now,
        ),
{
    if let Some(id) = id {
        if manager {
            let m = WorkerProtocol::GetClusterState { id };
            proof {
                lemma_worker_views_push(output@, m);
            }
            output.push(m);
            state.nodes.insert(id, Node { host, port, last_heartbeat: now, node_type: NodeType::Manager });
        } else {
            state.nodes.insert(id, Node { host, port, last_heartbeat: now, node_type: NodeType::Worker });
        }
    }
}

/// Registers a new connection, stamping it with the clock.  Whatever the
/// clock reads, the outcome is that of `handle_new_connection_at` at some time.
pub fn handle_new_connection(
    output: &mut Vec<WorkerProtocol>,
    state: &mut State,
    id: Option<NodeId>,
    host: String,
    port: u32,
    me: &Me,
    manager: bool,
)
    requires
        old(state).wf(),
    ensures
        final(state).wf(),
        exists|now: u64|
            #[trigger] worker_connection_step(
                *old(state),
                old(output)@,
                *final(state),
                final(output)@,
                id,
                host,
                port,
                manager,
                now,
            ),
{
    let now = now_millis();
    handle_new_connection_at(output, state, id, host, port, me, manager, now);
}

} // verus!

verus! {

/// When a worker registers a connection with a known id, the peer becomes a
/// member of the announced kind as of `now`; where the peer is a manager the
/// worker sends exactly one message, a request for the cluster state
/// addressed to that manager, and where it is a worker it sends nothing.
pub proof fn lemma_worker_asks_new_manager_for_state(
    state: State,
    output: Seq<WorkerProtocol>,
    final_state: State,
    final_output: Seq<WorkerProtocol>,
    peer: NodeId,
    host: String,
    port: u32,
    manager: bool,
    now: u64,
)
    requires
        worker_connection_step(state, output, final_state, final_output, Some(peer), host, port, manager, now),
    ensures
        final_state.nodes@.dom().contains(peer),
        final_state.nodes@[peer].node_type == (if manager {
            NodeType::Manager
        } else {
            NodeType::Worker
        }),
        final_state.nodes@[peer].last_heartbeat == now,
        manager ==> worker_message_views(final_output).len() == worker_message_views(output).len() + 1
            && worker_message_views(final_output).last() == (WorkerMessage::GetClusterState { id: peer })
            && worker_message_views(final_output).drop_last() == worker_message_views(output),
        !manager ==> worker_message_views(final_output) == worker_message_views(output),
{
    if manager {
        assert(worker_message_views(final_output).drop_last() =~= worker_message_views(output));
    }
}

} // verus!
