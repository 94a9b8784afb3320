//! Liveness of the worker: its own heartbeats and those it receives, and the
//! fan-out of messages to the members.
use crate::collections::{lemma_pair_in_map, SortedMap};
use crate::common::{for_each_node, now_millis, other_manager, other_node, Heartbeat, Me, Node, NodeId, NodeType};
use crate::manager::state::{lemma_add_push, lemma_for_each_node_step};
use crate::worker::domain::{lemma_worker_views_push, worker_message_views, WorkerMessage, WorkerProtocol};
use crate::worker::service::state::State;
use vstd::prelude::*;

verus! {

/// How often, in milliseconds, a worker announces that it is alive.
pub const HEARTBEAT_INTERVAL_MS: u64 = 200;

/// The request for the cluster state addressed to `k`.
pub open spec fn worker_get_state_message() -> spec_fn(NodeId) -> WorkerMessage {
    |k: NodeId| WorkerMessage::GetClusterState { id: k }
}

/// The heartbeat `hb` addressed to `k`.
pub open spec fn worker_heartbeat_message(hb: Heartbeat) -> spec_fn(NodeId) -> WorkerMessage {
    |k: NodeId| WorkerMessage::Heartbeat { id: k, heartbeat: hb }
}

/// Asks every manager other than `me` for the cluster state.
pub fn request_cluster_state(
    output: &mut Vec<WorkerProtocol>,
    nodes: &SortedMap<NodeId, Node>,
    me: NodeId,
)
    requires
        nodes.wf(),
    ensures
        worker_message_views(final(output)@) == worker_message_views(old(output)@) + for_each_node(
            nodes.pairs(),
            other_manager(me),
            worker_get_state_message(),
        ),
{
    let ghost start = worker_message_views(output@);
    let mut i: usize = 0;
    assert(worker_message_views(output@) =~= start + for_each_node(
        nodes.pairs().take(0),
        other_manager(me),
        worker_get_state_message(),
    ));
    while i < nodes.len()
        invariant
            nodes.wf(),
            i <= nodes.pairs().len(),
            worker_message_views(output@) == start + for_each_node(
                nodes.pairs().take(i as int),
                other_manager(me),
                worker_get_state_message(),
            ),
        decreases nodes.pairs().len() - i,
    {
        let k = nodes.key_at(i);
        let n = nodes.value_at(i);
        proof {
            lemma_for_each_node_step(nodes.pairs(), i as int, other_manager(me), worker_get_state_message());
        }
        if k != me && n.is_manager() {
            let m = WorkerProtocol::GetClusterState { id: k };
            proof {
                lemma_worker_views_push(output@, m);
                lemma_add_push(
                    start,
                    for_each_node(nodes.pairs().take(i as int), other_manager(me), worker_get_state_message()),
                    m@,
                );
            }
            output.push(m);
        }
        i += 1;
    }
    assert(nodes.pairs().take(nodes.pairs().len() as int) =~= nodes.pairs());
}

/// Sends heartbeat `hb` to every member other than `me`.
pub fn send_heartbeat(
    output: &mut Vec<WorkerProtocol>,
    nodes: &SortedMap<NodeId, Node>,
    me: NodeId,
    hb: Heartbeat,
)
    requires
        nodes.wf(),
    ensures
        worker_message_views(final(output)@) == worker_message_views(old(output)@) + for_each_node(
            nodes.pairs(),
            other_node(me),
            worker_heartbeat_message(hb),
        ),
{
    let ghost start = worker_message_views(output@);
    let mut i: usize = 0;
    assert(worker_message_views(output@) =~= start + for_each_node(
        nodes.pairs().take(0),
        other_node(me),
        worker_heartbeat_message(hb),
    ));
    while i < nodes.len()
        invariant
            nodes.wf(),
            i <= nodes.pairs().len(),
            worker_message_views(output@) == start + for_each_node(
                nodes.pairs().take(i as int),
                other_node(me),
                worker_heartbeat_message(hb),
            ),
        decreases nodes.pairs().len() - i,
    {
        let k = nodes.key_at(i);
        proof {
            lemma_for_each_node_step(nodes.pairs(), i as int, other_node(me), worker_heartbeat_message(hb));
        }
        if k != me {
            let m = WorkerProtocol::Heartbeat { id: k, heartbeat: hb };
            proof {
                lemma_worker_views_push(output@, m);
                lemma_add_push(
                    start,
                    for_each_node(nodes.pairs().take(i as int), other_node(me), worker_heartbeat_message(hb)),
                    m@,
                );
            }
            output.push(m);
        }
        i += 1;
    }
    assert(nodes.pairs().take(nodes.pairs().len() as int) =~= nodes.pairs());
}

/// The outcome of the worker's heartbeat step at time `now`: a worker whose
/// own heartbeat is `HEARTBEAT_INTERVAL_MS` old refreshes it and sends it to
/// every other member.
pub open spec fn worker_heartbeats_step(
    state: State,
    output: Seq<WorkerProtocol>,
    final_state: State,
    final_output: Seq<WorkerProtocol>,
    me: NodeId,
    now: u64,
) -> bool {
    if state.nodes@.dom().contains(me) && state.nodes@[me].node_type == NodeType::Worker
        && state.nodes@[me].last_heartbeat + HEARTBEAT_INTERVAL_MS <= now {
        &&& final_state.nodes@ == state.nodes@.insert(
            me,
            Node { last_heartbeat: now, ..state.nodes@[me] },
        )
        &&& final_state.nodes.keys() == state.nodes.keys()
        &&& final_state.epoch == state.epoch
        &&& final_state.elected_leader_id == state.elected_leader_id
        &&& final_state.partitions == state.partitions
        &&& final_state.sync == state.sync
        &&& worker_message_views(final_output) == worker_message_views(output) + for_each_node(
            state.nodes.pairs(),
            other_node(me),
            worker_heartbeat_message(Heartbeat { id: me, ts: now }),
        )
    } else {
        &&& final_state == state
        &&& final_output == output
    }
}

/// The worker's heartbeat step at time `now`.
pub fn heartbeats_at(state: &mut State, output: &mut Vec<WorkerProtocol>, me: &Me, now: u64)
    requires
        old(state).wf(),
    ensures
        final(state).wf(),
        worker_heartbeats_step(*old(state), old(output)@, *final(state), final(output)@, me.id, now),
{
    if let Some(i) = state.nodes.find(&me.id) {
        proof {
            lemma_pair_in_map(state.nodes.pairs(), i as int);
        }
        if state.nodes.value_at(i).is_worker() {
            let last = state.nodes.value_at(i).last_heartbeat;
            let stale = match last.checked_add(HEARTBEAT_INTERVAL_MS) {
                Some(t) => t <= now,
                None => false,
            };
            if stale {
                send_heartbeat(output, &state.nodes, me.id, Heartbeat { id: me.id, ts: now });
                let mut node = state.nodes.value_at(i).clone();
                node.last_heartbeat = now;
                state.nodes.replace_at(i, node);
                assert(state.nodes.keys() =~= old(state).nodes.keys());
            }
        }
    }
}

/// The worker's heartbeat step, reading the clock.  Whatever the clock
/// reads, the outcome is that of `heartbeats_at` at some time.
pub fn heartbeats(state: &mut State, output: &mut Vec<WorkerProtocol>, me: &Me)
    requires
        old(state).wf(),
    ensures
        final(state).wf(),
        exists|now: u64|
            #[trigger] worker_heartbeats_step(
                *old(state),
                old(output)@,
                *final(state),
                final(output)@,
                me.id,
                now,
            ),
{
    let now = now_millis();
    heartbeats_at(state, output, me, now);
}

/// The outcome of a heartbeat of member `id` taken at `ts`: a known member's
/// heartbeat is recorded; an unknown member makes the worker ask the
/// managers for the cluster state.
pub open spec fn worker_heartbeat_step(
    state: State,
    output: Seq<WorkerProtocol>,
    final_state: State,
    final_output: Seq<WorkerProtocol>,
    id: NodeId,
    ts: u64,
    me: NodeId,
) -> bool {
    &&& final_state.epoch == state.epoch
    &&& final_state.elected_leader_id == state.elected_leader_id
    &&& final_state.partitions == state.partitions
    &&& final_state.sync == state.sync
    &&& if state.nodes@.dom().contains(id) {
        &&& final_state.nodes@ == state.nodes@.insert(id, Node { last_heartbeat: ts, ..state.nodes@[id] })
        &&& final_state.nodes.keys() == state.nodes.keys()
        &&& final_output == output
    } else {
        &&& final_state.nodes == state.nodes
        &&& worker_message_views(final_output) == worker_message_views(output) + for_each_node(
            state.nodes.pairs(),
            other_manager(me),
            worker_get_state_message(),
        )
    }
}

/// Records a heartbeat of member `id` taken at `ts`.
pub fn handle_heartbeat(
    output: &mut Vec<WorkerProtocol>,
    state: &mut State,
    id: NodeId,
    ts: u64,
    me: &Me,
)
    requires
        old(state).wf(),
    ensures
        final(state).wf(),
        worker_heartbeat_step(*old(state), old(output)@, *final(state), final(output)@, id, ts, me.id),
{
    match state.nodes.find(&id) {
        None => {
            request_cluster_state(output, &state.nodes, me.id);
        },
        Some(i) => {
            proof {
                lemma_pair_in_map(state.nodes.pairs(), i as int);
            }
            let mut node = state.nodes.value_at(i).clone();
            node.last_heartbeat = ts;
            state.nodes.replace_at(i, node);
            assert(state.nodes.keys() =~= old(state).nodes.keys());
        },
    }
}

} // verus!

verus! {

/// When a worker's own heartbeat is at least `HEARTBEAT_INTERVAL_MS` old,
/// the heartbeat step records the current time as its heartbeat and sends
/// every other member, and only other members, a heartbeat that carries the
/// worker's id and the current time, after the messages already queued.
pub proof fn lemma_worker_heartbeat_reaches_every_member(
    state: State,
    output: Seq<WorkerProtocol>,
    final_state: State,
    final_output: Seq<WorkerProtocol>,
    me: NodeId,
    now: u64,
)
    requires
        state.wf(),
        worker_heartbeats_step(state, output, final_state, final_output, me, now),
        state.nodes@.dom().contains(me),
        state.nodes@[me].node_type == NodeType::Worker,
        state.nodes@[me].last_heartbeat + HEARTBEAT_INTERVAL_MS <= now,
    ensures
        final_state.nodes@.dom().contains(me),
        final_state.nodes@[me].last_heartbeat == now,
        worker_message_views(final_output).len() >= worker_message_views(output).len(),
        worker_message_views(final_output).subrange(0, output.len() as int) == worker_message_views(
            output,
        ),
        forall|k: NodeId|
            state.nodes@.dom().contains(k) && k != me ==> worker_message_views(final_output).contains(
                WorkerMessage::Heartbeat { id: k, heartbeat: Heartbeat { id: me, ts: now } },
            ),
        forall|j: int|
            output.len() <= j < final_output.len() ==> (#[trigger] worker_message_views(
                final_output,
            )[j] matches WorkerMessage::Heartbeat { id, heartbeat } && heartbeat == Heartbeat {
                id: me,
                ts: now,
            } && id != me && state.nodes@.dom().contains(id)),
{
    let pairs = state.nodes.pairs();
    let make = worker_heartbeat_message(Heartbeat { id: me, ts: now });
    let sent = for_each_node(pairs, other_node(me), make);
    let before = worker_message_views(output);
    let after = worker_message_views(final_output);
    assert(after == before + sent);
    assert(after.subrange(0, output.len() as int) =~= before);
    assert forall|k: NodeId| state.nodes@.dom().contains(k) && k != me implies after.contains(
        WorkerMessage::Heartbeat { id: k, heartbeat: Heartbeat { id: me, ts: now } },
    ) by {
        let i = choose|i: int| 0 <= i < pairs.len() && (#[trigger] pairs[i]).0 == k;
        crate::common::lemma_for_each_node_reaches(pairs, other_node(me), make, i);
        let t = choose|t: int| 0 <= t < sent.len() && sent[t] == make(k);
        assert(after[before.len() + t] == sent[t]);
    }
    assert forall|j: int| output.len() <= j < final_output.len() implies (#[trigger] after[j]
        matches WorkerMessage::Heartbeat { id, heartbeat } && heartbeat == Heartbeat { id: me, ts: now }
        && id != me && state.nodes@.dom().contains(id)) by {
        let t = j - before.len();
        crate::common::lemma_for_each_node_only(pairs, other_node(me), make, t);
        let i = choose|i: int|
            0 <= i < pairs.len() && other_node(me)(pairs[i].0, pairs[i].1) && sent[t] == make(pairs[i].0);
        lemma_pair_in_map(pairs, i);
        assert(after[j] == sent[t]);
    }
}

} // verus!
