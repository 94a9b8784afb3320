//! The manager's state machine: the initial messages, the periodic tick and
//! the handling of each incoming message.
use crate::collections::{SortedMap, SortedSet};
use crate::common::{now_millis, Config, Me, Node, NodeId, NodeType, PartitionId, PartitionView};
use crate::manager::cluster_state::{
    cluster_state_step, get_cluster_state_step, handle_cluster_state, handle_get_cluster_state,
    handle_remove_old_partition, remove_old_partition_step,
};
use crate::manager::connection::{
    handle_new_connection, handle_node_disconnected, new_connection_step, node_disconnected_step,
};
use crate::manager::domain::{lemma_message_views_push, message_views, NodeMessage, NodeProtocol};
use crate::manager::election::{
    approved_election, election_step, elections_wf, epoch_ahead, handle_leader, handle_vote_request, handle_vote_response,
    leader_step, start_election_if_needed, vote_request_step, vote_response_step, Elections,
};
use crate::manager::heartbeat::{handle_heartbeat, heartbeat_step, heartbeats, heartbeats_step};
use crate::manager::partitions::{worker_partitions, worker_partitions_step};
use crate::manager::state::State;
use vstd::prelude::*;

verus! {

/// Draws the randomized election wait with `rand::random_range(500..1000)`.
/// Trusted to lie in that half-open range, as the documentation of
/// `random_range` promises for a non-empty range.
#[verifier::external_body]
pub(crate) fn get_random_number() -> (r: u64)
    ensures
        500 <= r < 1000,
{
    rand::random_range(500..1000)
}

/// The manager's state machine.
#[derive(Debug)]
pub struct ManagerService {
    pub me: Me,
    pub state: Option<State>,
    pub elections: Elections,
    pub config: Config,
}

impl NodeProtocol {
    /// The partition table that a cluster snapshot carries is well formed.
    pub open spec fn wf(&self) -> bool {
        match self {
            NodeProtocol::ClusterState { state, .. } => state.wf(),
            _ => true,
        }
    }

    /// Whether the message is well formed.
    pub fn is_well_formed(&self) -> (b: bool)
        ensures
            b == self.wf(),
    {
        match self {
            NodeProtocol::ClusterState { state, .. } => state.partitions.is_well_formed(),
            _ => true,
        }
    }
}

/// The outcome of the message `msg` on the state and the elections.
pub open spec fn message_step(
    state: State,
    elections: Elections,
    output: Seq<NodeProtocol>,
    final_state: State,
    final_elections: Elections,
    final_output: Seq<NodeProtocol>,
    msg: NodeProtocol,
    me: NodeId,
) -> bool {
    match msg {
        NodeProtocol::RemoveOldPartition { id, replica_id, partition_id } => {
            &&& remove_old_partition_step(
                state,
                output,
                final_state,
                final_output,
                id,
                replica_id,
                partition_id,
                me,
            )
            &&& final_elections == elections
        },
        NodeProtocol::NewConnection { id, host, port, manager } => {
            &&& exists|now: u64|
                #[trigger] new_connection_step(
                    state,
                    output,
                    final_state,
                    final_output,
                    id,
                    host,
                    port,
                    me,
                    manager,
                    now,
                )
            &&& final_elections == elections
        },
        NodeProtocol::Heartbeat { heartbeat, .. } => {
            &&& heartbeat_step(state, output, final_state, final_output, heartbeat.id, heartbeat.ts, me)
            &&& final_elections == elections
        },
        NodeProtocol::GetClusterState { id } => {
            &&& get_cluster_state_step(state, output, final_state, final_output, id)
            &&& final_elections == elections
        },
        NodeProtocol::ClusterState { state: snapshot, .. } => {
            &&& cluster_state_step(
                state,
                output,
                final_state,
                final_output,
                snapshot.epoch,
                snapshot.leader_id,
                snapshot.items@,
                snapshot.partitions,
            )
            &&& final_elections == elections
        },
        NodeProtocol::VoteRequest { id, epoch, ts } => vote_request_step(
            state,
            elections,
            output,
            final_state,
            final_elections,
            final_output,
            id,
            epoch,
            ts,
        ),
        NodeProtocol::VoteResponse { id, leader_id, ts } => vote_response_step(
            state,
            elections,
            output,
            final_state,
            final_elections,
            final_output,
            id,
            leader_id,
            ts,
            me,
        ),
        NodeProtocol::Leader { id, epoch, ts } => leader_step(
            state,
            elections,
            output,
            final_state,
            final_elections,
            final_output,
            id,
            epoch,
            ts,
            me,
        ),
        NodeProtocol::NodeDisconnected { id } => {
            &&& node_disconnected_step(state, final_state, id)
            &&& final_elections == elections
            &&& final_output == output
        },
    }
}

/// The outcome of a tick: the heartbeat step, then an election if one is
/// due, then the placement step, each at some clock reading and with some
/// randomized wait in `500..1000`.
pub open spec fn tick_step(
    svc: ManagerService,
    output: Seq<NodeProtocol>,
    final_svc: ManagerService,
    final_output: Seq<NodeProtocol>,
) -> bool {
    &&& final_svc.me == svc.me
    &&& final_svc.config == svc.config
    &&& match svc.state {
        None => {
            &&& final_svc.state is None
            &&& final_svc.elections == svc.elections
            &&& final_output == output
        },
        Some(s) => exists|
            s1: State,
            o1: Seq<NodeProtocol>,
            now1: u64,
            t1: u64,
            e2: Elections,
            o2: Seq<NodeProtocol>,
            now2: u64,
            w2: u64,
            s3: State,
        |
            #![trigger heartbeats_step(s, output, s1, o1, svc.me.id, now1, t1), election_step(s1, svc.elections, o1, e2, o2, svc.me.id, now2, w2), worker_partitions_step(s1, o2, s3, final_output, svc.me.id, svc.config->replication_factor)]
            {
                &&& 500 <= t1 < 1000
                &&& 500 <= w2 < 1000
                &&& heartbeats_step(s, output, s1, o1, svc.me.id, now1, t1)
                &&& election_step(s1, svc.elections, o1, e2, o2, svc.me.id, now2, w2)
                &&& worker_partitions_step(
                    s1,
                    o2,
                    s3,
                    final_output,
                    svc.me.id,
                    svc.config->replication_factor,
                )
                &&& final_svc.state == Some(s3)
                &&& final_svc.elections == e2
            },
    }
}

/// The outcome of an incoming message: the message's own step, then a tick.
/// Messages arriving before the state exists only trigger the tick.
pub open spec fn process_step(
    svc: ManagerService,
    msg: NodeProtocol,
    output: Seq<NodeProtocol>,
    final_svc: ManagerService,
    final_output: Seq<NodeProtocol>,
) -> bool {
    match svc.state {
        None => tick_step(svc, output, final_svc, final_output),
        Some(s) => exists|s1: State, e1: Elections, o1: Seq<NodeProtocol>|
            #![trigger message_step(s, svc.elections, output, s1, e1, o1, msg, svc.me.id)]
            {
                &&& message_step(s, svc.elections, output, s1, e1, o1, msg, svc.me.id)
                &&& tick_step(
                    ManagerService { state: Some(s1), elections: e1, ..svc },
                    o1,
                    final_svc,
                    final_output,
                )
            },
    }
}

/// The state a manager starts from at time `now`: itself as the only member,
/// in epoch 0 unless it is to join an existing manager, whose address it
/// then connects to.
pub open spec fn init_step(
    svc: ManagerService,
    final_svc: ManagerService,
    output: Seq<NodeMessage>,
    now: u64,
) -> bool {
    match svc.state {
        Some(_) => {
            &&& final_svc == svc
            &&& output =~= Seq::<NodeMessage>::empty()
        },
        None => {
            &&& final_svc.me == svc.me
            &&& final_svc.config == svc.config
            &&& final_svc.elections == svc.elections
            &&& final_svc.state matches Some(s) && {
                &&& s.nodes@ =~= map![svc.me.id => Node {
                    host: svc.me.host,
                    port: svc.me.port,
                    last_heartbeat: now,
                    node_type: NodeType::Manager,
                }]
                &&& s.elected_leader_id is None
                &&& s.partitions@.mapping == Map::<PartitionId, PartitionView>::empty()
                &&& s.partitions@.old_replicas == Map::<PartitionId, Set<NodeId>>::empty()
                &&& s.partitions@.new_replicas == Map::<PartitionId, Set<NodeId>>::empty()
                &&& s.workers_with_calculated_partitions@ == Set::<NodeId>::empty()
                &&& match svc.config->Manager_manager_host_port {
                    Some((host, port)) => {
                        &&& s.epoch is None
                        &&& output =~= seq![
                            NodeMessage::NewConnection {
                                id: None,
                                host,
                                port: port as u32,
                                manager: true,
                            },
                        ]
                    },
                    None => {
                        &&& s.epoch == Some(0u64)
                        &&& output =~= Seq::<NodeMessage>::empty()
                    },
                }
            }
        },
    }
}

impl ManagerService {
    /// A manager configuration, well-formed elections, and a well-formed state
    /// that knows its epoch while this manager leads.
    pub open spec fn wf(&self) -> bool {
        &&& self.config is Manager
        &&& elections_wf(self.elections)
        &&& match self.state {
            Some(s) => s.wf() && s.epoch_known_if_leading(self.me.id),
            None => true,
        }
    }

    /// A manager that has not started yet.
    pub fn new(me: Me, config: Config) -> (svc: Self)
        requires
            config is Manager,
        ensures
            svc.wf(),
            svc.me == me,
            svc.config == config,
            svc.state is None,
            svc.elections@ == Map::<u64, crate::manager::election::ElectionView>::empty(),
    {
        ManagerService { me, state: None, elections: SortedMap::new(), config }
    }

    /// Sets up the state at time `now`, returning the messages to send first.
    pub fn get_init_messages_at(&mut self, now: u64) -> (output: Vec<NodeProtocol>)
        requires
            old(self).wf(),
        ensures
            final(self).wf(),
            init_step(*old(self), *final(self), message_views(output@), now),
    {
        let mut output: Vec<NodeProtocol> = Vec::new();
        if self.state.is_none() {
            let mut nodes: SortedMap<NodeId, Node> = SortedMap::new();
            nodes.insert(
                self.me.id,
                Node {
                    host: self.me.host.clone(),
                    port: self.me.port,
                    last_heartbeat: now,
                    node_type: NodeType::Manager,
                },
            );
            match self.config.manager_host_port() {
                Some(hp) => {
                    let host = hp.0.clone();
                    let port = hp.1 as u32;
                    self.state = Some(State::without_epoch(nodes));
                    let m = NodeProtocol::NewConnection { id: None, host, port, manager: true };
                    proof {
                        lemma_message_views_push(output@, m);
                    }
                    output.push(m);
                },
                None => {
                    self.state = Some(State::with_epoch(nodes, 0));
                },
            }
            assert(self.state->0.nodes@ =~= map![self.me.id => Node {
                    host: self.me.host,
                    port: self.me.port,
                    last_heartbeat: now,
                    node_type: NodeType::Manager,
                }]);
        }
        output
    }

    /// Sets up the state, stamping this manager's heartbeat with the clock.
    pub fn get_init_messages(&mut self) -> (output: Vec<NodeProtocol>)
        requires
            old(self).wf(),
        ensures
            final(self).wf(),
            exists|now: u64| #[trigger] init_step(*old(self), *final(self), message_views(output@), now),
    {
        let now = now_millis();
        self.get_init_messages_at(now)
    }

    /// The periodic step: heartbeats, elections and placement.
    pub fn tick(&mut self, output: &mut Vec<NodeProtocol>)
        requires
            old(self).wf(),
        ensures
            final(self).wf(),
            tick_step(*old(self), old(output)@, *final(self), final(output)@),
    {
        match self.state.take() {
            Some(mut state) => {
                let ghost s0 = state;
                let ghost o0 = output@;
                heartbeats(&mut state, output, &self.me);
                let ghost s1 = state;
                let ghost o1 = output@;
                let ghost (now1, t1) = choose|now: u64, timeout: u64|
                    500 <= timeout < 1000 && #[trigger] heartbeats_step(
                        s0,
                        o0,
                        s1,
                        o1,
                        self.me.id,
                        now,
                        timeout,
                    );
                let ghost e1 = self.elections;
                start_election_if_needed(&mut state, &mut self.elections, &self.me, output);
                let ghost e2 = self.elections;
                let ghost o2 = output@;
                let ghost (now2, w2) = choose|curr_ts: u64, wait: u64|
                    500 <= wait < 1000 && #[trigger] election_step(
                        s1,
                        e1,
                        o1,
                        e2,
                        o2,
                        self.me.id,
                        curr_ts,
                        wait,
                    );
                let replication_factor = self.config.replication_factor();
                worker_partitions(&mut state, output, &self.me, replication_factor);
                let ghost s3 = state;
                self.state = Some(state);
                assert(worker_partitions_step(
                    s1,
                    o2,
                    s3,
                    output@,
                    self.me.id,
                    self.config->replication_factor,
                ));
            },
            None => {},
        }
    }

    /// Handles one incoming message, then ticks.
    pub fn process(&mut self, msg: NodeProtocol, output: &mut Vec<NodeProtocol>)
        requires
            old(self).wf(),
            msg.wf(),
        ensures
            final(self).wf(),
            process_step(*old(self), msg, old(output)@, *final(self), final(output)@),
    {
        let ghost msg0 = msg;
        let ghost o0 = output@;
        match self.state.take() {
            Some(mut state) => {
                let ghost s0 = state;
                let ghost el0 = self.elections;
                match msg {
                    NodeProtocol::RemoveOldPartition { id, replica_id, partition_id } => {
                        handle_remove_old_partition(output, &mut state, id, replica_id, partition_id, &self.me);
                    },
                    NodeProtocol::NewConnection { id, host, port, manager } => {
                        handle_new_connection(output, &mut state, id, host, port, &self.me, manager);
                    },
                    NodeProtocol::Heartbeat { heartbeat, .. } => {
                        handle_heartbeat(output, &mut state, heartbeat.id, heartbeat.ts, &self.me);
                    },
                    NodeProtocol::GetClusterState { id } => {
                        handle_get_cluster_state(output, &mut state, id);
                    },
                    NodeProtocol::ClusterState { state: snapshot, .. } => {
                        handle_cluster_state(
                            output,
                            &mut state,
                            snapshot.epoch,
                            snapshot.leader_id,
                            snapshot.items,
                            snapshot.partitions,
                        );
                    },
                    NodeProtocol::VoteRequest { id, epoch, ts } => {
                        handle_vote_request(output, &mut state, id, epoch, ts, &mut self.elections);
                    },
                    NodeProtocol::VoteResponse { id, leader_id, ts } => {
                        handle_vote_response(
                            output,
                            &mut state,
                            id,
                            leader_id,
                            ts,
                            &self.me,
                            &mut self.elections,
                        );
                    },
                    NodeProtocol::Leader { id, epoch, ts } => {
                        handle_leader(output, &mut state, id, epoch, ts, &self.me, &mut self.elections);
                    },
                    NodeProtocol::NodeDisconnected { id } => {
                        handle_node_disconnected(&mut state, id, &self.me);
                    },
                }
                let ghost s1 = state;
                let ghost e1 = self.elections;
                let ghost o1 = output@;
                assert(message_step(s0, el0, o0, s1, e1, o1, msg0, self.me.id));
                self.state = Some(state);
                self.tick(output);
            },
            None => {
                self.tick(output);
            },
        }
    }
}

} // verus!

verus! {

/// Whether the known epoch `after` keeps `before`: a known epoch stays known
/// and does not go down.
pub open spec fn epoch_not_lowered(before: Option<u64>, after: Option<u64>) -> bool {
    before matches Some(x) ==> (after matches Some(y) && x <= y)
}

/// Whether `msg` is a vote that completes one of this manager's elections
/// for an epoch below the one it knows.
pub open spec fn stale_victory(state: State, elections: Elections, msg: NodeProtocol, me: NodeId) -> bool {
    match msg {
        NodeProtocol::VoteResponse { leader_id, ts, .. } => match approved_election(
            elections,
            ts,
            leader_id,
            me,
        ) {
            Some((e, _)) => !epoch_not_lowered(state.epoch, Some(e)),
            None => false,
        },
        _ => false,
    }
}

/// No incoming message lowers or forgets the epoch a manager knows, except
/// a vote that completes one of its own elections for an epoch below it.
pub proof fn lemma_message_keeps_epoch(
    state: State,
    elections: Elections,
    output: Seq<NodeProtocol>,
    final_state: State,
    final_elections: Elections,
    final_output: Seq<NodeProtocol>,
    msg: NodeProtocol,
    me: NodeId,
)
    requires
        message_step(state, elections, output, final_state, final_elections, final_output, msg, me),
        !stale_victory(state, elections, msg, me),
    ensures
        epoch_not_lowered(state.epoch, final_state.epoch),
{
    if let NodeProtocol::NewConnection { id, host, port, manager } = msg {
        let now = choose|now: u64|
            #[trigger] new_connection_step(
                state,
                output,
                final_state,
                final_output,
                id,
                host,
                port,
                me,
                manager,
                now,
            );
    }
}

/// A manager takes a new leader, or a new epoch, from another manager only
/// for an epoch ahead of the one it knows, or for the known epoch under the
/// known leader.
pub proof fn lemma_leader_changes_only_forward(
    state: State,
    elections: Elections,
    output: Seq<NodeProtocol>,
    final_state: State,
    final_elections: Elections,
    final_output: Seq<NodeProtocol>,
    msg: NodeProtocol,
    me: NodeId,
)
    requires
        message_step(state, elections, output, final_state, final_elections, final_output, msg, me),
        final_state.elected_leader_id is Some,
        final_state.elected_leader_id != state.elected_leader_id || final_state.epoch != state.epoch,
        !(msg is VoteResponse),
    ensures
        msg matches NodeProtocol::Leader { id, epoch, .. } ==> epoch_ahead(state.epoch, epoch)
            && final_state.elected_leader_id == Some(id) && final_state.epoch == Some(epoch),
        msg matches NodeProtocol::ClusterState { state: snapshot, .. } ==> (epoch_ahead(
            state.epoch,
            snapshot.epoch,
        ) || state.epoch == Some(snapshot.epoch)) && final_state.elected_leader_id == Some(
            snapshot.leader_id,
        ) && final_state.epoch == Some(snapshot.epoch),
        msg is Leader || msg is ClusterState,
{
    if let NodeProtocol::NewConnection { id, host, port, manager } = msg {
        let now = choose|now: u64|
            #[trigger] new_connection_step(
                state,
                output,
                final_state,
                final_output,
                id,
                host,
                port,
                me,
                manager,
                now,
            );
    }
}

/// A manager declares itself leader only when every other manager it knows
/// approved its latest election, and then takes that election's epoch.
pub proof fn lemma_leadership_needs_every_vote(
    state: State,
    elections: Elections,
    output: Seq<NodeProtocol>,
    final_state: State,
    final_elections: Elections,
    final_output: Seq<NodeProtocol>,
    msg: NodeProtocol,
    me: NodeId,
)
    requires
        message_step(state, elections, output, final_state, final_elections, final_output, msg, me),
        final_state.elected_leader_id == Some(me),
        state.elected_leader_id != Some(me),
    ensures
        msg matches NodeProtocol::VoteResponse { id, leader_id, ts } ==> approved_election(
            elections,
            ts,
            leader_id,
            me,
        ) matches Some((e, approvers)) && final_state.epoch == Some(e) && forall|k: NodeId|
            state.nodes@.dom().contains(k) && k != me && state.nodes@[k].node_type
                == NodeType::Manager ==> #[trigger] approvers.insert(id).contains(k),
        msg is VoteResponse || msg is Leader || msg is ClusterState,
{
    if let NodeProtocol::NewConnection { id, host, port, manager } = msg {
        let now = choose|now: u64|
            #[trigger] new_connection_step(
                state,
                output,
                final_state,
                final_output,
                id,
                host,
                port,
                me,
                manager,
                now,
            );
    }
}

/// A tick never changes the epoch a manager knows.
pub proof fn lemma_tick_keeps_epoch(
    svc: ManagerService,
    output: Seq<NodeProtocol>,
    final_svc: ManagerService,
    final_output: Seq<NodeProtocol>,
)
    requires
        tick_step(svc, output, final_svc, final_output),
    ensures
        svc.state matches Some(s) ==> final_svc.state matches Some(f) && f.epoch == s.epoch,
{
}

} // verus!
