//! The worker's state machine: the initial messages, the periodic tick and
//! the handling of each incoming message.
pub mod cluster_state;
pub mod connection;
pub mod election;
pub mod heartbeat;
pub mod partitions;
pub mod state;

use crate::collections::SortedMap;
use crate::common::{now_millis, Config, Me, Node, NodeId, NodeType, PartitionId, PartitionView, Partitions};
use crate::worker::domain::{lemma_worker_views_push, worker_message_views, WorkerMessage, WorkerProtocol};
use cluster_state::{handle_cluster_state, worker_cluster_state_step};
use connection::{
    handle_new_connection, handle_node_disconnected, worker_connection_step, worker_disconnected_step,
};
use heartbeat::{handle_heartbeat, heartbeats, worker_heartbeat_step, worker_heartbeats_step};
use state::{State, SyncState};
use vstd::prelude::*;

verus! {

/// The worker's state machine.
#[derive(Debug)]
pub struct WorkerService {
    pub me: Me,
    pub state: Option<State>,
    pub config: Config,
}

impl WorkerProtocol {
    /// The partition table that a cluster snapshot carries is well formed.
    pub open spec fn wf(&self) -> bool {
        match self {
            WorkerProtocol::ClusterState { state, .. } => state.wf(),
            _ => true,
        }
    }

    /// Whether the message is well formed.
    pub fn is_well_formed(&self) -> (b: bool)
        ensures
            b == self.wf(),
    {
        match self {
            WorkerProtocol::ClusterState { state, .. } => state.partitions.is_well_formed(),
            _ => true,
        }
    }
}

/// The address of the manager that the configuration names, if any.
pub open spec fn manager_address(config: Config) -> Option<(String, u16)> {
    match config {
        Config::Manager { manager_host_port, .. } => manager_host_port,
        Config::Worker { manager_host_port, .. } => Some(manager_host_port),
    }
}

/// The outcome of message `msg` on the worker state.  Messages that the
/// worker does not act on leave it unchanged.
pub open spec fn worker_message_step(
    state: State,
    output: Seq<WorkerProtocol>,
    final_state: State,
    final_output: Seq<WorkerProtocol>,
    msg: WorkerProtocol,
    me: NodeId,
) -> bool {
    match msg {
        WorkerProtocol::NewConnection { id, host, port, manager } => exists|now: u64|
            #[trigger] worker_connection_step(
                state,
                output,
                final_state,
                final_output,
                id,
                host,
                port,
                manager,
                now,
            ),
        WorkerProtocol::Heartbeat { heartbeat, .. } => worker_heartbeat_step(
            state,
            output,
            final_state,
            final_output,
            heartbeat.id,
            heartbeat.ts,
            me,
        ),
        WorkerProtocol::ClusterState { state: snapshot, .. } => worker_cluster_state_step(
            state,
            output,
            final_state,
            final_output,
            snapshot.epoch,
            snapshot.leader_id,
            snapshot.items@,
            snapshot.partitions,
        ),
        WorkerProtocol::NodeDisconnected { id } => {
            &&& worker_disconnected_step(state, final_state, id)
            &&& final_output == output
        },
        _ => {
            &&& final_state == state
            &&& final_output == output
        },
    }
}

/// The outcome of a worker tick: the heartbeat step at some clock reading.
pub open spec fn worker_tick_step(
    svc: WorkerService,
    output: Seq<WorkerProtocol>,
    final_svc: WorkerService,
    final_output: Seq<WorkerProtocol>,
) -> bool {
    &&& final_svc.me == svc.me
    &&& final_svc.config == svc.config
    &&& match svc.state {
        None => {
            &&& final_svc.state is None
            &&& final_output == output
        },
        Some(s) => exists|s1: State, now: u64|
            #![trigger worker_heartbeats_step(s, output, s1, final_output, svc.me.id, now)]
            {
                &&& worker_heartbeats_step(s, output, s1, final_output, svc.me.id, now)
                &&& final_svc.state == Some(s1)
            },
    }
}

/// The outcome of an incoming message: the message's own step, then a tick.
pub open spec fn worker_process_step(
    svc: WorkerService,
    msg: WorkerProtocol,
    output: Seq<WorkerProtocol>,
    final_svc: WorkerService,
    final_output: Seq<WorkerProtocol>,
) -> bool {
    match svc.state {
        None => worker_tick_step(svc, output, final_svc, final_output),
        Some(s) => exists|s1: State, o1: Seq<WorkerProtocol>|
            #![trigger worker_message_step(s, output, s1, o1, msg, svc.me.id)]
            {
                &&& worker_message_step(s, output, s1, o1, msg, svc.me.id)
                &&& worker_tick_step(WorkerService { state: Some(s1), ..svc }, o1, final_svc, final_output)
            },
    }
}

/// The state a worker starts from at time `now`: itself as the only member,
/// with no epoch, leader, partitions or hand-overs, and a connection to the
/// configured manager as the first message.  A worker that already has a
/// state keeps it and sends nothing.
pub open spec fn worker_init_step(
    svc: WorkerService,
    final_svc: WorkerService,
    output: Seq<WorkerMessage>,
    now: u64,
) -> bool {
    &&& final_svc.me == svc.me
    &&& final_svc.config == svc.config
    &&& match svc.state {
        Some(_) => {
            &&& final_svc == svc
            &&& output =~= Seq::<WorkerMessage>::empty()
        },
        None => {
            &&& final_svc.state matches Some(s) && {
                &&& s.nodes@ =~= map![svc.me.id => Node {
                    host: svc.me.host,
                    port: svc.me.port,
                    last_heartbeat: now,
                    node_type: NodeType::Worker,
                }]
                &&& s.epoch is None
                &&& s.elected_leader_id is None
                &&& s.partitions@.mapping == Map::<PartitionId, PartitionView>::empty()
                &&& s.partitions@.old_replicas == Map::<PartitionId, Set<NodeId>>::empty()
                &&& s.partitions@.new_replicas == Map::<PartitionId, Set<NodeId>>::empty()
                &&& s.sync@ == Map::<PartitionId, Map<NodeId, SyncState>>::empty()
            }
            &&& output =~= seq![
                WorkerMessage::NewConnection {
                    id: None,
                    host: (manager_address(svc.config)->0).0,
                    port: (manager_address(svc.config)->0).1 as u32,
                    manager: true,
                },
            ]
        },
    }
}

impl WorkerService {
    pub open spec fn wf(&self) -> bool {
        match self.state {
            Some(s) => s.wf(),
            None => true,
        }
    }

    /// A worker that has not started yet.
    pub fn new(me: Me, config: Config) -> (svc: Self)
        ensures
            svc.wf(),
            svc.me == me,
            svc.config == config,
            svc.state is None,
    {
        WorkerService { me, state: None, config }
    }

    /// Sets up the state at time `now`, returning the messages to send first:
    /// before the state exists, the worker becomes its only member, with no
    /// epoch, leader, partitions or hand-overs, and connects to the configured
    /// manager.
    pub fn get_init_messages_at(&mut self, now: u64) -> (output: Vec<WorkerProtocol>)
        requires
            old(self).wf(),
            old(self).state is None ==> manager_address(old(self).config) is Some,
        ensures
            final(self).wf(),
            worker_init_step(*old(self), *final(self), worker_message_views(output@), now),
    {
        let mut output: Vec<WorkerProtocol> = Vec::new();
        if self.state.is_none() {
            let mut nodes: SortedMap<NodeId, Node> = SortedMap::new();
            nodes.insert(
                self.me.id,
                Node {
                    host: self.me.host.clone(),
                    port: self.me.port,
                    last_heartbeat: now,
                    node_type: NodeType::Worker,
                },
            );
            match self.config.manager_host_port() {
                Some(hp) => {
                    let m = WorkerProtocol::NewConnection {
                        id: None,
                        host: hp.0.clone(),
                        port: hp.1 as u32,
                        manager: true,
                    };
                    proof {
                        lemma_worker_views_push(output@, m);
                    }
                    output.push(m);
                },
                None => {},
            }
            self.state = Some(
                State {
                    epoch: None,
                    elected_leader_id: None,
                    nodes,
                    partitions: Partitions::new(),
                    sync: SortedMap::new(),
                },
            );
        }
        output
    }

    /// The messages to send first, with the state set up at the current time.
    pub fn get_init_messages(&mut self) -> (output: Vec<WorkerProtocol>)
        requires
            old(self).wf(),
            old(self).state is None ==> manager_address(old(self).config) is Some,
        ensures
            final(self).wf(),
            exists|now: u64| #[trigger] worker_init_step(*old(self), *final(self), worker_message_views(output@), now),
    {
        let now = now_millis();
        self.get_init_messages_at(now)
    }

    /// The periodic step: heartbeats.
    pub fn tick(&mut self, output: &mut Vec<WorkerProtocol>)
        requires
            old(self).wf(),
        ensures
            final(self).wf(),
            worker_tick_step(*old(self), old(output)@, *final(self), final(output)@),
    {
        match self.state.take() {
            Some(mut state) => {
                let ghost s0 = state;
                let ghost o0 = output@;
                heartbeats(&mut state, output, &self.me);
                let ghost s1 = state;
                let ghost now = choose|now: u64|
                    #[trigger] worker_heartbeats_step(s0, o0, s1, output@, self.me.id, now);
                self.state = Some(state);
            },
            None => {},
        }
    }

    /// Handles one incoming message, then ticks.
    pub fn process(&mut self, msg: WorkerProtocol, output: &mut Vec<WorkerProtocol>)
        requires
            old(self).wf(),
            msg.wf(),
        ensures
            final(self).wf(),
            worker_process_step(*old(self), msg, old(output)@, *final(self), final(output)@),
    {
        let ghost msg0 = msg;
        let ghost o0 = output@;
        match self.state.take() {
            Some(mut state) => {
                let ghost s0 = state;
                match msg {
                    WorkerProtocol::NewConnection { id, host, port, manager } => {
                        handle_new_connection(output, &mut state, id, host, port, &self.me, manager);
                    },
                    WorkerProtocol::Heartbeat { heartbeat, .. } => {
                        handle_heartbeat(output, &mut state, heartbeat.id, heartbeat.ts, &self.me);
                    },
                    WorkerProtocol::ClusterState { state: snapshot, .. } => {
                        handle_cluster_state(
                            output,
                            &mut state,
                            snapshot.epoch,
                            snapshot.leader_id,
                            snapshot.items,
                            snapshot.partitions,
                        );
                    },
                    WorkerProtocol::NodeDisconnected { id } => {
                        handle_node_disconnected(&mut state, id, &self.me);
                    },
                    _ => {},
                }
                let ghost s1 = state;
                let ghost o1 = output@;
                assert(worker_message_step(s0, o0, s1, o1, msg0, self.me.id));
                self.state = Some(state);
                self.tick(output);
            },
            None => {
                self.tick(output);
            },
        }
    }
}

} // verus!

verus! {

/// No message and no tick lowers or forgets the epoch a worker knows.
pub proof fn lemma_worker_keeps_epoch(
    svc: WorkerService,
    msg: WorkerProtocol,
    output: Seq<WorkerProtocol>,
    final_svc: WorkerService,
    final_output: Seq<WorkerProtocol>,
)
    requires
        worker_process_step(svc, msg, output, final_svc, final_output),
    ensures
        svc.state matches Some(s) ==> (final_svc.state matches Some(f)
            && crate::manager::service::epoch_not_lowered(s.epoch, f.epoch)),
{
    if let Some(s) = svc.state {
        let (s1, o1) = choose|s1: State, o1: Seq<WorkerProtocol>|
            #[trigger] worker_message_step(s, output, s1, o1, msg, svc.me.id) && worker_tick_step(
                WorkerService { state: Some(s1), ..svc },
                o1,
                final_svc,
                final_output,
            );
        if let WorkerProtocol::NewConnection { id, host, port, manager } = msg {
            let now = choose|now: u64|
                #[trigger] worker_connection_step(s, output, s1, o1, id, host, port, manager, now);
        }
        let (s2, now) = choose|s2: State, now: u64|
            #[trigger] worker_heartbeats_step(s1, o1, s2, final_output, svc.me.id, now)
                && final_svc.state == Some(s2);
    }
}

} // verus!
