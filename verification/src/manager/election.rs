//! Leader election among the managers.
use crate::collections::{lemma_pair_in_map, lemma_set_len, pairs_to_map, SortedMap, SortedSet};
use crate::common::{
    count_nodes, for_each_node, now_millis, other_manager, other_node, Me, NodeId, NodeType,
};
use crate::manager::domain::{lemma_message_views_push, message_views, NodeMessage, NodeProtocol};
use crate::manager::service::get_random_number;
use crate::manager::state::{
    announce_leader, count_other_managers, get_state_message, leader_message, request_cluster_state, request_votes,
    vote_request_message, State,
};
use vstd::prelude::*;

verus! {

/// An election this manager takes part in.
#[derive(Debug)]
pub enum Election {
    /// This manager is the candidate; `approvers` voted for it.
    Mine { ts: u64, approvers: SortedSet<NodeId> },
    /// This manager voted for `candidate_id`.
    Other { ts: u64, candidate_id: NodeId },
}

/// The abstract content of an election.
pub enum ElectionView {
    Mine { ts: u64, approvers: Set<NodeId> },
    Other { ts: u64, candidate_id: NodeId },
}

impl ElectionView {
    /// When the election started.
    pub open spec fn ts(self) -> u64 {
        match self {
            ElectionView::Mine { ts, .. } => ts,
            ElectionView::Other { ts, .. } => ts,
        }
    }
}

impl View for Election {
    type V = ElectionView;

    open spec fn view(&self) -> ElectionView {
        match self {
            Election::Mine { ts, approvers } => ElectionView::Mine { ts: *ts, approvers: approvers@ },
            Election::Other { ts, candidate_id } => ElectionView::Other {
                ts: *ts,
                candidate_id: *candidate_id,
            },
        }
    }
}

impl Election {
    /// The approvers of an own election are a well-formed set.
    pub open spec fn wf(&self) -> bool {
        match self {
            Election::Mine { approvers, .. } => approvers.wf(),
            Election::Other { .. } => true,
        }
    }

    /// When the election started.
    pub fn ts(&self) -> (t: u64)
        ensures
            t == self@.ts(),
    {
        match self {
            Election::Mine { ts, .. } => *ts,
            Election::Other { ts, .. } => *ts,
        }
    }
}

/// Elections by epoch.
pub type Elections = SortedMap<u64, Election>;

/// The elections map and every election in it are well formed.
pub open spec fn elections_wf(e: Elections) -> bool {
    &&& e.wf()
    &&& forall|i: int| 0 <= i < e.pairs().len() ==> (#[trigger] e.pairs()[i]).1.wf()
}

/// The election of the greatest epoch, if any.
pub open spec fn last_election(e: Elections) -> Option<(u64, ElectionView)> {
    if e.pairs().len() == 0 {
        None
    } else {
        Some((e.pairs().last().0, e.pairs().last().1@))
    }
}

/// Whether the epoch `epoch` is ahead of what the state knows.
pub open spec fn epoch_ahead(known: Option<u64>, epoch: u64) -> bool {
    match known {
        None => true,
        Some(e) => e < epoch,
    }
}

/// Whether the last election is old enough, after `wait` milliseconds, to
/// start another at `now`.
pub open spec fn election_due(last: Option<(u64, ElectionView)>, now: u64, wait: u64) -> bool {
    match last {
        None => true,
        Some((_, el)) => el.ts() + wait < now,
    }
}

/// The epoch of the next election: one past both the known epoch and the
/// last election's.
pub open spec fn next_election_epoch(epoch: u64, last: Option<(u64, ElectionView)>) -> int {
    match last {
        Some((le, _)) => if le + 1 > epoch + 1 {
            le + 1
        } else {
            epoch + 1
        },
        None => epoch + 1,
    }
}

/// An election map holding only `epoch`, for which this manager stands.
pub open spec fn only_my_election(e: Elections, epoch: u64, ts: u64) -> bool {
    &&& e@ == map![epoch => ElectionView::Mine { ts, approvers: Set::<NodeId>::empty() }]
    &&& e.pairs().len() == 1
}

/// Takes the position of the last election and the election itself as a view.
proof fn lemma_last_election(e: Elections)
    requires
        e.wf(),
        e.pairs().len() > 0,
    ensures
        e@.dom().contains(e.pairs().last().0),
        e@[e.pairs().last().0] == e.pairs().last().1@,
{
    lemma_pair_in_map(e.pairs(), e.pairs().len() - 1);
}

/// A map with a single election.
fn single_election(epoch: u64, election: Election) -> (e: Elections)
    requires
        election.wf(),
    ensures
        elections_wf(e),
        e@ == map![epoch => election@],
        e.pairs().len() == 1,
{
    let mut e: Elections = SortedMap::new();
    e.push_greatest(epoch, election);
    e
}

/// Starts an election for the next epoch when no leader is known, another
/// manager exists and the last election has waited `wait` milliseconds by
/// `curr_ts`: asks every other manager for its vote.
pub fn start_election_at(
    state: &mut State,
    elections: &mut Elections,
    me: &Me,
    output: &mut Vec<NodeProtocol>,
    curr_ts: u64,
    wait: u64,
)
    requires
        old(state).wf(),
        elections_wf(*old(elections)),
    ensures
        *final(state) == *old(state),
        elections_wf(*final(elections)),
        election_step(
            *old(state),
            *old(elections),
            old(output)@,
            *final(elections),
            final(output)@,
            me.id,
            curr_ts,
            wait,
        ),
{
    if state.elected_leader_id.is_none() && state.nodes.len() > 1 {
        if let Some(epoch) = state.epoch {
            let last = elections.last_index();
            let start_new = match last {
                Some(i) => {
                    let ts = elections.value_at(i).ts();
                    match ts.checked_add(wait) {
                        Some(t) => t < curr_ts,
                        None => false,
                    }
                },
                None => true,
            };
            if start_new {
                let next = match last {
                    Some(i) => {
                        let le = elections.key_at(i);
                        if le < epoch {
                            epoch.checked_add(1)
                        } else {
                            le.checked_add(1)
                        }
                    },
                    None => epoch.checked_add(1),
                };
                if let Some(next_epoch) = next {
                    let election = Election::Mine { ts: curr_ts, approvers: SortedSet::new() };
                    *elections = single_election(next_epoch, election);
                    request_votes(output, &state.nodes, me.id, next_epoch, curr_ts);
                }
            }
        }
    }
}

/// Starts an election when one is due, reading the clock and drawing the
/// randomized wait.  Whatever the clock reads, the outcome is that of
/// `start_election_at` for some time and some wait in the randomized range.
pub fn start_election_if_needed(
    state: &mut State,
    elections: &mut Elections,
    me: &Me,
    output: &mut Vec<NodeProtocol>,
)
    requires
        old(state).wf(),
        elections_wf(*old(elections)),
    ensures
        *final(state) == *old(state),
        elections_wf(*final(elections)),
        exists|curr_ts: u64, wait: u64|
            500 <= wait < 1000 && #[trigger] election_step(
                *old(state),
                *old(elections),
                old(output)@,
                *final(elections),
                final(output)@,
                me.id,
                curr_ts,
                wait,
            ),
{
    let curr_ts = now_millis();
    let wait = get_random_number();
    start_election_at(state, elections, me, output, curr_ts, wait);
}

/// The outcome of `start_election_at` at time `curr_ts` after a wait of `wait`.
pub open spec fn election_step(
    state: State,
    elections: Elections,
    output: Seq<NodeProtocol>,
    final_elections: Elections,
    final_output: Seq<NodeProtocol>,
    me: NodeId,
    curr_ts: u64,
    wait: u64,
) -> bool {
    let last = last_election(elections);
    if state.elected_leader_id is None && state.nodes.pairs().len() > 1 && state.epoch is Some
        && election_due(last, curr_ts, wait) && next_election_epoch(state.epoch->0, last)
        <= u64::MAX {
        let next = next_election_epoch(state.epoch->0, last) as u64;
        &&& only_my_election(final_elections, next, curr_ts)
        &&& message_views(final_output) == message_views(output) + for_each_node(
            state.nodes.pairs(),
            other_manager(me),
            vote_request_message(next, curr_ts),
        )
    } else {
        &&& final_elections == elections
        &&& final_output == output
    }
}

/// The outcome of a leader announcement from `id` for `epoch`, sent at `ts`.
pub open spec fn leader_step(
    state: State,
    elections: Elections,
    output: Seq<NodeProtocol>,
    final_state: State,
    final_elections: Elections,
    final_output: Seq<NodeProtocol>,
    id: NodeId,
    epoch: u64,
    ts: u64,
    me: NodeId,
) -> bool {
    &&& final_state.partitions == state.partitions
    &&& final_state.workers_with_calculated_partitions == state.workers_with_calculated_partitions
    &&& if epoch_ahead(state.epoch, epoch) {
        &&& final_elections@ == Map::<u64, ElectionView>::empty()
        &&& if state.nodes@.dom().contains(id) && state.nodes@[id].node_type
            == NodeType::Manager {
            &&& final_state.nodes@ == state.nodes@.insert(
                id,
                crate::common::Node { last_heartbeat: ts, ..state.nodes@[id] },
            )
            &&& final_state.elected_leader_id == Some(id)
            &&& final_state.epoch == Some(epoch)
            &&& final_output == output
        } else {
            &&& final_state.nodes == state.nodes
            &&& final_state.elected_leader_id == state.elected_leader_id
            &&& final_state.epoch == state.epoch
            &&& message_views(final_output) == message_views(output) + for_each_node(
                state.nodes.pairs(),
                other_manager(me),
                get_state_message(),
            )
        }
    } else {
        &&& final_state == state
        &&& final_elections == elections
        &&& final_output == output
    }
}

/// Accepts a leader announcement for an epoch ahead of the known one: a known
/// manager becomes the leader; an unknown leader makes this manager ask the
/// other managers for the cluster state.  Pending elections end either way.
pub fn handle_leader(
    output: &mut Vec<NodeProtocol>,
    state: &mut State,
    id: NodeId,
    epoch: u64,
    ts: u64,
    me: &Me,
    elections: &mut Elections,
)
    requires
        old(state).wf(),
        elections_wf(*old(elections)),
    ensures
        final(state).wf(),
        elections_wf(*final(elections)),
        leader_step(
            *old(state),
            *old(elections),
            old(output)@,
            *final(state),
            *final(elections),
            final(output)@,
            id,
            epoch,
            ts,
            me.id,
        ),
{
    let ahead = match state.epoch {
        None => true,
        Some(e) => e < epoch,
    };
    if ahead {
        elections.clear();
        match state.nodes.find(&id) {
            Some(i) => {
                proof {
                    lemma_pair_in_map(state.nodes.pairs(), i as int);
                }
                if state.nodes.value_at(i).is_manager() {
                    let mut node = state.nodes.value_at(i).clone();
                    node.last_heartbeat = ts;
                    state.nodes.replace_at(i, node);
                    state.elected_leader_id = Some(id);
                    state.epoch = Some(epoch);
                } else {
                    request_cluster_state(output, &state.nodes, me.id);
                }
            },
            None => {
                request_cluster_state(output, &state.nodes, me.id);
            },
        }
    }
}

/// The outcome of a vote request from `id` for `epoch`, started at `ts`.
pub open spec fn vote_request_step(
    state: State,
    elections: Elections,
    output: Seq<NodeProtocol>,
    final_state: State,
    final_elections: Elections,
    final_output: Seq<NodeProtocol>,
    id: NodeId,
    epoch: u64,
    ts: u64,
) -> bool {
    &&& final_state == state
    &&& ({
        let last = last_election(elections);
        if epoch_ahead(state.epoch, epoch) {
            let add_new = match last {
                Some((le, el)) => epoch > le || ts < el.ts(),
                None => true,
            };
            if add_new {
                &&& final_elections@ == map![epoch => ElectionView::Other { ts, candidate_id: id }]
                &&& message_views(final_output) == message_views(output).push(
                    NodeMessage::VoteResponse { id, leader_id: id, ts },
                )
            } else {
                &&& final_elections == elections
                &&& if elections@.dom().contains(epoch) && elections@[epoch] is Other {
                    message_views(final_output) == message_views(output).push(
                        NodeMessage::VoteResponse {
                            id,
                            leader_id: elections@[epoch]->candidate_id,
                            ts: elections@[epoch]->Other_ts,
                        },
                    )
                } else {
                    final_output == output
                }
            }
        } else {
            &&& final_elections == elections
            &&& final_output == output
        }
    })
}

/// Answers a vote request for an epoch ahead of the known one.  A request for
/// a later epoch, or one started earlier than the last election, replaces
/// the elections and gets the vote; otherwise the vote already given for that
/// epoch is repeated.
pub fn handle_vote_request(
    output: &mut Vec<NodeProtocol>,
    state: &mut State,
    id: NodeId,
    epoch: u64,
    ts: u64,
    elections: &mut Elections,
)
    requires
        old(state).wf(),
        elections_wf(*old(elections)),
    ensures
        elections_wf(*final(elections)),
        vote_request_step(
            *old(state),
            *old(elections),
            old(output)@,
            *final(state),
            *final(elections),
            final(output)@,
            id,
            epoch,
            ts,
        ),
{
    let ahead = match state.epoch {
        None => true,
        Some(e) => e < epoch,
    };
    if ahead {
        let add_new = match elections.last_index() {
            Some(i) => epoch > elections.key_at(i) || ts < elections.value_at(i).ts(),
            None => true,
        };
        if add_new {
            let election = Election::Other { ts, candidate_id: id };
            *elections = single_election(epoch, election);
            let m = NodeProtocol::VoteResponse { id, leader_id: id, ts };
            proof {
                lemma_message_views_push(output@, m);
            }
            output.push(m);
        } else {
            match elections.get(&epoch) {
                Some(Election::Other { ts, candidate_id }) => {
                    let m = NodeProtocol::VoteResponse { id, leader_id: *candidate_id, ts: *ts };
                    proof {
                        lemma_message_views_push(output@, m);
                    }
                    output.push(m);
                },
                _ => {},
            }
        }
    }
}

/// A vote request for an epoch ahead of the known one and past every pending
/// election is taken whatever the start times: it becomes the only election,
/// the requester gets this manager's vote, and the state is left alone.
pub proof fn lemma_vote_for_new_epoch_taken(
    state: State,
    elections: Elections,
    output: Seq<NodeProtocol>,
    final_state: State,
    final_elections: Elections,
    final_output: Seq<NodeProtocol>,
    id: NodeId,
    epoch: u64,
    ts: u64,
)
    requires
        elections_wf(elections),
        vote_request_step(
            state,
            elections,
            output,
            final_state,
            final_elections,
            final_output,
            id,
            epoch,
            ts,
        ),
        epoch_ahead(state.epoch, epoch),
        forall|k: u64| elections@.dom().contains(k) ==> k < epoch,
    ensures
        final_state == state,
        final_elections@ == map![epoch => ElectionView::Other { ts, candidate_id: id }],
        message_views(final_output) == message_views(output).push(
            NodeMessage::VoteResponse { id, leader_id: id, ts },
        ),
{
    if elections.pairs().len() > 0 {
        lemma_last_election(elections);
    }
}

/// The epoch and approvers of this manager's latest election, where a vote
/// carrying its start time `ts` and naming `leader_id == me` counts for it.
pub open spec fn approved_election(e: Elections, ts: u64, leader_id: NodeId, me: NodeId) -> Option<
    (u64, Set<NodeId>),
> {
    match last_election(e) {
        Some((epoch, ElectionView::Mine { ts: ets, approvers })) => if ets == ts && leader_id == me {
            Some((epoch, approvers))
        } else {
            None
        },
        _ => None,
    }
}

/// Whether every manager other than `me` is among `approvers`.
fn all_managers_approve(
    nodes: &SortedMap<NodeId, crate::common::Node>,
    me: NodeId,
    approvers: &SortedSet<NodeId>,
) -> (b: bool)
    requires
        nodes.wf(),
        approvers.wf(),
    ensures
        b == (forall|k: NodeId|
            nodes@.dom().contains(k) && k != me && nodes@[k].node_type == NodeType::Manager
                ==> #[trigger] approvers@.contains(k)),
{
    let mut i: usize = 0;
    while i < nodes.len()
        invariant
            nodes.wf(),
            approvers.wf(),
            i <= nodes.pairs().len(),
            forall|j: int|
                0 <= j < i ==> (#[trigger] nodes.pairs()[j]).0 != me && nodes.pairs()[j].1.node_type
                    == NodeType::Manager ==> approvers@.contains(nodes.pairs()[j].0),
        decreases nodes.pairs().len() - i,
    {
        let k = nodes.key_at(i);
        if k != me && nodes.value_at(i).is_manager() && !approvers.contains(&k) {
            proof {
                lemma_pair_in_map(nodes.pairs(), i as int);
            }
            return false;
        }
        i += 1;
    }
    assert forall|k: NodeId|
        nodes@.dom().contains(k) && k != me && nodes@[k].node_type == NodeType::Manager implies #[trigger] approvers@.contains(k) by {
        let j = choose|j: int| 0 <= j < nodes.pairs().len() && (#[trigger] nodes.pairs()[j]).0 == k;
        lemma_pair_in_map(nodes.pairs(), j);
    }
    true
}

/// The outcome of a vote from `id` for `leader_id` in the election started at `ts`.
pub open spec fn vote_response_step(
    state: State,
    elections: Elections,
    output: Seq<NodeProtocol>,
    final_state: State,
    final_elections: Elections,
    final_output: Seq<NodeProtocol>,
    id: NodeId,
    leader_id: NodeId,
    ts: u64,
    me: NodeId,
) -> bool {
    &&& final_state.nodes == state.nodes
    &&& final_state.partitions == state.partitions
    &&& final_state.workers_with_calculated_partitions == state.workers_with_calculated_partitions
    &&& match approved_election(elections, ts, leader_id, me) {
        Some((e, approvers)) => {
            let new_approvers = approvers.insert(id);
            if new_approvers.len() == count_nodes(state.nodes.pairs(), other_manager(me))
                && (forall|k: NodeId|
                state.nodes@.dom().contains(k) && k != me && state.nodes@[k].node_type
                    == NodeType::Manager ==> #[trigger] new_approvers.contains(k)) {
                &&& final_state.elected_leader_id == Some(me)
                &&& final_state.epoch == Some(e)
                &&& final_elections@ == Map::<u64, ElectionView>::empty()
                &&& message_views(final_output) == message_views(output) + for_each_node(
                    state.nodes.pairs(),
                    other_node(me),
                    leader_message(e, ts),
                )
            } else {
                &&& final_state.elected_leader_id == state.elected_leader_id
                &&& final_state.epoch == state.epoch
                &&& final_elections@ =~= elections@.insert(
                    e,
                    ElectionView::Mine { ts, approvers: new_approvers },
                )
                &&& final_output == output
            }
        },
        None => {
            &&& final_state == state
            &&& final_elections == elections
            &&& if !state.nodes@.dom().contains(leader_id) {
                message_views(final_output) == message_views(output) + for_each_node(
                    state.nodes.pairs(),
                    other_manager(me),
                    get_state_message(),
                )
            } else {
                final_output == output
            }
        },
    }
}

/// Counts a vote for this manager in its own latest election.  Once every
/// other manager approved, this manager leads the election's epoch and says
/// so to every other member.  A vote for an unknown leader makes this
/// manager ask the other managers for the cluster state.
pub fn handle_vote_response(
    output: &mut Vec<NodeProtocol>,
    state: &mut State,
    id: NodeId,
    leader_id: NodeId,
    ts: u64,
    me: &Me,
    elections: &mut Elections,
)
    requires
        old(state).wf(),
        elections_wf(*old(elections)),
    ensures
        final(state).wf(),
        elections_wf(*final(elections)),
        vote_response_step(
            *old(state),
            *old(elections),
            old(output)@,
            *final(state),
            *final(elections),
            final(output)@,
            id,
            leader_id,
            ts,
            me.id,
        ),
{
    let mut approving: Option<usize> = None;
    if let Some(i) = elections.last_index() {
        if let Election::Mine { ts: election_ts, .. } = elections.value_at(i) {
            if *election_ts == ts && leader_id == me.id {
                approving = Some(i);
            }
        }
    }
    match approving {
        Some(i) => {
            let e = elections.key_at(i);
            proof {
                lemma_last_election(*elections);
            }
            let placeholder = Election::Other { ts: 0, candidate_id: me.id };
            let taken = elections.replace_at(i, placeholder);
            match taken {
                Election::Mine { ts: election_ts, approvers } => {
                    let mut approvers = approvers;
                    approvers.insert(id);
                    let manager_count = count_other_managers(&state.nodes, me.id);
                    proof {
                        lemma_set_len(approvers);
                    }
                    if approvers.len() == manager_count && all_managers_approve(
                        &state.nodes,
                        me.id,
                        &approvers,
                    ) {
                        state.elected_leader_id = Some(me.id);
                        state.epoch = Some(e);
                        announce_leader(output, &state.nodes, me.id, e, ts);
                        elections.clear();
                    } else {
                        let election = Election::Mine { ts: election_ts, approvers };
                        elections.replace_at(i, election);
                        proof {
                            assert forall|j: int|
                                0 <= j < elections.pairs().len() implies (
                            #[trigger] elections.pairs()[j]).1.wf() by {
                            }
                        }
                    }
                },
                Election::Other { .. } => {
                },
            }
        },
        None => {
            if !state.nodes.contains_key(&leader_id) {
                request_cluster_state(output, &state.nodes, me.id);
            }
        },
    }
}

} // verus!
