//! The manager's view of the cluster, and the fan-out of messages to its
//! members.
use crate::collections::{SortedMap, SortedSet};
use crate::common::{
    count_nodes, for_each_node, other_manager, other_node, ClusterState, Heartbeat, Node, NodeId,
    NodeType, PartitionId, PartitionView, Partitions,
};
use crate::manager::domain::{lemma_message_views_push, message_views, NodeMessage, NodeProtocol};
use vstd::prelude::*;

verus! {

/// What the manager knows of the cluster.
#[derive(Debug)]
pub struct State {
    pub epoch: Option<u64>,
    pub elected_leader_id: Option<NodeId>,
    pub nodes: SortedMap<NodeId, Node>,
    pub partitions: Partitions,
    pub workers_with_calculated_partitions: SortedSet<NodeId>,
}

impl State {
    /// The members, the partition table and the placed workers are well formed.
    pub open spec fn wf(&self) -> bool {
        &&& self.nodes.wf()
        &&& self.partitions.wf()
        &&& self.workers_with_calculated_partitions.wf()
    }

    /// While `me` leads, the epoch it leads in is known.
    pub open spec fn epoch_known_if_leading(&self, me: NodeId) -> bool {
        self.elected_leader_id == Some(me) ==> self.epoch is Some
    }

    /// A state in the given epoch with no leader and no partitions.
    pub fn with_epoch(nodes: SortedMap<NodeId, Node>, epoch: u64) -> (s: Self)
        requires
            nodes.wf(),
        ensures
            s.wf(),
            s.epoch == Some(epoch),
            s.elected_leader_id is None,
            s.nodes == nodes,
            s.partitions@.mapping == Map::<PartitionId, PartitionView>::empty(),
            s.partitions@.old_replicas == Map::<PartitionId, Set<NodeId>>::empty(),
            s.partitions@.new_replicas == Map::<PartitionId, Set<NodeId>>::empty(),
            s.workers_with_calculated_partitions@ == Set::<NodeId>::empty(),
    {
        Self::new(nodes, Some(epoch))
    }

    /// A state that has not learned its epoch yet.
    pub fn without_epoch(nodes: SortedMap<NodeId, Node>) -> (s: Self)
        requires
            nodes.wf(),
        ensures
            s.wf(),
            s.epoch is None,
            s.elected_leader_id is None,
            s.nodes == nodes,
            s.partitions@.mapping == Map::<PartitionId, PartitionView>::empty(),
            s.partitions@.old_replicas == Map::<PartitionId, Set<NodeId>>::empty(),
            s.partitions@.new_replicas == Map::<PartitionId, Set<NodeId>>::empty(),
            s.workers_with_calculated_partitions@ == Set::<NodeId>::empty(),
    {
        Self::new(nodes, None)
    }

    /// A state with the given members and epoch, no leader and no partitions.
    pub fn new(nodes: SortedMap<NodeId, Node>, epoch: Option<u64>) -> (s: Self)
        requires
            nodes.wf(),
        ensures
            s.wf(),
            s.epoch == epoch,
            s.elected_leader_id is None,
            s.nodes == nodes,
            s.partitions@.mapping == Map::<PartitionId, PartitionView>::empty(),
            s.partitions@.old_replicas == Map::<PartitionId, Set<NodeId>>::empty(),
            s.partitions@.new_replicas == Map::<PartitionId, Set<NodeId>>::empty(),
            s.workers_with_calculated_partitions@ == Set::<NodeId>::empty(),
    {
        State {
            epoch,
            elected_leader_id: None,
            nodes,
            partitions: Partitions::new(),
            workers_with_calculated_partitions: SortedSet::new(),
        }
    }
}

/// One step of `for_each_node` over a growing prefix.
pub proof fn lemma_for_each_node_step<M>(
    pairs: Seq<(NodeId, Node)>,
    i: int,
    keep: spec_fn(NodeId, Node) -> bool,
    make: spec_fn(NodeId) -> M,
)
    requires
        0 <= i < pairs.len(),
    ensures
        for_each_node(pairs.take(i + 1), keep, make) == if keep(pairs[i].0, pairs[i].1) {
            for_each_node(pairs.take(i), keep, make).push(make(pairs[i].0))
        } else {
            for_each_node(pairs.take(i), keep, make)
        },
{
    assert(pairs.take(i + 1).drop_last() =~= pairs.take(i));
}

/// One step of `count_nodes` over a growing prefix.
pub proof fn lemma_count_nodes_step(
    pairs: Seq<(NodeId, Node)>,
    i: int,
    keep: spec_fn(NodeId, Node) -> bool,
)
    requires
        0 <= i < pairs.len(),
    ensures
        count_nodes(pairs.take(i + 1), keep) == if keep(pairs[i].0, pairs[i].1) {
            count_nodes(pairs.take(i), keep) + 1
        } else {
            count_nodes(pairs.take(i), keep)
        },
{
    assert(pairs.take(i + 1).drop_last() =~= pairs.take(i));
}

/// Concatenation absorbs a push on its right operand.
pub proof fn lemma_add_push<M>(a: Seq<M>, b: Seq<M>, x: M)
    ensures
        (a + b).push(x) == a + b.push(x),
{
}

/// The request for the cluster state addressed to `k`.
pub open spec fn get_state_message() -> spec_fn(NodeId) -> NodeMessage {
    |k: NodeId| NodeMessage::GetClusterState { id: k }
}

/// Asks every manager other than `me` for the cluster state.
pub fn request_cluster_state(
    output: &mut Vec<NodeProtocol>,
    nodes: &SortedMap<NodeId, Node>,
    me: NodeId,
)
    requires
        nodes.wf(),
    ensures
        message_views(final(output)@) == message_views(old(output)@) + for_each_node(
            nodes.pairs(),
            other_manager(me),
            get_state_message(),
        ),
{
    let ghost start = message_views(output@);
    let mut i: usize = 0;
    assert(message_views(output@) =~= start + for_each_node(
        nodes.pairs().take(0),
        other_manager(me),
        get_state_message(),
    ));
    while i < nodes.len()
        invariant
            nodes.wf(),
            i <= nodes.pairs().len(),
            message_views(output@) == start + for_each_node(
                nodes.pairs().take(i as int),
                other_manager(me),
                get_state_message(),
            ),
        decreases nodes.pairs().len() - i,
    {
        let k = nodes.key_at(i);
        let n = nodes.value_at(i);
        proof {
            lemma_for_each_node_step(nodes.pairs(), i as int, other_manager(me), get_state_message());
        }
        if k != me && n.is_manager() {
            let m = NodeProtocol::GetClusterState { id: k };
            proof {
                lemma_message_views_push(output@, m);
                lemma_add_push(
                    start,
                    for_each_node(nodes.pairs().take(i as int), other_manager(me), get_state_message()),
                    m@,
                );
            }
            output.push(m);
        }
        i += 1;
    }
    assert(nodes.pairs().take(nodes.pairs().len() as int) =~= nodes.pairs());
}

/// The managers other than `skip` and `me`.
pub open spec fn heartbeat_recipients(skip: NodeId, me: NodeId) -> spec_fn(NodeId, Node) -> bool {
    |k: NodeId, n: Node| k != skip && k != me && n.node_type == NodeType::Manager
}

/// The heartbeat `hb` addressed to `k`.
pub open spec fn heartbeat_message(hb: Heartbeat) -> spec_fn(NodeId) -> NodeMessage {
    |k: NodeId| NodeMessage::Heartbeat { recipient_id: k, heartbeat: hb }
}

/// Passes heartbeat `hb` to every manager other than `skip` and `me`.
pub fn send_heartbeat(
    output: &mut Vec<NodeProtocol>,
    nodes: &SortedMap<NodeId, Node>,
    skip: NodeId,
    me: NodeId,
    hb: Heartbeat,
)
    requires
        nodes.wf(),
    ensures
        message_views(final(output)@) == message_views(old(output)@) + for_each_node(
            nodes.pairs(),
            heartbeat_recipients(skip, me),
            heartbeat_message(hb),
        ),
{
    let ghost start = message_views(output@);
    let mut i: usize = 0;
    assert(message_views(output@) =~= start + for_each_node(
        nodes.pairs().take(0),
        heartbeat_recipients(skip, me),
        heartbeat_message(hb),
    ));
    while i < nodes.len()
        invariant
            nodes.wf(),
            i <= nodes.pairs().len(),
            message_views(output@) == start + for_each_node(
                nodes.pairs().take(i as int),
                heartbeat_recipients(skip, me),
                heartbeat_message(hb),
            ),
        decreases nodes.pairs().len() - i,
    {
        let k = nodes.key_at(i);
        let n = nodes.value_at(i);
        proof {
            lemma_for_each_node_step(
                nodes.pairs(),
                i as int,
                heartbeat_recipients(skip, me),
                heartbeat_message(hb),
            );
        }
        if k != skip && k != me && n.is_manager() {
            let m = NodeProtocol::Heartbeat { recipient_id: k, heartbeat: hb };
            proof {
                lemma_message_views_push(output@, m);
                lemma_add_push(
                    start,
                    for_each_node(
                        nodes.pairs().take(i as int),
                        heartbeat_recipients(skip, me),
                        heartbeat_message(hb),
                    ),
                    m@,
                );
            }
            output.push(m);
        }
        i += 1;
    }
    assert(nodes.pairs().take(nodes.pairs().len() as int) =~= nodes.pairs());
}

/// The announcement that the sender leads `epoch`, addressed to `k`.
pub open spec fn leader_message(epoch: u64, ts: u64) -> spec_fn(NodeId) -> NodeMessage {
    |k: NodeId| NodeMessage::Leader { id: k, epoch, ts }
}

/// Tells every member other than `me` that `me` leads `epoch`.
pub fn announce_leader(
    output: &mut Vec<NodeProtocol>,
    nodes: &SortedMap<NodeId, Node>,
    me: NodeId,
    epoch: u64,
    ts: u64,
)
    requires
        nodes.wf(),
    ensures
        message_views(final(output)@) == message_views(old(output)@) + for_each_node(
            nodes.pairs(),
            other_node(me),
            leader_message(epoch, ts),
        ),
{
    let ghost start = message_views(output@);
    let mut i: usize = 0;
    assert(message_views(output@) =~= start + for_each_node(
        nodes.pairs().take(0),
        other_node(me),
        leader_message(epoch, ts),
    ));
    while i < nodes.len()
        invariant
            nodes.wf(),
            i <= nodes.pairs().len(),
            message_views(output@) == start + for_each_node(
                nodes.pairs().take(i as int),
                other_node(me),
                leader_message(epoch, ts),
            ),
        decreases nodes.pairs().len() - i,
    {
        let k = nodes.key_at(i);
        proof {
            lemma_for_each_node_step(nodes.pairs(), i as int, other_node(me), leader_message(epoch, ts));
        }
        if k != me {
            let m = NodeProtocol::Leader { id: k, epoch, ts };
            proof {
                lemma_message_views_push(output@, m);
                lemma_add_push(
                    start,
                    for_each_node(nodes.pairs().take(i as int), other_node(me), leader_message(epoch, ts)),
                    m@,
                );
            }
            output.push(m);
        }
        i += 1;
    }
    assert(nodes.pairs().take(nodes.pairs().len() as int) =~= nodes.pairs());
}

/// The request for a vote in `epoch`, addressed to `k`.
pub open spec fn vote_request_message(epoch: u64, ts: u64) -> spec_fn(NodeId) -> NodeMessage {
    |k: NodeId| NodeMessage::VoteRequest { id: k, epoch, ts }
}

/// Asks every manager other than `me` for a vote in `epoch`.
pub fn request_votes(
    output: &mut Vec<NodeProtocol>,
    nodes: &SortedMap<NodeId, Node>,
    me: NodeId,
    epoch: u64,
    ts: u64,
)
    requires
        nodes.wf(),
    ensures
        message_views(final(output)@) == message_views(old(output)@) + for_each_node(
            nodes.pairs(),
            other_manager(me),
            vote_request_message(epoch, ts),
        ),
{
    let ghost start = message_views(output@);
    let mut i: usize = 0;
    assert(message_views(output@) =~= start + for_each_node(
        nodes.pairs().take(0),
        other_manager(me),
        vote_request_message(epoch, ts),
    ));
    while i < nodes.len()
        invariant
            nodes.wf(),
            i <= nodes.pairs().len(),
            message_views(output@) == start + for_each_node(
                nodes.pairs().take(i as int),
                other_manager(me),
                vote_request_message(epoch, ts),
            ),
        decreases nodes.pairs().len() - i,
    {
        let k = nodes.key_at(i);
        let n = nodes.value_at(i);
        proof {
            lemma_for_each_node_step(
                nodes.pairs(),
                i as int,
                other_manager(me),
                vote_request_message(epoch, ts),
            );
        }
        if k != me && n.is_manager() {
            let m = NodeProtocol::VoteRequest { id: k, epoch, ts };
            proof {
                lemma_message_views_push(output@, m);
                lemma_add_push(
                    start,
                    for_each_node(
                        nodes.pairs().take(i as int),
                        other_manager(me),
                        vote_request_message(epoch, ts),
                    ),
                    m@,
                );
            }
            output.push(m);
        }
        i += 1;
    }
    assert(nodes.pairs().take(nodes.pairs().len() as int) =~= nodes.pairs());
}

/// The members other than `replica`, `sender` and `me`.
pub open spec fn removal_recipients(replica: NodeId, sender: NodeId, me: NodeId) -> spec_fn(
    NodeId,
    Node,
) -> bool {
    |k: NodeId, n: Node| k != replica && k != sender && k != me
}

/// The news that `replica` gave up `partition_id`, addressed to `k`.
pub open spec fn removal_message(replica: NodeId, partition_id: u16) -> spec_fn(
    NodeId,
) -> NodeMessage {
    |k: NodeId| NodeMessage::RemoveOldPartition { id: k, replica_id: replica, partition_id }
}

/// Tells every member other than `replica`, `sender` and `me` that
/// `replica` gave up `partition_id`.
pub fn announce_removal(
    output: &mut Vec<NodeProtocol>,
    nodes: &SortedMap<NodeId, Node>,
    replica: NodeId,
    sender: NodeId,
    me: NodeId,
    partition_id: u16,
)
    requires
        nodes.wf(),
    ensures
        message_views(final(output)@) == message_views(old(output)@) + for_each_node(
            nodes.pairs(),
            removal_recipients(replica, sender, me),
            removal_message(replica, partition_id),
        ),
{
    let ghost start = message_views(output@);
    let mut i: usize = 0;
    assert(message_views(output@) =~= start + for_each_node(
        nodes.pairs().take(0),
        removal_recipients(replica, sender, me),
        removal_message(replica, partition_id),
    ));
    while i < nodes.len()
        invariant
            nodes.wf(),
            i <= nodes.pairs().len(),
            message_views(output@) == start + for_each_node(
                nodes.pairs().take(i as int),
                removal_recipients(replica, sender, me),
                removal_message(replica, partition_id),
            ),
        decreases nodes.pairs().len() - i,
    {
        let k = nodes.key_at(i);
        proof {
            lemma_for_each_node_step(
                nodes.pairs(),
                i as int,
                removal_recipients(replica, sender, me),
                removal_message(replica, partition_id),
            );
        }
        if k != replica && k != sender && k != me {
            let m = NodeProtocol::RemoveOldPartition { id: k, replica_id: replica, partition_id };
            proof {
                lemma_message_views_push(output@, m);
                lemma_add_push(
                    start,
                    for_each_node(
                        nodes.pairs().take(i as int),
                        removal_recipients(replica, sender, me),
                        removal_message(replica, partition_id),
                    ),
                    m@,
                );
            }
            output.push(m);
        }
        i += 1;
    }
    assert(nodes.pairs().take(nodes.pairs().len() as int) =~= nodes.pairs());
}

/// A copy of cluster snapshot `snapshot`, addressed to `k`.
pub open spec fn cluster_state_message(snapshot: crate::common::ClusterStateView) -> spec_fn(
    NodeId,
) -> NodeMessage {
    |k: NodeId| NodeMessage::ClusterState { recipient_id: k, state: snapshot }
}

/// Sends a copy of `snapshot` to every member other than `me`.
pub fn send_cluster_state(
    output: &mut Vec<NodeProtocol>,
    nodes: &SortedMap<NodeId, Node>,
    me: NodeId,
    snapshot: &ClusterState,
)
    requires
        nodes.wf(),
        snapshot.wf(),
    ensures
        message_views(final(output)@) == message_views(old(output)@) + for_each_node(
            nodes.pairs(),
            other_node(me),
            cluster_state_message(snapshot@),
        ),
{
    let ghost start = message_views(output@);
    let mut i: usize = 0;
    assert(message_views(output@) =~= start + for_each_node(
        nodes.pairs().take(0),
        other_node(me),
        cluster_state_message(snapshot@),
    ));
    while i < nodes.len()
        invariant
            nodes.wf(),
            snapshot.wf(),
            i <= nodes.pairs().len(),
            message_views(output@) == start + for_each_node(
                nodes.pairs().take(i as int),
                other_node(me),
                cluster_state_message(snapshot@),
            ),
        decreases nodes.pairs().len() - i,
    {
        let k = nodes.key_at(i);
        proof {
            lemma_for_each_node_step(
                nodes.pairs(),
                i as int,
                other_node(me),
                cluster_state_message(snapshot@),
            );
        }
        if k != me {
            let m = NodeProtocol::ClusterState { recipient_id: k, state: snapshot.copy() };
            proof {
                lemma_message_views_push(output@, m);
                lemma_add_push(
                    start,
                    for_each_node(
                        nodes.pairs().take(i as int),
                        other_node(me),
                        cluster_state_message(snapshot@),
                    ),
                    m@,
                );
            }
            output.push(m);
        }
        i += 1;
    }
    assert(nodes.pairs().take(nodes.pairs().len() as int) =~= nodes.pairs());
}

/// Counts the managers other than `me`.
pub fn count_other_managers(nodes: &SortedMap<NodeId, Node>, me: NodeId) -> (n: usize)
    requires
        nodes.wf(),
    ensures
        n == count_nodes(nodes.pairs(), other_manager(me)),
{
    let mut n: usize = 0;
    let mut i: usize = 0;
    while i < nodes.len()
        invariant
            nodes.wf(),
            i <= nodes.pairs().len(),
            n == count_nodes(nodes.pairs().take(i as int), other_manager(me)),
            n <= i,
        decreases nodes.pairs().len() - i,
    {
        let k = nodes.key_at(i);
        let node = nodes.value_at(i);
        proof {
            lemma_count_nodes_step(nodes.pairs(), i as int, other_manager(me));
        }
        if k != me && node.is_manager() {
            n += 1;
        }
        i += 1;
    }
    assert(nodes.pairs().take(nodes.pairs().len() as int) =~= nodes.pairs());
    n
}

} // verus!
