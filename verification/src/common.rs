//! Types shared by the manager and the worker: node identities, cluster
//! membership records, partition placement and the node configuration.
use crate::cli::{Cli, Command};
use crate::collections::{lemma_same_pairs_same_map, Keyed, SortedMap, SortedSet};
use vstd::prelude::*;

pub use crate::worker::runtime_store::{Key, PartitionId};

verus! {

/// Number of partitions the key space is split into.
pub const PARTITIONS_AMOUNT: usize = 4096;

/// The lower-case hexadecimal digit for `n`, which is below 16.
pub open spec fn hex_digit(n: u128) -> char {
    if n < 10 {
        ('0' as u128 + n) as char
    } else {
        ('a' as u128 + n - 10) as char
    }
}

/// The `k`-th hexadecimal digit of a 128-bit value, counted from the most
/// significant one.
pub open spec fn nibble(value: u128, k: int) -> u128 {
    (value >> ((4 * (31 - k)) as u128)) & 0xfu128
}

/// The canonical text of a UUID, as `uuid::Uuid` prints it: its 32
/// lower-case hexadecimal digits, most significant first, in groups of 8, 4,
/// 4, 4 and 12 joined by hyphens.
pub open spec fn uuid_text(value: u128) -> Seq<char> {
    Seq::new(
        36,
        |i: int|
            if i == 8 || i == 13 || i == 18 || i == 23 {
                '-'
            } else {
                let k = if i < 8 {
                    i
                } else if i < 13 {
                    i - 1
                } else if i < 18 {
                    i - 2
                } else if i < 23 {
                    i - 3
                } else {
                    i - 4
                };
                hex_digit(nibble(value, k))
            },
    )
}

/// The value that `uuid::Uuid::parse_str` reads from a text, if it accepts it.
pub uninterp spec fn uuid_parse(text: Seq<char>) -> Option<u128>;

/// Calls `uuid::Uuid::from_u128(value).to_string()`.  Trusted to return the
/// hyphenated lower-case text of the value, which `Uuid::parse_str` reads
/// back as the same value.
#[verifier::external_body]
fn format_uuid(value: u128) -> (text: String)
    ensures
        text@ == uuid_text(value),
        uuid_parse(text@) == Some(value),
{
    uuid::Uuid::from_u128(value).to_string()
}

/// Calls `uuid::Uuid::parse_str` and takes the 128-bit value of what it
/// read.  Trusted to return the named parse result of the text.
#[verifier::external_body]
fn parse_uuid(text: &str) -> (value: Option<u128>)
    ensures
        value == uuid_parse(text@),
{
    match uuid::Uuid::parse_str(text) {
        Ok(id) => Some(id.as_u128()),
        Err(_) => None,
    }
}

/// Whether a 128-bit value is a version 7 UUID of the RFC 9562 variant: its
/// version field (bits 76 to 79) holds 7 and its variant field (bits 62 and
/// 63) holds `0b10`.
pub open spec fn is_v7_uuid(value: u128) -> bool {
    &&& (value >> 76u128) & 0xfu128 == 7u128
    &&& (value >> 62u128) & 0x3u128 == 2u128
}

/// Calls `uuid::Uuid::new_v7` on the Unix time `secs` seconds and `nanos`
/// nanoseconds, with no counter context, and takes the 128-bit value.
/// Trusted to be a version 7 UUID of the RFC 9562 variant, as `new_v7`
/// documents and as its encoding sets those fields; the other bits come from
/// the time and a random source and are left unsaid.
#[verifier::external_body]
fn fresh_uuid(secs: u64, nanos: u32) -> (value: u128)
    ensures
        is_v7_uuid(value),
{
    uuid::Uuid::new_v7(uuid::Timestamp::from_unix(uuid::NoContext, secs, nanos)).as_u128()
}

/// Reads `SystemTime::UNIX_EPOCH.elapsed()` as whole seconds and the
/// nanoseconds past them, or `None` where the clock reads before the epoch
/// and `elapsed` returns its error.  Nothing is claimed of the reading but
/// that the nanoseconds are below one second, as `Duration::subsec_nanos`
/// documents.
#[verifier::external_body]
fn clock_since_epoch() -> (reading: Option<(u64, u32)>)
    ensures
        reading matches Some((_, nanos)) ==> nanos < 1_000_000_000,
{
    match std::time::UNIX_EPOCH.elapsed() {
        Ok(elapsed) => Some((elapsed.as_secs(), elapsed.subsec_nanos())),
        Err(_) => None,
    }
}

/// Identity of a node: a UUID, held as its 128-bit value.
///
/// Ordering by the value is the ordering of the canonical texts, since those
/// are fixed-width lower-case hexadecimal.
#[derive(Clone, Copy, PartialEq, Eq, Structural, Hash, Debug, PartialOrd, Ord)]
pub struct NodeId(u128);

impl NodeId {
    /// The UUID value of the identity.
    pub closed spec fn value(&self) -> u128 {
        self.0
    }

    /// An identity read back from its canonical text is the same identity:
    /// `to_string` promises that the text parses to the identity's value, and
    /// `from_string` returns the identity of the value it parses.
    pub proof fn lemma_text_roundtrip(written: NodeId, text: Seq<char>, read: NodeId)
        requires
            uuid_parse(text) == Some(written.value()),
            Some(read.value()) == uuid_parse(text),
        ensures
            read == written,
    {
    }

    /// A fresh time-ordered identity: a version 7 UUID.
    pub fn new() -> (id: Self)
        ensures
            is_v7_uuid(id.value()),
    {
        let (secs, nanos) = match clock_since_epoch() {
            Some(reading) => reading,
            None => (0, 0),
        };
        NodeId(fresh_uuid(secs, nanos))
    }

    /// The identity written as `id`, or `None` where `id` is no UUID.
    pub fn try_from_string(id: &str) -> (res: Option<Self>)
        ensures
            res is Some <==> uuid_parse(id@) is Some,
            res matches Some(n) ==> Some(n.value()) == uuid_parse(id@),
    {
        match parse_uuid(id) {
            Some(_) => Some(NodeId::from_string(id)),
            None => None,
        }
    }

    /// The identity written as `id`, which must be a UUID.
    pub fn from_string(id: &str) -> (n: Self)
        requires
            uuid_parse(id@) is Some,
        ensures
            Some(n.value()) == uuid_parse(id@),
    {
        match parse_uuid(id) {
            Some(v) => NodeId(v),
            None => NodeId(0),
        }
    }

    /// The canonical text of the identity.
    pub fn to_string(&self) -> (s: String)
        ensures
            s@ == uuid_text(self.value()),
            uuid_parse(s@) == Some(self.value()),
    {
        format_uuid(self.0)
    }
}

impl Keyed for NodeId {
    open spec fn rank(&self) -> int {
        self.value() as int
    }

    proof fn lemma_rank_injective(a: Self, b: Self) {
    }

    fn rank_lt(&self, other: &Self) -> (b: bool) {
        self.0 < other.0
    }

    fn rank_eq(&self, other: &Self) -> (b: bool) {
        self.0 == other.0
    }
}

impl Keyed for PartitionId {
    open spec fn rank(&self) -> int {
        self.0 as int
    }

    proof fn lemma_rank_injective(a: Self, b: Self) {
    }

    fn rank_lt(&self, other: &Self) -> (b: bool) {
        self.0 < other.0
    }

    fn rank_eq(&self, other: &Self) -> (b: bool) {
        self.0 == other.0
    }
}

/// One message per cluster member, in increasing identity order, for the
/// members that `keep` selects.
pub open spec fn for_each_node<M>(
    pairs: Seq<(NodeId, Node)>,
    keep: spec_fn(NodeId, Node) -> bool,
    make: spec_fn(NodeId) -> M,
) -> Seq<M>
    decreases pairs.len(),
{
    if pairs.len() == 0 {
        Seq::empty()
    } else {
        let rest = for_each_node(pairs.drop_last(), keep, make);
        let last = pairs.last();
        if keep(last.0, last.1) {
            rest.push(make(last.0))
        } else {
            rest
        }
    }
}

/// How many cluster members `keep` selects.
pub open spec fn count_nodes(pairs: Seq<(NodeId, Node)>, keep: spec_fn(NodeId, Node) -> bool) -> nat
    decreases pairs.len(),
{
    if pairs.len() == 0 {
        0
    } else {
        let rest = count_nodes(pairs.drop_last(), keep);
        let last = pairs.last();
        if keep(last.0, last.1) {
            rest + 1
        } else {
            rest
        }
    }
}

/// The members that are managers other than `me`.
pub open spec fn other_manager(me: NodeId) -> spec_fn(NodeId, Node) -> bool {
    |k: NodeId, n: Node| k != me && n.node_type == NodeType::Manager
}

/// The members other than `me`.
pub open spec fn other_node(me: NodeId) -> spec_fn(NodeId, Node) -> bool {
    |k: NodeId, n: Node| k != me
}

#[derive(Debug, Clone, Copy, PartialEq, Eq, Structural)]
pub enum NodeType {
    Manager,
    Worker,
}

/// What a node knows of a cluster member.
#[derive(Debug)]
pub struct Node {
    pub host: String,
    pub port: u32,
    pub last_heartbeat: u64,
    pub node_type: NodeType,
}

impl View for Node {
    type V = Node;

    open spec fn view(&self) -> Node {
        *self
    }
}

impl Clone for Node {
    fn clone(&self) -> (n: Self)
        ensures
            n == *self,
    {
        Node {
            host: self.host.clone(),
            port: self.port,
            last_heartbeat: self.last_heartbeat,
            node_type: self.node_type,
        }
    }
}

impl Node {
    /// Whether the member is a manager.
    pub fn is_manager(&self) -> (b: bool)
        ensures
            b == (self.node_type == NodeType::Manager),
    {
        match self.node_type {
            NodeType::Manager => true,
            NodeType::Worker => false,
        }
    }

    /// Whether the member is a worker.
    pub fn is_worker(&self) -> (b: bool)
        ensures
            b == (self.node_type == NodeType::Worker),
    {
        match self.node_type {
            NodeType::Manager => false,
            NodeType::Worker => true,
        }
    }
}

/// The abstract content of a partition's placement.
pub struct PartitionView {
    pub master: NodeId,
    pub replicas: Set<NodeId>,
}

/// Placement of one partition: its master and its secondary replicas.
#[derive(Debug, Clone)]
pub struct Partition {
    pub master: NodeId,
    pub replicas: SortedSet<NodeId>,
}

impl View for Partition {
    type V = PartitionView;

    open spec fn view(&self) -> PartitionView {
        PartitionView { master: self.master, replicas: self.replicas@ }
    }
}

impl Partition {
    pub open spec fn wf(&self) -> bool {
        self.replicas.wf()
    }

    /// A copy with the same placement.
    pub fn copy(&self) -> (p: Self)
        requires
            self.wf(),
        ensures
            p.wf(),
            p@ == self@,
            p.replicas.elems() == self.replicas.elems(),
    {
        Partition { master: self.master, replicas: self.replicas.copy() }
    }
}

/// A map from partitions to sets of nodes.
pub type ReplicaSets = SortedMap<PartitionId, SortedSet<NodeId>>;

/// Whether the map and every set in it are sorted.
fn replica_sets_sorted(m: &ReplicaSets) -> (b: bool)
    ensures
        b == replica_sets_wf(*m),
{
    if !m.is_sorted() {
        return false;
    }
    let mut i: usize = 0;
    while i < m.len()
        invariant
            i <= m.pairs().len(),
            forall|j: int| 0 <= j < i ==> (#[trigger] m.pairs()[j]).1.wf(),
        decreases m.pairs().len() - i,
    {
        if !m.value_at(i).is_sorted() {
            return false;
        }
        i += 1;
    }
    true
}

/// Whether the map is sorted and every placement in it is well formed.
fn mapping_sorted(m: &SortedMap<PartitionId, Partition>) -> (b: bool)
    ensures
        b == mapping_wf(*m),
{
    if !m.is_sorted() {
        return false;
    }
    let mut i: usize = 0;
    while i < m.len()
        invariant
            i <= m.pairs().len(),
            forall|j: int| 0 <= j < i ==> (#[trigger] m.pairs()[j]).1.wf(),
        decreases m.pairs().len() - i,
    {
        if !m.value_at(i).replicas.is_sorted() {
            return false;
        }
        i += 1;
    }
    true
}

/// Every set held in the map is well formed.
pub open spec fn replica_sets_wf(m: ReplicaSets) -> bool {
    &&& m.wf()
    &&& forall|i: int| 0 <= i < m.pairs().len() ==> (#[trigger] m.pairs()[i]).1.wf()
}

/// Every placement held in the map is well formed.
pub open spec fn mapping_wf(m: SortedMap<PartitionId, Partition>) -> bool {
    &&& m.wf()
    &&& forall|i: int| 0 <= i < m.pairs().len() ==> (#[trigger] m.pairs()[i]).1.wf()
}

/// The abstract content of the partition table.
pub struct PartitionsView {
    pub mapping: Map<PartitionId, PartitionView>,
    pub old_replicas: Map<PartitionId, Set<NodeId>>,
    pub new_replicas: Map<PartitionId, Set<NodeId>>,
}

/// The partition table: the current placement of each partition, the nodes
/// that held a partition under an earlier placement and still have to hand it
/// over, and the nodes that joined a partition's placement.
#[derive(Debug, Clone)]
pub struct Partitions {
    pub mapping: SortedMap<PartitionId, Partition>,
    pub old_replicas: ReplicaSets,
    pub new_replicas: ReplicaSets,
}

impl View for Partitions {
    type V = PartitionsView;

    open spec fn view(&self) -> PartitionsView {
        PartitionsView {
            mapping: self.mapping@,
            old_replicas: self.old_replicas@,
            new_replicas: self.new_replicas@,
        }
    }
}

/// A copy of a map of node sets.
pub fn copy_replica_sets(m: &ReplicaSets) -> (c: ReplicaSets)
    requires
        replica_sets_wf(*m),
    ensures
        replica_sets_wf(c),
        c@ == m@,
        c.keys() == m.keys(),
{
    let mut c: ReplicaSets = SortedMap::new();
    let mut i: usize = 0;
    while i < m.len()
        invariant
            replica_sets_wf(*m),
            i <= m.pairs().len(),
            replica_sets_wf(c),
            c.pairs().len() == i,
            forall|j: int| 0 <= j < i ==> (#[trigger] c.pairs()[j]).0 == m.pairs()[j].0,
            forall|j: int| 0 <= j < i ==> (#[trigger] c.pairs()[j]).1@ == m.pairs()[j].1@,
        decreases m.pairs().len() - i,
    {
        let k = m.key_at(i);
        let v = m.value_at(i).copy();
        c.push_greatest(k, v);
        i += 1;
    }
    proof {
        lemma_same_pairs_same_map(c, *m);
    }
    c
}

/// A copy of a placement map.
pub fn copy_mapping(m: &SortedMap<PartitionId, Partition>) -> (c: SortedMap<PartitionId, Partition>)
    requires
        mapping_wf(*m),
    ensures
        mapping_wf(c),
        c@ == m@,
        c.keys() == m.keys(),
{
    let mut c: SortedMap<PartitionId, Partition> = SortedMap::new();
    let mut i: usize = 0;
    while i < m.len()
        invariant
            mapping_wf(*m),
            i <= m.pairs().len(),
            mapping_wf(c),
            c.pairs().len() == i,
            forall|j: int| 0 <= j < i ==> (#[trigger] c.pairs()[j]).0 == m.pairs()[j].0,
            forall|j: int| 0 <= j < i ==> (#[trigger] c.pairs()[j]).1@ == m.pairs()[j].1@,
        decreases m.pairs().len() - i,
    {
        let k = m.key_at(i);
        let v = m.value_at(i).copy();
        c.push_greatest(k, v);
        i += 1;
    }
    proof {
        lemma_same_pairs_same_map(c, *m);
    }
    c
}

impl Default for Partitions {
    fn default() -> (p: Self)
        ensures
            p.wf(),
            p@.mapping == Map::<PartitionId, PartitionView>::empty(),
            p@.old_replicas == Map::<PartitionId, Set<NodeId>>::empty(),
            p@.new_replicas == Map::<PartitionId, Set<NodeId>>::empty(),
    {
        Partitions::new()
    }
}

impl Partitions {
    /// Whether the table is well formed.
    pub fn is_well_formed(&self) -> (b: bool)
        ensures
            b == self.wf(),
    {
        mapping_sorted(&self.mapping) && replica_sets_sorted(&self.old_replicas)
            && replica_sets_sorted(&self.new_replicas)
    }

    pub open spec fn wf(&self) -> bool {
        &&& mapping_wf(self.mapping)
        &&& replica_sets_wf(self.old_replicas)
        &&& replica_sets_wf(self.new_replicas)
    }

    /// An empty partition table.
    pub fn new() -> (p: Self)
        ensures
            p.wf(),
            p@.mapping == Map::<PartitionId, PartitionView>::empty(),
            p@.old_replicas == Map::<PartitionId, Set<NodeId>>::empty(),
            p@.new_replicas == Map::<PartitionId, Set<NodeId>>::empty(),
    {
        Partitions { mapping: SortedMap::new(), old_replicas: SortedMap::new(), new_replicas: SortedMap::new() }
    }

    /// A copy of the whole table.
    pub fn copy(&self) -> (p: Self)
        requires
            self.wf(),
        ensures
            p.wf(),
            p@ == self@,
    {
        Partitions {
            mapping: copy_mapping(&self.mapping),
            old_replicas: copy_replica_sets(&self.old_replicas),
            new_replicas: copy_replica_sets(&self.new_replicas),
        }
    }
}

#[derive(Debug, Clone, Copy, PartialEq, Eq, Structural)]
pub struct Heartbeat {
    pub id: NodeId,
    pub ts: u64,
}

/// A cluster member as it travels in a cluster state message.
#[derive(Debug)]
pub struct ClusterNode {
    pub id: NodeId,
    pub host: String,
    pub port: u32,
    pub last_heartbeat: u64,
    pub node_type: NodeType,
}

impl Clone for ClusterNode {
    fn clone(&self) -> (n: Self)
        ensures
            n == *self,
    {
        ClusterNode {
            id: self.id,
            host: self.host.clone(),
            port: self.port,
            last_heartbeat: self.last_heartbeat,
            node_type: self.node_type,
        }
    }
}

/// The abstract content of a cluster state message.
pub struct ClusterStateView {
    pub epoch: u64,
    pub leader_id: NodeId,
    pub items: Seq<ClusterNode>,
    pub partitions: PartitionsView,
}

/// A snapshot of the cluster: the epoch, its leader, the members and the
/// partition table.
#[derive(Debug, Clone)]
pub struct ClusterState {
    pub epoch: u64,
    pub leader_id: NodeId,
    pub items: Vec<ClusterNode>,
    pub partitions: Partitions,
}

impl View for ClusterState {
    type V = ClusterStateView;

    open spec fn view(&self) -> ClusterStateView {
        ClusterStateView {
            epoch: self.epoch,
            leader_id: self.leader_id,
            items: self.items@,
            partitions: self.partitions@,
        }
    }
}

impl ClusterState {
    pub open spec fn wf(&self) -> bool {
        self.partitions.wf()
    }

    /// A copy of the snapshot.
    pub fn copy(&self) -> (c: Self)
        requires
            self.wf(),
        ensures
            c.wf(),
            c@ == self@,
    {
        let mut items: Vec<ClusterNode> = Vec::new();
        let mut i: usize = 0;
        while i < self.items.len()
            invariant
                i <= self.items@.len(),
                items@ == self.items@.subrange(0, i as int),
            decreases self.items@.len() - i,
        {
            items.push(self.items[i].clone());
            i += 1;
        }
        assert(items@ =~= self.items@);
        ClusterState {
            epoch: self.epoch,
            leader_id: self.leader_id,
            items,
            partitions: self.partitions.copy(),
        }
    }
}

/// The identity and address of the running node.
#[derive(Debug)]
pub struct Me {
    pub id: NodeId,
    pub host: String,
    pub port: u32,
}

impl Clone for Me {
    fn clone(&self) -> (m: Self)
        ensures
            m == *self,
    {
        Me { id: self.id, host: self.host.clone(), port: self.port }
    }
}

impl Me {
    /// The running node under a fresh identity.
    pub fn new(host: String, port: u32) -> (me: Self)
        ensures
            me.host == host,
            me.port == port,
            is_v7_uuid(me.id.value()),
    {
        Me { id: NodeId::new(), host, port }
    }
}

/// Settings of the running node.
#[derive(Debug)]
pub enum Config {
    Manager {
        grpc_port: u16,
        self_host_port: (String, u16),
        manager_host_port: Option<(String, u16)>,
        replication_factor: usize,
    },
    Worker { grpc_port: u16, self_host_port: (String, u16), manager_host_port: (String, u16) },
}

impl Clone for Config {
    fn clone(&self) -> (c: Self)
        ensures
            c == *self,
    {
        match self {
            Config::Manager { grpc_port, self_host_port, manager_host_port, replication_factor } => {
                Config::Manager {
                    grpc_port: *grpc_port,
                    self_host_port: (self_host_port.0.clone(), self_host_port.1),
                    manager_host_port: match manager_host_port {
                        Some(hp) => Some((hp.0.clone(), hp.1)),
                        None => None,
                    },
                    replication_factor: *replication_factor,
                }
            },
            Config::Worker { grpc_port, self_host_port, manager_host_port } => Config::Worker {
                grpc_port: *grpc_port,
                self_host_port: (self_host_port.0.clone(), self_host_port.1),
                manager_host_port: (manager_host_port.0.clone(), manager_host_port.1),
            },
        }
    }
}

impl Config {
    /// The port the node listens on.
    pub fn grpc_port(&self) -> (p: u16)
        ensures
            p == match self {
                Config::Manager { grpc_port, .. } => *grpc_port,
                Config::Worker { grpc_port, .. } => *grpc_port,
            },
    {
        match self {
            Config::Manager { grpc_port, .. } => *grpc_port,
            Config::Worker { grpc_port, .. } => *grpc_port,
        }
    }

    /// The address of the manager to join, where one is configured.
    pub fn manager_host_port(&self) -> (hp: Option<&(String, u16)>)
        ensures
            hp == match self {
                Config::Manager { manager_host_port, .. } => match manager_host_port {
                    Some(a) => Some(a),
                    None => None,
                },
                Config::Worker { manager_host_port, .. } => Some(manager_host_port),
            },
    {
        match self {
            Config::Manager { manager_host_port, .. } => manager_host_port.as_ref(),
            Config::Worker { manager_host_port, .. } => Some(manager_host_port),
        }
    }

    /// The address peers reach this node at.
    pub fn self_host_port(&self) -> (hp: &(String, u16))
        ensures
            *hp == match self {
                Config::Manager { self_host_port, .. } => *self_host_port,
                Config::Worker { self_host_port, .. } => *self_host_port,
            },
    {
        match self {
            Config::Manager { self_host_port, .. } => self_host_port,
            Config::Worker { self_host_port, .. } => self_host_port,
        }
    }

    /// The replication factor, which only a manager configuration has.
    pub fn replication_factor(&self) -> (f: usize)
        requires
            self is Manager,
        ensures
            f == self->replication_factor,
    {
        match self {
            Config::Manager { replication_factor, .. } => *replication_factor,
            Config::Worker { .. } => 0,
        }
    }

    /// Write access to the replication factor of a manager configuration.
    pub fn replication_factor_mut(&mut self) -> (f: &mut usize)
        requires
            (*old(self)) is Manager,
        ensures
            *f == (*old(self))->replication_factor,
            (*final(self)) is Manager,
            (*final(self))->Manager_grpc_port == (*old(self))->Manager_grpc_port,
            (*final(self))->Manager_self_host_port == (*old(self))->Manager_self_host_port,
            (*final(self))->Manager_manager_host_port == (*old(self))->Manager_manager_host_port,
            (*final(self))->replication_factor == *final(f),
    {
        match self {
            Config::Manager { replication_factor, .. } => replication_factor,
            Config::Worker { .. } => vstd::pervasive::unreached(),
        }
    }
}

/// The configuration that the command line describes.
pub open spec fn config_of_cli(cli: Cli) -> Config {
    match cli.command {
        Command::Manager { common, manager_host, manager_port, replication_factor } => {
            Config::Manager {
                grpc_port: common.grpc_port,
                self_host_port: (common.self_host, common.self_port_spec()),
                manager_host_port: match (manager_host, manager_port) {
                    (Some(h), Some(p)) => Some((h, p)),
                    _ => None,
                },
                replication_factor,
            }
        },
        Command::Worker { common, manager_host, manager_port } => Config::Worker {
            grpc_port: common.grpc_port,
            self_host_port: (common.self_host, common.self_port_spec()),
            manager_host_port: (manager_host, manager_port),
        },
    }
}

impl From<Cli> for Config {
    fn from(value: Cli) -> (c: Self) {
        match value.command {
            Command::Manager { common, manager_host, manager_port, replication_factor } => {
                let self_port = common.self_port();
                Config::Manager {
                    grpc_port: common.grpc_port,
                    self_host_port: (common.self_host, self_port),
                    manager_host_port: match (manager_host, manager_port) {
                        (Some(h), Some(p)) => Some((h, p)),
                        _ => None,
                    },
                    replication_factor,
                }
            },
            Command::Worker { common, manager_host, manager_port } => {
                let self_port = common.self_port();
                Config::Worker {
                    grpc_port: common.grpc_port,
                    self_host_port: (common.self_host, self_port),
                    manager_host_port: (manager_host, manager_port),
                }
            },
        }
    }
}

impl vstd::std_specs::convert::FromSpecImpl<Cli> for Config {
    open spec fn obeys_from_spec() -> bool {
        true
    }

    open spec fn from_spec(v: Cli) -> Config {
        config_of_cli(v)
    }
}

/// The milliseconds in `secs` seconds and `nanos` nanoseconds, cut to 64
/// bits.
pub open spec fn millis_spec(secs: u64, nanos: u32) -> int {
    (secs as int * 1000 + nanos as int / 1_000_000) % 0x1_0000_0000_0000_0000
}

/// The milliseconds in `secs` seconds and `nanos` nanoseconds, cut to 64
/// bits.
pub fn millis_of(secs: u64, nanos: u32) -> (m: u64)
    ensures
        m == millis_spec(secs, nanos),
{
    ((secs as u128 * 1000 + nanos as u128 / 1_000_000) % 0x1_0000_0000_0000_0000) as u64
}

/// Milliseconds since the Unix epoch, cut to 64 bits, from a reading of the
/// clock; a clock that reads before the epoch counts as the epoch itself.
pub fn now_millis() -> (r: u64)
    ensures
        exists|secs: u64, nanos: u32| nanos < 1_000_000_000 && r == millis_spec(secs, nanos),
{
    match clock_since_epoch() {
        Some((secs, nanos)) => millis_of(secs, nanos),
        None => {
            assert(0 == millis_spec(0, 0));
            0
        },
    }
}

} // verus!

verus! {

/// Every member that `keep` selects gets its message.
pub proof fn lemma_for_each_node_reaches<M>(
    pairs: Seq<(NodeId, Node)>,
    keep: spec_fn(NodeId, Node) -> bool,
    make: spec_fn(NodeId) -> M,
    i: int,
)
    requires
        0 <= i < pairs.len(),
        keep(pairs[i].0, pairs[i].1),
    ensures
        for_each_node(pairs, keep, make).contains(make(pairs[i].0)),
    decreases pairs.len(),
{
    let rest = for_each_node(pairs.drop_last(), keep, make);
    if i == pairs.len() - 1 {
        assert(for_each_node(pairs, keep, make).last() == make(pairs[i].0));
    } else {
        assert(pairs.drop_last()[i] == pairs[i]);
        lemma_for_each_node_reaches(pairs.drop_last(), keep, make, i);
        let j = choose|j: int| 0 <= j < rest.len() && rest[j] == make(pairs[i].0);
        if keep(pairs.last().0, pairs.last().1) {
            assert(rest.push(make(pairs.last().0))[j] == make(pairs[i].0));
        }
    }
}

/// Every message is addressed to a member that `keep` selects.
pub proof fn lemma_for_each_node_only<M>(
    pairs: Seq<(NodeId, Node)>,
    keep: spec_fn(NodeId, Node) -> bool,
    make: spec_fn(NodeId) -> M,
    j: int,
)
    requires
        0 <= j < for_each_node(pairs, keep, make).len(),
    ensures
        exists|i: int|
            0 <= i < pairs.len() && keep(pairs[i].0, pairs[i].1) && for_each_node(pairs, keep, make)[j]
                == make(pairs[i].0),
    decreases pairs.len(),
{
    let rest = for_each_node(pairs.drop_last(), keep, make);
    let last = pairs.len() - 1;
    if j < rest.len() {
        lemma_for_each_node_only(pairs.drop_last(), keep, make, j);
        let i = choose|i: int|
            0 <= i < pairs.drop_last().len() && keep(pairs.drop_last()[i].0, pairs.drop_last()[i].1)
                && rest[j] == make(pairs.drop_last()[i].0);
        assert(pairs[i] == pairs.drop_last()[i]);
        assert(for_each_node(pairs, keep, make)[j] == rest[j]);
    } else {
        assert(keep(pairs[last].0, pairs[last].1));
        assert(for_each_node(pairs, keep, make)[j] == make(pairs[last].0));
    }
}

} // verus!
