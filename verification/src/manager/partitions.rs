//! Placement of partitions on workers, and the hand-over bookkeeping when
//! the set of workers changes.
use crate::collections::{
    lemma_take_step_contains,
    lemma_pair_in_map, lemma_pairs_prefix_step, lemma_pairs_take_all, lemma_pairs_to_map_push,
    pairs_has_key, pairs_sorted, pairs_to_map, Keyed, SortedMap, SortedSet,
};
use crate::common::{
    for_each_node, mapping_wf, other_node, replica_sets_wf, ClusterState, ClusterStateView, Me, Node,
    NodeId, NodeType, Partition, PartitionId, PartitionView, ReplicaSets, PARTITIONS_AMOUNT,
};
use crate::manager::domain::{message_views, NodeProtocol};
use crate::manager::state::{cluster_state_message, send_cluster_state, State};
use vstd::prelude::*;

verus! {

/// Position, among `total` workers, of the `replica`-th copy of a partition
/// whose master sits at `master`: `replica` steps back from the master,
/// wrapping around.
pub open spec fn replica_index(total: int, master: int, replica: int) -> int {
    (master - replica) % total
}

/// Finds the worker that holds the `replica`-th copy of a partition whose
/// master is worker `master_partition_index`.
pub fn calc_replica_index(total_amount: usize, master_partition_index: usize, replica: usize) -> (index: usize)
    requires
        total_amount > 0,
        master_partition_index < total_amount,
    ensures
        index == replica_index(total_amount as int, master_partition_index as int, replica as int),
        index < total_amount,
{
    let mut replica = replica;
    let ghost requested = replica as int;
    while replica >= total_amount
        invariant
            total_amount > 0,
            master_partition_index < total_amount,
            (master_partition_index - replica) % (total_amount as int) == (master_partition_index
                - requested) % (total_amount as int),
        decreases replica,
    {
        proof {
            vstd::arithmetic::div_mod::lemma_mod_add_multiples_vanish(
                master_partition_index - replica,
                total_amount as int,
            );
        }
        replica -= total_amount;
    }
    let mut index = master_partition_index;
    if replica > index {
        proof {
            vstd::arithmetic::div_mod::lemma_mod_add_multiples_vanish(
                master_partition_index - replica,
                total_amount as int,
            );
            vstd::arithmetic::div_mod::lemma_small_mod(
                (total_amount + master_partition_index - replica) as nat,
                total_amount as nat,
            );
        }
        replica -= index;
        index = total_amount - replica;
    } else {
        proof {
            vstd::arithmetic::div_mod::lemma_small_mod(
                (master_partition_index - replica) as nat,
                total_amount as nat,
            );
        }
        index -= replica;
    }
    index
}

/// The worker that holds the `replica`-th copy of a partition whose master is
/// worker number `master`.
pub open spec fn replica_of(workers: Seq<NodeId>, master: int, replica: int) -> NodeId {
    workers[replica_index(workers.len() as int, master, replica)]
}

/// The secondary replicas of a partition whose master is worker number
/// `master`: the copies numbered 1 up to the replication factor.
pub open spec fn placement_replicas(workers: Seq<NodeId>, master: int, replication_factor: int) -> Set<
    NodeId,
> {
    Set::new(
        |n: NodeId|
            exists|r: int| 1 <= r < replication_factor && n == #[trigger] replica_of(workers, master, r),
    )
}

/// Where partition `partition` goes: its master is the worker at position
/// `partition` modulo the number of workers.
pub open spec fn placement(workers: Seq<NodeId>, partition: int, replication_factor: int) -> PartitionView {
    let master = partition % (workers.len() as int);
    PartitionView {
        master: replica_of(workers, master, 0),
        replicas: placement_replicas(workers, master, replication_factor),
    }
}

/// The last of the partitions `0..amount` whose number, cut to the 16 bits of
/// a partition id, is `p`: a later partition of the same id overwrites an
/// earlier one.
pub open spec fn last_placed(p: int, amount: int) -> int {
    p + 0x10000 * ((amount - 1 - p) / 0x10000)
}

/// The placement map after placing partitions `0..amount` on `workers`.
pub open spec fn placed_mapping(
    mapping: Map<PartitionId, PartitionView>,
    amount: int,
    replication_factor: int,
    workers: Seq<NodeId>,
) -> Map<PartitionId, PartitionView> {
    if replication_factor == 0 {
        mapping
    } else {
        Map::new(
            |p: PartitionId| mapping.dom().contains(p) || p.0 < amount,
            |p: PartitionId|
                if p.0 < amount {
                    placement(workers, last_placed(p.0 as int, amount), replication_factor)
                } else {
                    mapping[p]
                },
        )
    }
}

/// A partition number cut to 16 bits is the number modulo `0x10000`.
proof fn lemma_partition_id_of(x: usize)
    ensures
        (x as u16) as int == (x as int) % 0x10000,
{
    assert((x as u16) as u64 == (x as u64) % 0x10000) by (bit_vector);
}

/// Placing partition `x` makes it the last one placed under its 16-bit id,
/// and changes that for no other id.
proof fn lemma_last_placed_step(x: int, q: int)
    requires
        0 <= q < 0x10000,
        0 <= x,
        q <= x,
    ensures
        q == x % 0x10000 ==> last_placed(q, x + 1) == x,
        q != x % 0x10000 ==> q < x && last_placed(q, x + 1) == last_placed(q, x),
{
    let d = x - q;
    vstd::arithmetic::div_mod::lemma_fundamental_div_mod(d, 0x10000);
    vstd::arithmetic::div_mod::lemma_fundamental_div_mod(x, 0x10000);
    let k = d / 0x10000;
    let r = d % 0x10000;
    if r == 0 {
        vstd::arithmetic::div_mod::lemma_mod_multiples_vanish(k, q, 0x10000);
        vstd::arithmetic::div_mod::lemma_small_mod(q as nat, 0x10000);
    } else {
        vstd::arithmetic::div_mod::lemma_mod_multiples_vanish(k, q + r, 0x10000);
        if q + r < 0x10000 {
            vstd::arithmetic::div_mod::lemma_small_mod((q + r) as nat, 0x10000);
        } else {
            vstd::arithmetic::div_mod::lemma_mod_multiples_vanish(1, q + r - 0x10000, 0x10000);
            vstd::arithmetic::div_mod::lemma_small_mod((q + r - 0x10000) as nat, 0x10000);
        }
        assert((d - 1) / 0x10000 == k) by {
            vstd::arithmetic::div_mod::lemma_div_multiples_vanish_fancy(k, r - 1, 0x10000);
        }
    }
}

/// Builds the placement of one partition.
fn place_partition(
    vec: &Vec<NodeId>,
    partition: usize,
    replication_factor: usize,
) -> (p: Partition)
    requires
        vec.len() > 0,
        replication_factor > 0,
    ensures
        p.wf(),
        p@ == placement(vec@, partition as int, replication_factor as int),
{
    let master_partition_index = partition % vec.len();
    let index = calc_replica_index(vec.len(), master_partition_index, 0);
    let master = vec[index];
    let mut replicas: SortedSet<NodeId> = SortedSet::new();
    let mut replica: usize = 1;
    while replica < replication_factor
        invariant
            vec.len() > 0,
            master_partition_index < vec.len(),
            1 <= replica <= replication_factor,
            replicas.wf(),
            replicas@ == placement_replicas(vec@, master_partition_index as int, replica as int),
        decreases replication_factor - replica,
    {
        let index = calc_replica_index(vec.len(), master_partition_index, replica);
        let id = vec[index];
        replicas.insert(id);
        proof {
            let next = placement_replicas(vec@, master_partition_index as int, replica + 1);
            assert forall|n: NodeId| #[trigger] replicas@.contains(n) == next.contains(n) by {
                if n == id {
                    assert(n == replica_of(vec@, master_partition_index as int, replica as int));
                } else if next.contains(n) {
                    let r = choose|r: int|
                        1 <= r < replica + 1 && n == #[trigger] replica_of(
                            vec@,
                            master_partition_index as int,
                            r,
                        );
                }
            }
        }
        replica += 1;
    }
    Partition { master, replicas }
}

/// Places partitions `0..partitions_amount` on the workers in `vec`,
/// replacing what the mapping held for them.
pub fn calculate_new_mapping(
    state: &mut State,
    partitions_amount: usize,
    replication_factor: usize,
    vec: &Vec<NodeId>,
)
    requires
        old(state).wf(),
        vec.len() > 0,
    ensures
        final(state).wf(),
        final(state).partitions@.mapping == placed_mapping(
            old(state).partitions@.mapping,
            partitions_amount as int,
            replication_factor as int,
            vec@,
        ),
        final(state).partitions.old_replicas == old(state).partitions.old_replicas,
        final(state).partitions.new_replicas == old(state).partitions.new_replicas,
        final(state).nodes == old(state).nodes,
        final(state).epoch == old(state).epoch,
        final(state).elected_leader_id == old(state).elected_leader_id,
        final(state).workers_with_calculated_partitions == old(state).workers_with_calculated_partitions,
{
    if replication_factor == 0 {
        return;
    }
    let ghost start = old(state).partitions@.mapping;
    let mut partition: usize = 0;
    while partition < partitions_amount
        invariant
            state.wf(),
            vec.len() > 0,
            replication_factor > 0,
            partition <= partitions_amount,
            state.partitions@.mapping == placed_mapping(
                start,
                partition as int,
                replication_factor as int,
                vec@,
            ),
            state.partitions.old_replicas == old(state).partitions.old_replicas,
            state.partitions.new_replicas == old(state).partitions.new_replicas,
            state.nodes == old(state).nodes,
            state.epoch == old(state).epoch,
            state.elected_leader_id == old(state).elected_leader_id,
            state.workers_with_calculated_partitions == old(state).workers_with_calculated_partitions,
        decreases partitions_amount - partition,
    {
        let p = place_partition(vec, partition, replication_factor);
        let id = PartitionId(partition as u16);
        proof {
            lemma_partition_id_of(partition);
            assert forall|q: int| 0 <= q < 0x10000 && q < partition + 1 implies #[trigger] last_placed(q, partition + 1)
                == if q == id.0 {
                partition as int
            } else {
                last_placed(q, partition as int)
            } by {
                lemma_last_placed_step(partition as int, q);
            }
        }
        state.partitions.mapping.insert(id, p);
        proof {
            assert forall|i: int|
                0 <= i < state.partitions.mapping.pairs().len() implies (
            #[trigger] state.partitions.mapping.pairs()[i]).1.wf() by {
            }
            assert(state.partitions@.mapping =~= placed_mapping(
                start,
                partition + 1,
                replication_factor as int,
                vec@,
            ));
        }
        partition += 1;
    }
}

/// The nodes of `s` that neither master nor replicate placement `p`.
pub open spec fn without_placement(s: Set<NodeId>, p: PartitionView) -> Set<NodeId> {
    Set::new(|r: NodeId| s.contains(r) && r != p.master && !p.replicas.contains(r))
}

/// The old replicas of partition `pid` that its current placement does not use.
pub open spec fn deduplicated_set(
    s: Set<NodeId>,
    mapping: Map<PartitionId, PartitionView>,
    pid: PartitionId,
) -> Set<NodeId> {
    if mapping.dom().contains(pid) {
        without_placement(s, mapping[pid])
    } else {
        s
    }
}

/// The old replicas with the nodes of the current placement taken out, and
/// the partitions left with no old replica dropped.
pub open spec fn deduplicated(
    old_replicas: Map<PartitionId, Set<NodeId>>,
    mapping: Map<PartitionId, PartitionView>,
) -> Map<PartitionId, Set<NodeId>> {
    Map::new(
        |pid: PartitionId|
            old_replicas.dom().contains(pid) && deduplicated_set(old_replicas[pid], mapping, pid)
                != Set::<NodeId>::empty(),
        |pid: PartitionId| deduplicated_set(old_replicas[pid], mapping, pid),
    )
}

/// The nodes of `s` that are also in `keep`.
pub open spec fn still_current(s: Set<NodeId>, keep: Seq<NodeId>) -> Set<NodeId> {
    Set::new(|n: NodeId| s.contains(n) && keep.contains(n))
}

/// The sets of `m` cut down to the nodes in `keep`, without the sets that
/// become empty.
pub open spec fn restricted(m: Map<PartitionId, Set<NodeId>>, keep: Seq<NodeId>) -> Map<
    PartitionId,
    Set<NodeId>,
> {
    Map::new(
        |pid: PartitionId| m.dom().contains(pid) && still_current(m[pid], keep) != Set::<NodeId>::empty(),
        |pid: PartitionId| still_current(m[pid], keep),
    )
}

/// The old replicas of `pid` together with every node of its placement.
pub open spec fn merged_replicas(
    old_replicas: Map<PartitionId, Set<NodeId>>,
    mapping: Map<PartitionId, PartitionView>,
    pid: PartitionId,
) -> Set<NodeId> {
    let prev = if old_replicas.dom().contains(pid) {
        old_replicas[pid]
    } else {
        Set::<NodeId>::empty()
    };
    if mapping.dom().contains(pid) {
        prev.union(mapping[pid].replicas).insert(mapping[pid].master)
    } else {
        prev
    }
}

/// The old replicas after the whole placement has been added to them.
pub open spec fn merged_old_replicas(
    old_replicas: Map<PartitionId, Set<NodeId>>,
    mapping: Map<PartitionId, PartitionView>,
) -> Map<PartitionId, Set<NodeId>> {
    Map::new(
        |pid: PartitionId| old_replicas.dom().contains(pid) || mapping.dom().contains(pid),
        |pid: PartitionId| merged_replicas(old_replicas, mapping, pid),
    )
}

/// The old replicas once the current placement has been retired: every node
/// that held a partition, restricted to the workers still present.
pub open spec fn moved_old_replicas(
    old_replicas: Map<PartitionId, Set<NodeId>>,
    mapping: Map<PartitionId, PartitionView>,
    current: Seq<NodeId>,
) -> Map<PartitionId, Set<NodeId>> {
    restricted(merged_old_replicas(old_replicas, mapping), current)
}

/// Whether `keys` holds `n`.
fn slice_contains(keys: &[NodeId], n: NodeId) -> (b: bool)
    ensures
        b == keys@.contains(n),
{
    let mut i: usize = 0;
    while i < keys.len()
        invariant
            i <= keys@.len(),
            forall|j: int| 0 <= j < i ==> keys@[j] != n,
        decreases keys@.len() - i,
    {
        if keys[i] == n {
            return true;
        }
        i += 1;
    }
    false
}

/// The nodes of `s` that neither master nor replicate `p`.
fn without_placement_set(s: &SortedSet<NodeId>, p: &Partition) -> (r: SortedSet<NodeId>)
    requires
        s.wf(),
        p.wf(),
    ensures
        r.wf(),
        r@ == without_placement(s@, p@),
{
    let mut r: SortedSet<NodeId> = SortedSet::new();
    let mut i: usize = 0;
    while i < s.len()
        invariant
            s.wf(),
            p.wf(),
            r.wf(),
            i <= s.elems().len(),
            forall|x: NodeId| #[trigger]
                r@.contains(x) == (s.elems().take(i as int).contains(x) && x != p.master
                    && !p.replicas@.contains(x)),
            forall|j: int, t: int|
                0 <= j < r.elems().len() && i <= t < s.elems().len() ==> (
                #[trigger] r.elems()[j]).rank() < (#[trigger] s.elems()[t]).rank(),
        decreases s.elems().len() - i,
    {
        let x = s.get(i);
        proof {
            lemma_take_step_contains(s.elems(), i as int);
        }
        if x != p.master && !p.replicas.contains(&x) {
            r.push_greatest(x);
            assert forall|j: int, t: int|
                0 <= j < r.elems().len() && i + 1 <= t < s.elems().len() implies (
            #[trigger] r.elems()[j]).rank() < (#[trigger] s.elems()[t]).rank() by {
            }
        }
        i += 1;
    }
    assert(s.elems().take(s.elems().len() as int) =~= s.elems());
    r
}

/// The nodes of `s` that are also in `keys`.
fn still_current_set(s: &SortedSet<NodeId>, keys: &[NodeId]) -> (r: SortedSet<NodeId>)
    requires
        s.wf(),
    ensures
        r.wf(),
        r@ == still_current(s@, keys@),
{
    let mut r: SortedSet<NodeId> = SortedSet::new();
    let mut i: usize = 0;
    while i < s.len()
        invariant
            s.wf(),
            r.wf(),
            i <= s.elems().len(),
            forall|x: NodeId| #[trigger]
                r@.contains(x) == (s.elems().take(i as int).contains(x) && keys@.contains(x)),
            forall|j: int, t: int|
                0 <= j < r.elems().len() && i <= t < s.elems().len() ==> (
                #[trigger] r.elems()[j]).rank() < (#[trigger] s.elems()[t]).rank(),
        decreases s.elems().len() - i,
    {
        let x = s.get(i);
        proof {
            lemma_take_step_contains(s.elems(), i as int);
        }
        if slice_contains(keys, x) {
            r.push_greatest(x);
            assert forall|j: int, t: int|
                0 <= j < r.elems().len() && i + 1 <= t < s.elems().len() implies (
            #[trigger] r.elems()[j]).rank() < (#[trigger] s.elems()[t]).rank() by {
            }
        }
        i += 1;
    }
    assert(s.elems().take(s.elems().len() as int) =~= s.elems());
    r
}

/// Takes the nodes of the current placement out of each partition's old
/// replicas, and drops the partitions left with none.
pub fn deduplicate_partitions(partitions: &mut crate::common::Partitions)
    requires
        old(partitions).wf(),
    ensures
        final(partitions).wf(),
        final(partitions)@.old_replicas == deduplicated(
            old(partitions)@.old_replicas,
            old(partitions)@.mapping,
        ),
        final(partitions).mapping == old(partitions).mapping,
        final(partitions).new_replicas == old(partitions).new_replicas,
{
    let ghost pairs = partitions.old_replicas.pairs();
    let ghost mapping = partitions.mapping@;
    let mut result: ReplicaSets = SortedMap::new();
    let mut i: usize = 0;
    while i < partitions.old_replicas.len()
        invariant
            partitions.wf(),
            partitions.old_replicas.pairs() == pairs,
            partitions.mapping@ == mapping,
            partitions.mapping == old(partitions).mapping,
            partitions.new_replicas == old(partitions).new_replicas,
            i <= pairs.len(),
            replica_sets_wf(result),
            result@ == deduplicated(pairs_to_map(pairs.take(i as int)), mapping),
            forall|j: int, t: int|
                0 <= j < result.pairs().len() && i <= t < pairs.len() ==> (
                #[trigger] result.pairs()[j]).0.rank() < (#[trigger] pairs[t]).0.rank(),
        decreases pairs.len() - i,
    {
        let pid = partitions.old_replicas.key_at(i);
        let set = partitions.old_replicas.value_at(i);
        let filtered = match partitions.mapping.find(&pid) {
            Some(k) => {
                let p = partitions.mapping.value_at(k);
                proof {
                    lemma_pair_in_map(partitions.mapping.pairs(), k as int);
                }
                without_placement_set(set, p)
            },
            None => set.copy(),
        };
        proof {
            lemma_pairs_prefix_step(pairs, i as int);
        }
        if !filtered.is_empty() {
            proof {
                assert forall|j: int| 0 <= j < result.pairs().len() implies (#[trigger] result.pairs()[
                    j]).0.rank() < pid.rank() by {
                }
            }
            result.push_greatest(pid, filtered);
            proof {
                assert forall|j: int| 0 <= j < result.pairs().len() implies (#[trigger] result.pairs()[
                    j]).1.wf() by {
                }
            }
        }
        assert forall|j: int, t: int|
            0 <= j < result.pairs().len() && i + 1 <= t < pairs.len() implies (
        #[trigger] result.pairs()[j]).0.rank() < (#[trigger] pairs[t]).0.rank() by {
        }
        i += 1;
    }
    proof {
        lemma_pairs_take_all(pairs);
    }
    partitions.old_replicas = result;
}

/// Adds the nodes of `p` to the set `s`.
fn add_placement(s: &mut SortedSet<NodeId>, p: &Partition)
    requires
        old(s).wf(),
        p.wf(),
    ensures
        final(s).wf(),
        final(s)@ == old(s)@.union(p.replicas@).insert(p.master),
{
    let mut j: usize = 0;
    while j < p.replicas.len()
        invariant
            s.wf(),
            p.wf(),
            j <= p.replicas.elems().len(),
            forall|x: NodeId| #[trigger]
                s@.contains(x) == (old(s)@.contains(x) || p.replicas.elems().take(j as int).contains(x)),
        decreases p.replicas.elems().len() - j,
    {
        proof {
            lemma_take_step_contains(p.replicas.elems(), j as int);
        }
        s.insert(p.replicas.get(j));
        j += 1;
    }
    assert(p.replicas.elems().take(p.replicas.elems().len() as int) =~= p.replicas.elems());
    s.insert(p.master);
}

/// Adding one more placement to the merge changes only its own partition.
proof fn lemma_merge_step(
    old_replicas: Map<PartitionId, Set<NodeId>>,
    m: Map<PartitionId, PartitionView>,
    pid: PartitionId,
    pv: PartitionView,
)
    requires
        !m.dom().contains(pid),
    ensures
        merged_old_replicas(old_replicas, m.insert(pid, pv)) == merged_old_replicas(
            old_replicas,
            m,
        ).insert(
            pid,
            (if old_replicas.dom().contains(pid) {
                old_replicas[pid]
            } else {
                Set::<NodeId>::empty()
            }).union(pv.replicas).insert(pv.master),
        ),
{
    assert(merged_old_replicas(old_replicas, m.insert(pid, pv)) =~= merged_old_replicas(
        old_replicas,
        m,
    ).insert(
        pid,
        (if old_replicas.dom().contains(pid) {
            old_replicas[pid]
        } else {
            Set::<NodeId>::empty()
        }).union(pv.replicas).insert(pv.master),
    ));
}

/// Retires the current placement: every node that held a partition joins its
/// old replicas, and the old replicas are then cut down to the workers in
/// `current_keys`.
pub fn move_current_mapping_to_old(state: &mut State, current_keys: &[NodeId])
    requires
        old(state).wf(),
    ensures
        final(state).wf(),
        final(state).partitions@.mapping == Map::<PartitionId, PartitionView>::empty(),
        final(state).partitions@.old_replicas == moved_old_replicas(
            old(state).partitions@.old_replicas,
            old(state).partitions@.mapping,
            current_keys@,
        ),
        final(state).partitions.new_replicas == old(state).partitions.new_replicas,
        final(state).nodes == old(state).nodes,
        final(state).epoch == old(state).epoch,
        final(state).elected_leader_id == old(state).elected_leader_id,
        final(state).workers_with_calculated_partitions == old(state).workers_with_calculated_partitions,
{
    let ghost start_old = state.partitions@.old_replicas;
    let ghost start_mapping = state.partitions@.mapping;
    let ghost mapping_pairs = state.partitions.mapping.pairs();
    let moved = state.partitions.mapping.take_all();
    let mut i: usize = 0;
    while i < moved.len()
        invariant
            state.wf(),
            moved@ == mapping_pairs,
            pairs_sorted(mapping_pairs),
            forall|j: int| 0 <= j < mapping_pairs.len() ==> (#[trigger] mapping_pairs[j]).1.wf(),
            pairs_to_map(mapping_pairs) == start_mapping,
            i <= mapping_pairs.len(),
            state.partitions@.mapping == Map::<PartitionId, PartitionView>::empty(),
            state.partitions@.old_replicas == merged_old_replicas(
                start_old,
                pairs_to_map(mapping_pairs.take(i as int)),
            ),
            state.partitions.new_replicas == old(state).partitions.new_replicas,
            state.nodes == old(state).nodes,
            state.epoch == old(state).epoch,
            state.elected_leader_id == old(state).elected_leader_id,
            state.workers_with_calculated_partitions == old(state).workers_with_calculated_partitions,
        decreases mapping_pairs.len() - i,
    {
        let pid = moved[i].0;
        let part = &moved[i].1;
        proof {
            lemma_pairs_prefix_step(mapping_pairs, i as int);
            lemma_merge_step(
                start_old,
                pairs_to_map(mapping_pairs.take(i as int)),
                pid,
                part@,
            );
        }
        match state.partitions.old_replicas.find(&pid) {
            Some(idx) => {
                proof {
                    lemma_pair_in_map(state.partitions.old_replicas.pairs(), idx as int);
                }
                let ghost before_pairs = state.partitions.old_replicas.pairs();
                let mut set = state.partitions.old_replicas.replace_at(idx, SortedSet::new());
                add_placement(&mut set, part);
                state.partitions.old_replicas.replace_at(idx, set);
                proof {
                    assert forall|j: int|
                        0 <= j < state.partitions.old_replicas.pairs().len() implies (
                    #[trigger] state.partitions.old_replicas.pairs()[j]).1.wf() by {
                    }
                }
            },
            None => {
                let mut set = part.replicas.copy();
                set.insert(part.master);
                assert(set@ =~= Set::<NodeId>::empty().union(part.replicas@).insert(part.master));
                let ghost before_pairs = state.partitions.old_replicas.pairs();
                let ghost new_set = set;
                state.partitions.old_replicas.insert(pid, set);
                proof {
                    assert forall|j: int|
                        0 <= j < state.partitions.old_replicas.pairs().len() implies (
                    #[trigger] state.partitions.old_replicas.pairs()[j]).1.wf() by {
                        let e = state.partitions.old_replicas.pairs()[j];
                        if e != (pid, new_set) {
                            let t = choose|t: int|
                                0 <= t < before_pairs.len() && before_pairs[t] == e;
                        }
                    }
                }
            },
        }
        i += 1;
    }
    proof {
        lemma_pairs_take_all(mapping_pairs);
    }
    let ghost pairs = state.partitions.old_replicas.pairs();
    let mut result: ReplicaSets = SortedMap::new();
    let mut i: usize = 0;
    while i < state.partitions.old_replicas.len()
        invariant
            state.wf(),
            state.partitions.old_replicas.pairs() == pairs,
            state.partitions@.mapping == Map::<PartitionId, PartitionView>::empty(),
            state.partitions.new_replicas == old(state).partitions.new_replicas,
            state.nodes == old(state).nodes,
            state.epoch == old(state).epoch,
            state.elected_leader_id == old(state).elected_leader_id,
            state.workers_with_calculated_partitions == old(state).workers_with_calculated_partitions,
            i <= pairs.len(),
            replica_sets_wf(result),
            result@ == restricted(pairs_to_map(pairs.take(i as int)), current_keys@),
            forall|j: int, t: int|
                0 <= j < result.pairs().len() && i <= t < pairs.len() ==> (
                #[trigger] result.pairs()[j]).0.rank() < (#[trigger] pairs[t]).0.rank(),
        decreases pairs.len() - i,
    {
        let pid = state.partitions.old_replicas.key_at(i);
        let set = state.partitions.old_replicas.value_at(i);
        let kept = still_current_set(set, current_keys);
        proof {
            lemma_pairs_prefix_step(pairs, i as int);
        }
        if !kept.is_empty() {
            proof {
                assert forall|j: int| 0 <= j < result.pairs().len() implies (#[trigger] result.pairs()[
                    j]).0.rank() < pid.rank() by {
                }
            }
            result.push_greatest(pid, kept);
            proof {
                assert forall|j: int| 0 <= j < result.pairs().len() implies (#[trigger] result.pairs()[
                    j]).1.wf() by {
                }
            }
        }
        assert forall|j: int, t: int|
            0 <= j < result.pairs().len() && i + 1 <= t < pairs.len() implies (
        #[trigger] result.pairs()[j]).0.rank() < (#[trigger] pairs[t]).0.rank() by {
        }
        i += 1;
    }
    proof {
        lemma_pairs_take_all(pairs);
    }
    state.partitions.old_replicas = result;
}

/// The workers among the members, in increasing identity order.
pub open spec fn worker_ids(pairs: Seq<(NodeId, Node)>) -> Seq<NodeId>
    decreases pairs.len(),
{
    if pairs.len() == 0 {
        Seq::empty()
    } else {
        let rest = worker_ids(pairs.drop_last());
        if pairs.last().1.node_type == NodeType::Worker {
            rest.push(pairs.last().0)
        } else {
            rest
        }
    }
}

/// The members that are workers.
pub open spec fn worker_set(nodes: Map<NodeId, Node>) -> Set<NodeId> {
    Set::new(|k: NodeId| nodes.dom().contains(k) && nodes[k].node_type == NodeType::Worker)
}

/// The workers among the members, as a set in increasing order.
pub fn current_workers(nodes: &SortedMap<NodeId, Node>) -> (ws: SortedSet<NodeId>)
    requires
        nodes.wf(),
    ensures
        ws.wf(),
        ws.elems() == worker_ids(nodes.pairs()),
        ws@ == worker_set(nodes@),
{
    let ghost pairs = nodes.pairs();
    let mut ws: SortedSet<NodeId> = SortedSet::new();
    let mut i: usize = 0;
    while i < nodes.len()
        invariant
            nodes.wf(),
            nodes.pairs() == pairs,
            i <= pairs.len(),
            ws.wf(),
            ws.elems() == worker_ids(pairs.take(i as int)),
            ws@ == worker_set(pairs_to_map(pairs.take(i as int))),
            forall|j: int, t: int|
                0 <= j < ws.elems().len() && i <= t < pairs.len() ==> (
                #[trigger] ws.elems()[j]).rank() < (#[trigger] pairs[t]).0.rank(),
        decreases pairs.len() - i,
    {
        let k = nodes.key_at(i);
        let n = nodes.value_at(i);
        proof {
            lemma_pairs_prefix_step(pairs, i as int);
            assert(pairs.take(i + 1).drop_last() =~= pairs.take(i as int));
        }
        if n.is_worker() {
            proof {
                assert forall|j: int| 0 <= j < ws.elems().len() implies (#[trigger] ws.elems()[j]).rank()
                    < k.rank() by {
                }
            }
            ws.push_greatest(k);
        }
        assert forall|j: int, t: int|
            0 <= j < ws.elems().len() && i + 1 <= t < pairs.len() implies (
        #[trigger] ws.elems()[j]).rank() < (#[trigger] pairs[t]).0.rank() by {
        }
        i += 1;
    }
    proof {
        lemma_pairs_take_all(pairs);
    }
    ws
}

/// The snapshot of epoch, leader and partition table that the leader hands
/// out after a placement.
pub fn create_new_workers_state(state: &State) -> (c: ClusterState)
    requires
        state.wf(),
        state.epoch is Some,
        state.elected_leader_id is Some,
    ensures
        c.wf(),
        c@ == (ClusterStateView {
            epoch: state.epoch->0,
            leader_id: state.elected_leader_id->0,
            items: Seq::empty(),
            partitions: state.partitions@,
        }),
{
    let epoch = match state.epoch {
        Some(e) => e,
        None => vstd::pervasive::unreached(),
    };
    let leader_id = match state.elected_leader_id {
        Some(l) => l,
        None => vstd::pervasive::unreached(),
    };
    let c = ClusterState {
        epoch,
        leader_id,
        items: Vec::new(),
        partitions: state.partitions.copy(),
    };
    c
}

/// The outcome of the placement step with replication factor `replication_factor`.
pub open spec fn worker_partitions_step(
    state: State,
    output: Seq<NodeProtocol>,
    final_state: State,
    final_output: Seq<NodeProtocol>,
    me: NodeId,
    replication_factor: usize,
) -> bool {
    &&& final_state.epoch == state.epoch
    &&& final_state.elected_leader_id == state.elected_leader_id
    &&& final_state.nodes == state.nodes
    &&& final_state.partitions.new_replicas == state.partitions.new_replicas
    &&& if state.elected_leader_id == Some(me) && worker_set(state.nodes@) != state.workers_with_calculated_partitions@ {
        let ws = worker_ids(state.nodes.pairs());
        let moved = moved_old_replicas(
            state.partitions@.old_replicas,
            state.partitions@.mapping,
            ws,
        );
        if ws.len() == 0 {
            &&& final_state.partitions@.mapping == Map::<PartitionId, PartitionView>::empty()
            &&& final_state.partitions@.old_replicas == moved
            &&& final_state.workers_with_calculated_partitions@ == Set::<NodeId>::empty()
            &&& final_output == output
        } else {
            let mapping = placed_mapping(
                Map::<PartitionId, PartitionView>::empty(),
                PARTITIONS_AMOUNT as int,
                replication_factor as int,
                ws,
            );
            &&& final_state.partitions@.mapping == mapping
            &&& final_state.partitions@.old_replicas == deduplicated(moved, mapping)
            &&& final_state.workers_with_calculated_partitions@ == worker_set(state.nodes@)
            &&& message_views(final_output) == message_views(output) + for_each_node(
                state.nodes.pairs(),
                other_node(me),
                cluster_state_message(
                    ClusterStateView {
                        epoch: state.epoch->0,
                        leader_id: me,
                        items: Seq::empty(),
                        partitions: final_state.partitions@,
                    },
                ),
            )
        }
    } else {
        &&& final_state.partitions == state.partitions
        &&& final_state.workers_with_calculated_partitions == state.workers_with_calculated_partitions
        &&& final_output == output
    }
}

/// Where the leader `me` is to re-place the partitions on a changed,
/// non-empty set of workers, it knows the epoch it leads in.
pub open spec fn placement_epoch_known(state: State, me: NodeId) -> bool {
    state.elected_leader_id == Some(me) && worker_set(state.nodes@)
        != state.workers_with_calculated_partitions@ && worker_set(state.nodes@) != Set::<
        NodeId,
    >::empty() ==> state.epoch is Some
}

/// Re-places all partitions when the leader sees that the set of workers
/// changed, and hands the new table to every other member.
pub fn worker_partitions(
    state: &mut State,
    output: &mut Vec<NodeProtocol>,
    me: &Me,
    replication_factor: usize,
)
    requires
        old(state).wf(),
        placement_epoch_known(*old(state), me.id),
    ensures
        final(state).wf(),
        worker_partitions_step(
            *old(state),
            old(output)@,
            *final(state),
            final(output)@,
            me.id,
            replication_factor,
        ),
{
    if state.elected_leader_id == Some(me.id) {
        let current = current_workers(&state.nodes);
        if !current.same_elements(&state.workers_with_calculated_partitions) {
            let vec = current.to_vec();
            move_current_mapping_to_old(state, vec.as_slice());
            if vec.len() > 0 {
                assert(current@.contains(vec@[0]));
                calculate_new_mapping(state, PARTITIONS_AMOUNT, replication_factor, &vec);
                deduplicate_partitions(&mut state.partitions);
                let workers_state = create_new_workers_state(state);
                state.workers_with_calculated_partitions = current;
                send_cluster_state(output, &state.nodes, me.id, &workers_state);
            } else {
                state.workers_with_calculated_partitions.clear();
            }
        }
    }
}

} // verus!

verus! {

/// Stepping back `replica` places from `master`, both below `total`, wraps
/// around at most once.
proof fn lemma_step_back(total: int, master: int, replica: int)
    requires
        0 <= master < total,
        0 <= replica < total,
    ensures
        replica_index(total, master, replica) == if replica <= master {
            master - replica
        } else {
            master - replica + total
        },
{
    if replica <= master {
        vstd::arithmetic::div_mod::lemma_small_mod((master - replica) as nat, total as nat);
    } else {
        vstd::arithmetic::div_mod::lemma_mod_add_multiples_vanish(master - replica, total);
        vstd::arithmetic::div_mod::lemma_small_mod((master - replica + total) as nat, total as nat);
    }
}

/// Every copy of a partition is placed on one of the workers.
pub proof fn lemma_placement_on_workers(workers: Seq<NodeId>, partition: int, replication_factor: int)
    requires
        workers.len() > 0,
    ensures
        workers.contains(placement(workers, partition, replication_factor).master),
        forall|n: NodeId| #[trigger]
            placement(workers, partition, replication_factor).replicas.contains(n)
                ==> workers.contains(n),
{
    let len = workers.len() as int;
    let m = partition % len;
    assert forall|n: NodeId| #[trigger]
        placement(workers, partition, replication_factor).replicas.contains(n) implies workers.contains(n) by {
    }
}

/// With distinct workers and a replication factor no larger than their
/// number, a partition gets `replication_factor - 1` secondary replicas, on
/// workers other than its master.
pub proof fn lemma_replicas_distinct(workers: Seq<NodeId>, partition: int, replication_factor: int)
    requires
        workers.no_duplicates(),
        1 <= replication_factor <= workers.len(),
    ensures
        !placement(workers, partition, replication_factor).replicas.contains(
            placement(workers, partition, replication_factor).master,
        ),
        placement(workers, partition, replication_factor).replicas.finite(),
        placement(workers, partition, replication_factor).replicas.len() == replication_factor - 1,
{
    let len = workers.len() as int;
    let m = partition % len;
    let f = |r: int| replica_of(workers, m, r);
    let range = vstd::set_lib::set_int_range(1, replication_factor);
    let p = placement(workers, partition, replication_factor);
    assert forall|r1: int, r2: int|
        range.contains(r1) && range.contains(r2) && #[trigger] f(r1) == #[trigger] f(r2) implies r1
            == r2 by {
        lemma_step_back(len, m, r1);
        lemma_step_back(len, m, r2);
    }
    assert(range.map(f) =~= p.replicas) by {
        assert forall|n: NodeId| #[trigger] p.replicas.contains(n) implies range.map(f).contains(n) by {
            let r = choose|r: int| 1 <= r < replication_factor && n == #[trigger] replica_of(workers, m, r);
            assert(range.contains(r) && n == f(r));
        }
    }
    vstd::set_lib::lemma_int_range(1, replication_factor);
    vstd::set_lib::lemma_map_size(range, p.replicas, f);
    if p.replicas.contains(p.master) {
        let r = choose|r: int| 1 <= r < replication_factor && p.master == #[trigger] replica_of(workers, m, r);
        lemma_step_back(len, m, r);
        lemma_step_back(len, m, 0);
    }
}

/// The old replicas left after deduplication are never empty, come from the
/// old replicas, and hold neither the master nor a replica of the current
/// placement.
pub proof fn lemma_deduplicated_disjoint(
    old_replicas: Map<PartitionId, Set<NodeId>>,
    mapping: Map<PartitionId, PartitionView>,
)
    ensures
        forall|pid: PartitionId| #[trigger]
            deduplicated(old_replicas, mapping).dom().contains(pid) ==> {
                let s = deduplicated(old_replicas, mapping)[pid];
                &&& s != Set::<NodeId>::empty()
                &&& s.subset_of(old_replicas[pid])
                &&& mapping.dom().contains(pid) ==> !s.contains(mapping[pid].master) && s.disjoint(
                    mapping[pid].replicas,
                )
            },
{
}

/// Once the current placement is retired, each partition's old replicas are
/// workers that are still present and that held the partition before, and
/// no partition is left with an empty set.
pub proof fn lemma_moved_old_replicas_current(
    old_replicas: Map<PartitionId, Set<NodeId>>,
    mapping: Map<PartitionId, PartitionView>,
    current: Seq<NodeId>,
)
    ensures
        forall|pid: PartitionId| #[trigger]
            moved_old_replicas(old_replicas, mapping, current).dom().contains(pid) ==> {
                let s = moved_old_replicas(old_replicas, mapping, current)[pid];
                &&& s != Set::<NodeId>::empty()
                &&& forall|n: NodeId| #[trigger]
                    s.contains(n) ==> current.contains(n) && (
                    (old_replicas.dom().contains(pid) && old_replicas[pid].contains(n)) || (
                    mapping.dom().contains(pid) && (mapping[pid].master == n
                        || mapping[pid].replicas.contains(n))))
            },
{
}

} // verus!

verus! {

/// The workers listed from the members are exactly the members that are
/// workers, each listed once.
proof fn lemma_worker_ids_members(pairs: Seq<(NodeId, Node)>)
    requires
        pairs_sorted(pairs),
    ensures
        forall|n: NodeId| #[trigger]
            worker_ids(pairs).contains(n) <==> worker_set(pairs_to_map(pairs)).contains(n),
        forall|i: int| 0 <= i < worker_ids(pairs).len() ==> pairs_has_key(pairs, #[trigger] worker_ids(pairs)[i]),
        worker_ids(pairs).no_duplicates(),
    decreases pairs.len(),
{
    if pairs.len() > 0 {
        let s = pairs.drop_last();
        let x = pairs.last();
        assert(s.push(x) =~= pairs);
        lemma_pairs_to_map_push(s, x);
        lemma_worker_ids_members(s);
        let rest = worker_ids(s);
        assert forall|i: int| 0 <= i < rest.len() implies (#[trigger] rest[i]).rank() < x.0.rank() by {
        }
        assert forall|i: int| 0 <= i < worker_ids(pairs).len() implies pairs_has_key(pairs, #[trigger] worker_ids(pairs)[i]) by {
        }
        assert forall|n: NodeId| #[trigger]
            worker_ids(pairs).contains(n) <==> worker_set(pairs_to_map(pairs)).contains(n) by {
            if x.1.node_type == NodeType::Worker {
                if rest.contains(n) {
                    let i = choose|i: int| 0 <= i < rest.len() && rest[i] == n;
                    assert(rest.push(x.0)[i] == n);
                }
                if n == x.0 {
                    assert(rest.push(x.0)[rest.len() as int] == n);
                }
            }
        }
    }
}

/// Once the leader re-places the partitions for a changed set of workers,
/// every partition below `PARTITIONS_AMOUNT`, and no other, is placed, every
/// copy sits on a member that is a worker, and where the replication factor
/// is at least one and does not exceed the number of workers, the copies of
/// a partition sit on that many distinct workers.
pub proof fn lemma_placement_uses_present_workers(
    state: State,
    output: Seq<NodeProtocol>,
    final_state: State,
    final_output: Seq<NodeProtocol>,
    me: NodeId,
    replication_factor: usize,
)
    requires
        state.wf(),
        worker_partitions_step(state, output, final_state, final_output, me, replication_factor),
        state.elected_leader_id == Some(me),
        worker_set(state.nodes@) != state.workers_with_calculated_partitions@,
        replication_factor >= 1,
    ensures
        worker_set(state.nodes@) != Set::<NodeId>::empty() ==> forall|pid: PartitionId| #[trigger]
            final_state.partitions@.mapping.dom().contains(pid) <==> pid.0 < PARTITIONS_AMOUNT,
        forall|pid: PartitionId| #[trigger]
            final_state.partitions@.mapping.dom().contains(pid) ==> {
                let placed = final_state.partitions@.mapping[pid];
                &&& worker_set(state.nodes@).contains(placed.master)
                &&& forall|n: NodeId| #[trigger]
                    placed.replicas.contains(n) ==> worker_set(state.nodes@).contains(n)
                &&& replication_factor <= worker_set(state.nodes@).len() ==> !placed.replicas.contains(
                    placed.master,
                ) && placed.replicas.len() == replication_factor - 1
            },
        forall|pid: PartitionId| #[trigger]
            final_state.partitions@.old_replicas.dom().contains(pid) ==> {
                let old = final_state.partitions@.old_replicas[pid];
                &&& old != Set::<NodeId>::empty()
                &&& forall|n: NodeId| #[trigger] old.contains(n) ==> worker_set(state.nodes@).contains(n)
                &&& final_state.partitions@.mapping.dom().contains(pid) ==> !old.contains(
                    final_state.partitions@.mapping[pid].master,
                ) && old.disjoint(final_state.partitions@.mapping[pid].replicas)
            },
        final_state.workers_with_calculated_partitions@ == worker_set(state.nodes@),
{
    let ws = worker_ids(state.nodes.pairs());
    lemma_worker_ids_members(state.nodes.pairs());
    lemma_moved_old_replicas_current(state.partitions@.old_replicas, state.partitions@.mapping, ws);
    lemma_deduplicated_disjoint(
        moved_old_replicas(state.partitions@.old_replicas, state.partitions@.mapping, ws),
        final_state.partitions@.mapping,
    );
    assert(ws.to_set() =~= worker_set(state.nodes@)) by {
        assert forall|n: NodeId| ws.to_set().contains(n) <==> #[trigger] worker_set(state.nodes@).contains(n) by {
        }
    }
    ws.unique_seq_to_set();
    if ws.len() == 0 {
        assert(worker_set(state.nodes@) =~= Set::<NodeId>::empty()) by {
            assert forall|n: NodeId| !#[trigger] worker_set(state.nodes@).contains(n) by {
            }
        }
    } else {
        assert(worker_set(state.nodes@) != Set::<NodeId>::empty()) by {
        }
        assert forall|pid: PartitionId| #[trigger] final_state.partitions@.mapping.dom().contains(pid) implies {
            let placed = final_state.partitions@.mapping[pid];
            &&& worker_set(state.nodes@).contains(placed.master)
            &&& forall|n: NodeId| #[trigger]
                placed.replicas.contains(n) ==> worker_set(state.nodes@).contains(n)
            &&& replication_factor <= worker_set(state.nodes@).len() ==> !placed.replicas.contains(
                placed.master,
            ) && placed.replicas.len() == replication_factor - 1
        } by {
            let k = last_placed(pid.0 as int, PARTITIONS_AMOUNT as int);
            lemma_placement_on_workers(ws, k, replication_factor as int);
            if replication_factor <= worker_set(state.nodes@).len() {
                lemma_replicas_distinct(ws, k, replication_factor as int);
            }
        }
    }
}

} // verus!

verus! {

/// Once the leader has placed the partitions for the present workers, a
/// placement step right after it, with the members unchanged, changes
/// nothing and sends nothing.
pub proof fn lemma_worker_partitions_settles(
    state: State,
    output: Seq<NodeProtocol>,
    next: State,
    next_output: Seq<NodeProtocol>,
    last: State,
    last_output: Seq<NodeProtocol>,
    me: NodeId,
    replication_factor: usize,
)
    requires
        state.wf(),
        worker_partitions_step(state, output, next, next_output, me, replication_factor),
        worker_partitions_step(next, next_output, last, last_output, me, replication_factor),
    ensures
        last == next,
        last_output == next_output,
{
    if state.elected_leader_id == Some(me) && worker_set(state.nodes@)
        != state.workers_with_calculated_partitions@ {
        let ws = worker_ids(state.nodes.pairs());
        lemma_worker_ids_members(state.nodes.pairs());
        if ws.len() == 0 {
            assert(worker_set(state.nodes@) =~= Set::<NodeId>::empty()) by {
                assert forall|n: NodeId| !#[trigger] worker_set(state.nodes@).contains(n) by {
                    if worker_set(state.nodes@).contains(n) {
                        assert(ws.contains(n));
                    }
                }
            }
        }
    }
}

} // verus!
