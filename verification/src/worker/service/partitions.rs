//! Hand-over of partitions between workers: who a worker syncs a partition
//! to, how a received batch is applied and acknowledged, and how the
//! acknowledgements decide what a sync round sends next.
use crate::collections::{
    lemma_pair_in_map, lemma_pairs_prefix_step, lemma_pairs_take_all, pairs_to_map, SortedMap,
    SortedSet,
};
use crate::collections::{lemma_take_step_contains, Keyed};
use crate::common::{Key, Me, Node, NodeId, PartitionId, Partitions, PartitionsView, PARTITIONS_AMOUNT};
use crate::worker::domain::{self,
    lemma_worker_views_push, worker_message_views, RecordView, SyncBatchRequest, WorkerMessage,
    WorkerProtocol,
};
use crate::worker::runtime_store::{self, after_put, partition_of, RuntimeStore, StoredRecord};
use crate::worker::service::state::{RecipientSyncs, State, SyncState};
use vstd::prelude::*;

verus! {

/// Hand-over progress after `sender` acknowledged key `ack`: the sync to the
/// sender is confirmed when it acknowledged the batch's greatest key.
pub open spec fn confirm(syncs: Map<NodeId, SyncState>, sender: NodeId, ack: Key) -> Map<NodeId, SyncState> {
    if syncs.dom().contains(sender) && syncs[sender].curr_max_key == ack {
        syncs.insert(sender, SyncState { confirmed: true, ..syncs[sender] })
    } else {
        syncs
    }
}

/// Hand-over progress after `sender` acknowledged, per partition, the
/// greatest key it applied.
pub open spec fn confirmed_syncs(
    sync: Map<PartitionId, Map<NodeId, SyncState>>,
    acks: Map<PartitionId, Key>,
    sender: NodeId,
) -> Map<PartitionId, Map<NodeId, SyncState>> {
    Map::new(
        |p: PartitionId| sync.dom().contains(p),
        |p: PartitionId|
            if acks.dom().contains(p) {
                confirm(sync[p], sender, acks[p])
            } else {
                sync[p]
            },
    )
}

/// Records the acknowledgement of `sender`: for each partition, the greatest
/// key it applied.
pub fn handle_sync_batch_response(
    state: &mut State,
    partition_id_to_max_applied_key: SortedMap<PartitionId, Key>,
    sender_id: NodeId,
)
    requires
        old(state).wf(),
        partition_id_to_max_applied_key.wf(),
    ensures
        final(state).wf(),
        final(state).sync@ == confirmed_syncs(
            old(state).sync@,
            partition_id_to_max_applied_key@,
            sender_id,
        ),
        final(state).epoch == old(state).epoch,
        final(state).elected_leader_id == old(state).elected_leader_id,
        final(state).nodes == old(state).nodes,
        final(state).partitions == old(state).partitions,
{
    let acks = partition_id_to_max_applied_key;
    let ghost pairs = acks.pairs();
    let ghost start = state.sync@;
    let mut i: usize = 0;
    while i < acks.len()
        invariant
            state.wf(),
            acks.wf(),
            acks.pairs() == pairs,
            i <= pairs.len(),
            state.sync@ == confirmed_syncs(start, pairs_to_map(pairs.take(i as int)), sender_id),
            state.epoch == old(state).epoch,
            state.elected_leader_id == old(state).elected_leader_id,
            state.nodes == old(state).nodes,
            state.partitions == old(state).partitions,
        decreases pairs.len() - i,
    {
        let pid = acks.key_at(i);
        let ack = *acks.value_at(i);
        proof {
            lemma_pairs_prefix_step(pairs, i as int);
        }
        if let Some(idx) = state.sync.find(&pid) {
            proof {
                lemma_pair_in_map(state.sync.pairs(), idx as int);
            }
            if let Some(j) = state.sync.value_at(idx).find(&sender_id) {
                proof {
                    lemma_pair_in_map(state.sync.pairs()[idx as int].1.pairs(), j as int);
                }
                let current = *state.sync.value_at(idx).value_at(j);
                if current.curr_max_key == ack {
                    let mut syncs = state.sync.replace_at(idx, SortedMap::new());
                    syncs.replace_at(j, SyncState { confirmed: true, ..current });
                    state.sync.replace_at(idx, syncs);
                    proof {
                        assert forall|t: int| 0 <= t < state.sync.pairs().len() implies (
                        #[trigger] state.sync.pairs()[t]).1.wf() by {
                        }
                    }
                }
            }
        }
        i += 1;
    }
    proof {
        lemma_pairs_take_all(pairs);
    }
}

/// The members a worker `me` has to hand partition `partition` to.  While
/// `me` still holds the partition from an earlier placement, it hands it to
/// every node of the current placement; once no old replica is left, a
/// worker of the current placement hands it to the newly added replicas,
/// unless it is one of them.  Only present members count.
pub open spec fn sync_targets(
    partition: PartitionId,
    me: NodeId,
    partitions: PartitionsView,
    nodes: Map<NodeId, Node>,
) -> Set<NodeId> {
    let old = partitions.old_replicas;
    let mapping = partitions.mapping;
    let new = partitions.new_replicas;
    let candidates = if old.dom().contains(partition) && old[partition].contains(me) {
        if mapping.dom().contains(partition) {
            mapping[partition].replicas.insert(mapping[partition].master).remove(me)
        } else {
            Set::<NodeId>::empty()
        }
    } else if (!old.dom().contains(partition) || old[partition] == Set::<NodeId>::empty())
        && mapping.dom().contains(partition) && (mapping[partition].master == me
        || mapping[partition].replicas.contains(me)) && new.dom().contains(partition)
        && !new[partition].contains(me) {
        new[partition]
    } else {
        Set::<NodeId>::empty()
    };
    Set::new(|n: NodeId| candidates.contains(n) && nodes.dom().contains(n))
}

/// Adds to `acc` the elements of `s` other than `me` that are members.
fn add_present(
    acc: &mut SortedSet<NodeId>,
    s: &SortedSet<NodeId>,
    me: NodeId,
    nodes: &SortedMap<NodeId, Node>,
)
    requires
        old(acc).wf(),
        s.wf(),
        nodes.wf(),
    ensures
        final(acc).wf(),
        final(acc)@ == old(acc)@.union(
            Set::new(|n: NodeId| s@.contains(n) && n != me && nodes@.dom().contains(n)),
        ),
{
    let mut j: usize = 0;
    while j < s.len()
        invariant
            acc.wf(),
            s.wf(),
            nodes.wf(),
            j <= s.elems().len(),
            acc@ == old(acc)@.union(
                Set::new(
                    |n: NodeId|
                        s.elems().take(j as int).contains(n) && n != me && nodes@.dom().contains(n),
                ),
            ),
        decreases s.elems().len() - j,
    {
        let n = s.get(j);
        if n != me && nodes.contains_key(&n) {
            acc.insert(n);
        }
        proof {
            assert forall|y: NodeId| #[trigger]
                s.elems().take(j + 1).contains(y) == (s.elems().take(j as int).contains(y) || y
                    == s.elems()[j as int]) by {
                if y == s.elems()[j as int] {
                    assert(s.elems().take(j + 1)[j as int] == y);
                }
            }
            assert(acc@ =~= old(acc)@.union(
                Set::new(
                    |x: NodeId|
                        s.elems().take(j + 1).contains(x) && x != me && nodes@.dom().contains(x),
                ),
            ));
        }
        j += 1;
    }
    assert(s.elems().take(s.elems().len() as int) =~= s.elems());
    assert(acc@ =~= old(acc)@.union(
        Set::new(|n: NodeId| s@.contains(n) && n != me && nodes@.dom().contains(n)),
    ));
}

/// The members that worker `me` has to hand partition `partition` to.
pub fn get_node_ids_curr_node_has_to_sync_the_partition_to(
    partition: PartitionId,
    me: &NodeId,
    partitions: &Partitions,
    cluster_nodes: &SortedMap<NodeId, Node>,
) -> (ids: SortedSet<NodeId>)
    requires
        partitions.wf(),
        cluster_nodes.wf(),
    ensures
        ids.wf(),
        ids@ == sync_targets(partition, *me, partitions@, cluster_nodes@),
{
    let me = *me;
    let mut ids: SortedSet<NodeId> = SortedSet::new();
    let old_entry = partitions.old_replicas.find(&partition);
    let holds_old = match old_entry {
        Some(i) => partitions.old_replicas.value_at(i).contains(&me),
        None => false,
    };
    let old_done = match old_entry {
        Some(i) => partitions.old_replicas.value_at(i).is_empty(),
        None => true,
    };
    proof {
        if let Some(i) = old_entry {
            lemma_pair_in_map(partitions.old_replicas.pairs(), i as int);
        }
    }
    let mapping_entry = partitions.mapping.find(&partition);
    proof {
        if let Some(k) = mapping_entry {
            lemma_pair_in_map(partitions.mapping.pairs(), k as int);
        }
    }
    if holds_old {
        if let Some(k) = mapping_entry {
            let p = partitions.mapping.value_at(k);
            if p.master != me && cluster_nodes.contains_key(&p.master) {
                ids.insert(p.master);
            }
            add_present(&mut ids, &p.replicas, me, cluster_nodes);
        }
    } else if old_done {
        if let Some(k) = mapping_entry {
            let p = partitions.mapping.value_at(k);
            if p.master == me || p.replicas.contains(&me) {
                if let Some(n) = partitions.new_replicas.find(&partition) {
                    proof {
                        lemma_pair_in_map(partitions.new_replicas.pairs(), n as int);
                    }
                    let new_set = partitions.new_replicas.value_at(n);
                    if !new_set.contains(&me) {
                        add_present(&mut ids, new_set, me, cluster_nodes);
                    }
                }
            }
        }
    }
    ids
}


/// The record that the store keeps for a travelling record.
pub open spec fn stored(r: RecordView) -> StoredRecord {
    StoredRecord { expiration_time_ms: r.ttl, creation_time_ms: r.creation_time_ms, value: r.value }
}

/// The store after the records of a batch were put, in order.
pub open spec fn store_after_batch(
    contents: Map<PartitionId, Map<Key, StoredRecord>>,
    records: Seq<RecordView>,
) -> Map<PartitionId, Map<Key, StoredRecord>>
    decreases records.len(),
{
    if records.len() == 0 {
        contents
    } else {
        let r = records.last();
        after_put(store_after_batch(contents, records.drop_last()), r.key, stored(r))
    }
}

/// For each partition that a record of the batch falls in, the greatest key
/// of the batch in that partition.
pub open spec fn max_applied_keys(records: Seq<RecordView>) -> Map<PartitionId, Key>
    decreases records.len(),
{
    if records.len() == 0 {
        Map::empty()
    } else {
        let m = max_applied_keys(records.drop_last());
        let k = records.last().key;
        let p = partition_of(k);
        if m.dom().contains(p) && k.0 <= m[p].0 {
            m
        } else {
            m.insert(p, k)
        }
    }
}

/// The acknowledgement of a batch names, for each partition the batch
/// touches and no other, a key of the batch in that partition that no other
/// key of the batch in that partition exceeds.
pub proof fn lemma_max_applied_keys(records: Seq<RecordView>)
    ensures
        forall|p: PartitionId| #[trigger]
            max_applied_keys(records).dom().contains(p) <==> exists|i: int|
                0 <= i < records.len() && partition_of(#[trigger] records[i].key) == p,
        forall|p: PartitionId| #[trigger]
            max_applied_keys(records).dom().contains(p) ==> exists|i: int|
                0 <= i < records.len() && #[trigger] records[i].key == max_applied_keys(records)[p],
        forall|p: PartitionId| #[trigger]
            max_applied_keys(records).dom().contains(p) ==> partition_of(max_applied_keys(records)[p])
                == p,
        forall|i: int|
            0 <= i < records.len() ==> (#[trigger] records[i]).key.0 <= max_applied_keys(
                records,
            )[partition_of(records[i].key)].0,
    decreases records.len(),
{
    if records.len() > 0 {
        let prefix = records.drop_last();
        lemma_max_applied_keys(prefix);
        let last = records.len() - 1;
        assert forall|i: int| 0 <= i < prefix.len() implies #[trigger] records[i] == prefix[i] by {}
        let m = max_applied_keys(records);
        let mp = max_applied_keys(prefix);
        assert forall|p: PartitionId| #[trigger] m.dom().contains(p) <==> exists|i: int|
            0 <= i < records.len() && partition_of(#[trigger] records[i].key) == p by {
        }
        assert forall|p: PartitionId| #[trigger] m.dom().contains(p) implies exists|i: int|
            0 <= i < records.len() && #[trigger] records[i].key == m[p] by {
        }
        assert forall|i: int| 0 <= i < records.len() implies (#[trigger] records[i]).key.0 <= m[partition_of(
            records[i].key,
        )].0 by {
        }
    }
}

/// Applies a batch of records handed over by another worker, each with the
/// store's own rule for newer records, and acknowledges to the sender the
/// greatest key applied in each partition.
pub fn handle_sync_batch(
    output: &mut Vec<WorkerProtocol>,
    sync_batch_request: &SyncBatchRequest,
    runtime_store: &mut RuntimeStore,
)
    requires
        old(runtime_store).wf(),
    ensures
        final(runtime_store).wf(),
        final(runtime_store).contents() == store_after_batch(
            old(runtime_store).contents(),
            sync_batch_request.records@.map_values(|r: domain::Record| r@),
        ),
        worker_message_views(final(output)@) == worker_message_views(old(output)@).push(
            WorkerMessage::SyncBatchResponse {
                recipient_id: sync_batch_request.sender_id,
                partition_id_to_max_applied_key: max_applied_keys(
                    sync_batch_request.records@.map_values(|r: domain::Record| r@),
                ),
            },
        ),
{
    let records = &sync_batch_request.records;
    let ghost views = records@.map_values(|r: domain::Record| r@);
    let ghost start = runtime_store.contents();
    let mut acks: SortedMap<PartitionId, Key> = SortedMap::new();
    let mut i: usize = 0;
    while i < records.len()
        invariant
            i <= records@.len(),
            views == records@.map_values(|r: domain::Record| r@),
            runtime_store.wf(),
            runtime_store.contents() == store_after_batch(start, views.take(i as int)),
            acks.wf(),
            acks@ == max_applied_keys(views.take(i as int)),
        decreases records@.len() - i,
    {
        let record = &records[i];
        let key = record.key;
        let value = record.value.clone();
        runtime_store.put(
            key,
            runtime_store::Record {
                value,
                expiration_time_ms: record.ttl,
                creation_time_ms: record.creation_time_ms,
            },
        );
        let partition = PartitionId::from(key);
        let raise = match acks.get(&partition) {
            Some(current) => current.0 < key.0,
            None => true,
        };
        if raise {
            acks.insert(partition, key);
        }
        proof {
            let next = views.take(i + 1);
            assert(next.drop_last() =~= views.take(i as int));
        }
        i += 1;
    }
    assert(views.take(records@.len() as int) =~= views);
    let m = WorkerProtocol::SyncBatchResponse {
        recipient_id: sync_batch_request.sender_id,
        partition_id_to_max_applied_key: acks,
    };
    proof {
        lemma_worker_views_push(output@, m);
    }
    output.push(m);
}

} // verus!

verus! {

/// A worker never hands a partition to itself, and only to present members.
pub proof fn lemma_sync_targets_other_members(
    partition: PartitionId,
    me: NodeId,
    partitions: PartitionsView,
    nodes: Map<NodeId, Node>,
)
    ensures
        !sync_targets(partition, me, partitions, nodes).contains(me),
        forall|n: NodeId| #[trigger]
            sync_targets(partition, me, partitions, nodes).contains(n) ==> nodes.dom().contains(n),
{
}

} // verus!

verus! {

/// How long, in milliseconds, a batch may go unacknowledged before it is sent
/// again.
pub const SYNC_TIMEOUT_MS: u64 = 60000;

/// What a sync round does for one recipient of a partition.
#[derive(Debug, Clone, Copy, PartialEq, Eq, Structural)]
pub enum SyncPlan {
    /// The recipient left the cluster: its progress is forgotten.
    Forget,
    /// Nothing was sent yet: a first batch goes out.
    Start,
    /// The last batch was acknowledged: the next one goes out, after the
    /// greatest key of the last one.
    Next { after_key: Key },
    /// The last batch went unacknowledged for too long: it is sent again,
    /// after the greatest key of the batch before it.
    Retry { after_key: Option<Key> },
    /// The last batch is still awaiting its acknowledgement.
    Wait,
}

/// The step a sync round takes for a recipient with the given progress, at
/// time `now`.
pub open spec fn sync_plan(progress: Option<SyncState>, member: bool, now: u64) -> SyncPlan {
    if !member {
        SyncPlan::Forget
    } else {
        match progress {
            None => SyncPlan::Start,
            Some(p) => if p.confirmed {
                SyncPlan::Next { after_key: p.curr_max_key }
            } else if now - p.last_start_time >= SYNC_TIMEOUT_MS {
                SyncPlan::Retry { after_key: p.prev_max_key }
            } else {
                SyncPlan::Wait
            },
        }
    }
}

/// Decides the step of a sync round for one recipient of a partition, given
/// its progress, whether it is still a member, and the time.
pub fn plan_sync(progress: Option<SyncState>, member: bool, now: u64) -> (plan: SyncPlan)
    requires
        progress matches Some(p) ==> p.last_start_time <= now,
    ensures
        plan == sync_plan(progress, member, now),
{
    if !member {
        SyncPlan::Forget
    } else {
        match progress {
            None => SyncPlan::Start,
            Some(p) => if p.confirmed {
                SyncPlan::Next { after_key: p.curr_max_key }
            } else if now - p.last_start_time >= SYNC_TIMEOUT_MS {
                SyncPlan::Retry { after_key: p.prev_max_key }
            } else {
                SyncPlan::Wait
            },
        }
    }
}

/// The progress of a recipient after the step `plan`, where the batch sent,
/// if any, ends at `new_max_key` and went out at `now`.
pub open spec fn progress_after(
    progress: Option<SyncState>,
    plan: SyncPlan,
    new_max_key: Key,
    now: u64,
) -> Option<SyncState> {
    match plan {
        SyncPlan::Forget => None,
        SyncPlan::Wait => progress,
        SyncPlan::Start => Some(
            SyncState { prev_max_key: None, curr_max_key: new_max_key, confirmed: false, last_start_time: now },
        ),
        SyncPlan::Next { .. } => Some(
            SyncState {
                prev_max_key: Some(progress->0.curr_max_key),
                curr_max_key: new_max_key,
                confirmed: false,
                last_start_time: now,
            },
        ),
        SyncPlan::Retry { .. } => Some(
            SyncState { curr_max_key: new_max_key, confirmed: false, last_start_time: now, ..progress->0 },
        ),
    }
}

/// Records the step `plan` in a recipient's progress.
pub fn record_sync(progress: Option<SyncState>, plan: SyncPlan, new_max_key: Key, now: u64) -> (after: Option<SyncState>)
    requires
        plan is Next || plan is Retry ==> progress is Some,
    ensures
        after == progress_after(progress, plan, new_max_key, now),
{
    match plan {
        SyncPlan::Forget => None,
        SyncPlan::Wait => progress,
        SyncPlan::Start => Some(
            SyncState { prev_max_key: None, curr_max_key: new_max_key, confirmed: false, last_start_time: now },
        ),
        SyncPlan::Next { .. } => {
            let p = progress.unwrap();
            Some(
                SyncState {
                    prev_max_key: Some(p.curr_max_key),
                    curr_max_key: new_max_key,
                    confirmed: false,
                    last_start_time: now,
                },
            )
        },
        SyncPlan::Retry { .. } => {
            let p = progress.unwrap();
            Some(SyncState { curr_max_key: new_max_key, confirmed: false, last_start_time: now, ..p })
        },
    }
}

/// The next batch goes out to a recipient only once it acknowledged the last
/// one, and the last one is sent again only after it went unacknowledged for
/// the whole timeout.
pub proof fn lemma_next_batch_needs_ack(progress: Option<SyncState>, member: bool, now: u64)
    ensures
        sync_plan(progress, member, now) is Next ==> (progress matches Some(p) && p.confirmed),
        sync_plan(progress, member, now) is Retry ==> (progress matches Some(p) && !p.confirmed
            && now - p.last_start_time >= SYNC_TIMEOUT_MS),
{
}

} // verus!

verus! {

/// What the store holds under `key` in partition `p`, if anything.
pub open spec fn entry(
    contents: Map<PartitionId, Map<Key, StoredRecord>>,
    p: PartitionId,
    key: Key,
) -> Option<StoredRecord> {
    if contents.dom().contains(p) && contents[p].dom().contains(key) {
        Some(contents[p][key])
    } else {
        None
    }
}

/// The record a key ends up with when the records of a batch are put, in
/// order, over `held`.
pub open spec fn kept(held: Option<StoredRecord>, records: Seq<RecordView>, key: Key) -> Option<StoredRecord>
    decreases records.len(),
{
    if records.len() == 0 {
        held
    } else {
        let prev = kept(held, records.drop_last(), key);
        let r = records.last();
        if r.key == key && !(prev matches Some(x) && x.creation_time_ms > r.creation_time_ms) {
            Some(stored(r))
        } else {
            prev
        }
    }
}

/// The last of the batch's records of `key` among those created last.
pub open spec fn newest_of(records: Seq<RecordView>, key: Key) -> Option<RecordView>
    decreases records.len(),
{
    if records.len() == 0 {
        None
    } else {
        let b = newest_of(records.drop_last(), key);
        let r = records.last();
        if r.key == key && (b matches Some(x) ==> x.creation_time_ms <= r.creation_time_ms) {
            Some(r)
        } else {
            b
        }
    }
}

/// A key keeps what it held if that was created after every record of the
/// batch for it; otherwise it gets the newest of those records.
proof fn lemma_kept_is_newest(held: Option<StoredRecord>, records: Seq<RecordView>, key: Key)
    ensures
        kept(held, records, key) == match newest_of(records, key) {
            None => held,
            Some(b) => if held matches Some(x) && x.creation_time_ms > b.creation_time_ms {
                held
            } else {
                Some(stored(b))
            },
        },
    decreases records.len(),
{
    if records.len() > 0 {
        lemma_kept_is_newest(held, records.drop_last(), key);
    }
}

/// Putting the records of a batch a second time keeps what the first time
/// left, key by key.
proof fn lemma_kept_idempotent(held: Option<StoredRecord>, records: Seq<RecordView>, key: Key)
    ensures
        kept(kept(held, records, key), records, key) == kept(held, records, key),
{
    lemma_kept_is_newest(held, records, key);
    lemma_kept_is_newest(kept(held, records, key), records, key);
}

/// The store after a batch, partition by partition and key by key: a
/// partition is there if it was or a record of the batch falls in it, and a
/// key gets what `kept` says where it lies in its own partition.
proof fn lemma_store_after_batch_entries(
    contents: Map<PartitionId, Map<Key, StoredRecord>>,
    records: Seq<RecordView>,
)
    ensures
        forall|p: PartitionId| #[trigger]
            store_after_batch(contents, records).dom().contains(p) <==> (contents.dom().contains(p)
                || exists|i: int| 0 <= i < records.len() && partition_of(#[trigger] records[i].key) == p),
        forall|p: PartitionId, k: Key| #[trigger]
            entry(store_after_batch(contents, records), p, k) == if partition_of(k) == p {
                kept(entry(contents, p, k), records, k)
            } else {
                entry(contents, p, k)
            },
    decreases records.len(),
{
    if records.len() > 0 {
        let prefix = records.drop_last();
        let last = records.len() - 1;
        lemma_store_after_batch_entries(contents, prefix);
        let before = store_after_batch(contents, prefix);
        let after = store_after_batch(contents, records);
        assert forall|p: PartitionId| #[trigger] after.dom().contains(p) <==> (contents.dom().contains(p)
            || exists|i: int| 0 <= i < records.len() && partition_of(#[trigger] records[i].key) == p) by {
            if exists|i: int| 0 <= i < records.len() && partition_of(#[trigger] records[i].key) == p {
                let i = choose|i: int| 0 <= i < records.len() && partition_of(#[trigger] records[i].key) == p;
                if i < last {
                    assert(prefix[i] == records[i]);
                }
            }
        }
        assert forall|p: PartitionId, k: Key| #[trigger]
            entry(after, p, k) == if partition_of(k) == p {
                kept(entry(contents, p, k), records, k)
            } else {
                entry(contents, p, k)
            } by {
            assert(entry(before, p, k) == if partition_of(k) == p {
                kept(entry(contents, p, k), prefix, k)
            } else {
                entry(contents, p, k)
            });
        }
    }
}

/// Applying the same batch twice, as when a sync is sent again after its
/// acknowledgement was lost, leaves the store as applying it once.
pub proof fn lemma_batch_idempotent(
    contents: Map<PartitionId, Map<Key, StoredRecord>>,
    records: Seq<RecordView>,
)
    ensures
        store_after_batch(store_after_batch(contents, records), records) == store_after_batch(
            contents,
            records,
        ),
{
    let once = store_after_batch(contents, records);
    let twice = store_after_batch(once, records);
    lemma_store_after_batch_entries(contents, records);
    lemma_store_after_batch_entries(once, records);
    assert forall|p: PartitionId| twice.dom().contains(p) implies #[trigger] twice[p] == once[p] by {
        assert forall|k: Key| #[trigger] twice[p].dom().contains(k) == once[p].dom().contains(k)
            && (twice[p].dom().contains(k) ==> twice[p][k] == once[p][k]) by {
            assert(entry(twice, p, k) == entry(once, p, k)) by {
                if partition_of(k) == p {
                    lemma_kept_idempotent(entry(contents, p, k), records, k);
                }
            }
        }
    }
}

} // verus!

verus! {

/// The hand-over progress recorded for `recipient` on `partition`, if any.
pub open spec fn progress_of(
    sync: Map<PartitionId, Map<NodeId, SyncState>>,
    partition: PartitionId,
    recipient: NodeId,
) -> Option<SyncState> {
    if sync.dom().contains(partition) && sync[partition].dom().contains(recipient) {
        Some(sync[partition][recipient])
    } else {
        None
    }
}

/// One step of a sync round: what is done for one recipient of one
/// partition.
#[derive(Debug, Clone, Copy, PartialEq, Eq, Structural)]
pub struct SyncAction {
    pub partition: PartitionId,
    pub recipient: NodeId,
    pub plan: SyncPlan,
}

/// Whether `action` is a step of the sync round at time `now`: its partition
/// is one of the key space's, holds records and is to be handed to the
/// recipient, and its plan is what the recipient's progress calls for.
pub open spec fn in_sync_round(
    state: State,
    held: Set<PartitionId>,
    me: NodeId,
    now: u64,
    action: SyncAction,
) -> bool {
    &&& action.partition.0 < PARTITIONS_AMOUNT
    &&& held.contains(action.partition)
    &&& sync_targets(action.partition, me, state.partitions@, state.nodes@).contains(action.recipient)
    &&& action.plan == sync_plan(
        progress_of(state.sync@, action.partition, action.recipient),
        state.nodes@.dom().contains(action.recipient),
        now,
    )
}

/// Whether `a` comes before `b`: by partition, then by recipient.
pub open spec fn action_before(a: SyncAction, b: SyncAction) -> bool {
    a.partition.0 < b.partition.0 || (a.partition.0 == b.partition.0 && a.recipient.rank()
        < b.recipient.rank())
}

/// Every recorded progress started no later than `now`.
pub open spec fn progress_started_by(sync: Map<PartitionId, Map<NodeId, SyncState>>, now: u64) -> bool {
    forall|p: PartitionId, r: NodeId| #[trigger]
        progress_of(sync, p, r) matches Some(st) ==> st.last_start_time <= now
}

/// Looks up the progress recorded for `recipient` on `partition`.
fn find_progress(state: &State, partition: PartitionId, recipient: NodeId) -> (res: Option<SyncState>)
    requires
        state.wf(),
    ensures
        res == progress_of(state.sync@, partition, recipient),
{
    match state.sync.find(&partition) {
        Some(idx) => {
            proof {
                lemma_pair_in_map(state.sync.pairs(), idx as int);
            }
            let recipients = state.sync.value_at(idx);
            match recipients.get(&recipient) {
                Some(st) => Some(*st),
                None => None,
            }
        },
        None => None,
    }
}

/// The steps of a sync round at time `now`, over the partitions that hold
/// records in `store`, in increasing partition order and, within a
/// partition, in increasing recipient order.
pub fn plan_sync_round(state: &State, store: &RuntimeStore, me: &Me, now: u64) -> (actions: Vec<
    SyncAction,
>)
    requires
        state.wf(),
        progress_started_by(state.sync@, now),
    ensures
        forall|a: SyncAction| #[trigger]
            actions@.contains(a) <==> in_sync_round(*state, store.contents().dom(), me.id, now, a),
        forall|i: int, j: int|
            0 <= i < j < actions@.len() ==> action_before(#[trigger] actions@[i], #[trigger] actions@[j]),
{
    let ghost held = store.contents().dom();
    let mut actions: Vec<SyncAction> = Vec::new();
    let mut pid: usize = 0;
    while pid < PARTITIONS_AMOUNT
        invariant
            state.wf(),
            progress_started_by(state.sync@, now),
            held == store.contents().dom(),
            pid <= PARTITIONS_AMOUNT,
            forall|a: SyncAction| #[trigger]
                actions@.contains(a) <==> (in_sync_round(*state, held, me.id, now, a) && a.partition.0
                    < pid),
            forall|i: int| 0 <= i < actions@.len() ==> (#[trigger] actions@[i]).partition.0 < pid,
            forall|i: int, j: int|
                0 <= i < j < actions@.len() ==> action_before(#[trigger] actions@[i], #[trigger] actions@[j]),
        decreases PARTITIONS_AMOUNT - pid,
    {
        let partition = PartitionId(pid as u16);
        if store.contains_partition(partition) {
            let targets = get_node_ids_curr_node_has_to_sync_the_partition_to(
                partition,
                &me.id,
                &state.partitions,
                &state.nodes,
            );
            let ghost before = actions@;
            let mut j: usize = 0;
            while j < targets.len()
                invariant
                    state.wf(),
                    progress_started_by(state.sync@, now),
                    held == store.contents().dom(),
                    pid < PARTITIONS_AMOUNT,
                    partition == PartitionId(pid as u16),
                    held.contains(partition),
                    targets.wf(),
                    targets@ == sync_targets(partition, me.id, state.partitions@, state.nodes@),
                    j <= targets.elems().len(),
                    forall|a: SyncAction| #[trigger]
                        actions@.contains(a) <==> ((in_sync_round(*state, held, me.id, now, a)
                            && a.partition.0 < pid) || (in_sync_round(*state, held, me.id, now, a)
                            && a.partition == partition && targets.elems().take(j as int).contains(
                            a.recipient,
                        ))),
                    forall|i: int|
                        0 <= i < actions@.len() ==> (#[trigger] actions@[i]).partition.0 < pid || (
                        actions@[i].partition == partition && targets.elems().take(j as int).contains(
                            actions@[i].recipient,
                        )),
                    forall|i: int, k: int|
                        0 <= i < j <= k < targets.elems().len() ==> (#[trigger] targets.elems()[i]).rank()
                            < (#[trigger] targets.elems()[k]).rank(),
                    forall|i: int, k: int|
                        0 <= i < k < actions@.len() ==> action_before(#[trigger] actions@[i], #[trigger] actions@[k]),
                decreases targets.elems().len() - j,
            {
                let recipient = targets.get(j);
                let progress = find_progress(state, partition, recipient);
                let member = state.nodes.contains_key(&recipient);
                let plan = plan_sync(progress, member, now);
                let action = SyncAction { partition, recipient, plan };
                let ghost prev = actions@;
                proof {
                    assert(targets@.contains(recipient));
                    lemma_take_step_contains(targets.elems(), j as int);
                    assert forall|i: int| 0 <= i < prev.len() implies action_before(#[trigger] prev[i], action) by {
                        if prev[i].partition == partition {
                            let t = choose|t: int| 0 <= t < j && targets.elems().take(j as int)[t] == prev[i].recipient;
                            assert(targets.elems()[t] == prev[i].recipient);
                        }
                    }
                }
                actions.push(action);
                proof {
                    assert forall|a: SyncAction| #[trigger]
                        actions@.contains(a) <==> ((in_sync_round(*state, held, me.id, now, a)
                            && a.partition.0 < pid) || (in_sync_round(*state, held, me.id, now, a)
                            && a.partition == partition && targets.elems().take(j + 1).contains(
                            a.recipient,
                        ))) by {
                        if actions@.contains(a) && a != action {
                            let t = choose|t: int| 0 <= t < actions@.len() && actions@[t] == a;
                            assert(prev[t] == a);
                        }
                        if prev.contains(a) {
                            let t = choose|t: int| 0 <= t < prev.len() && prev[t] == a;
                            assert(actions@[t] == a);
                        }
                        if a == action {
                            assert(actions@[prev.len() as int] == a);
                        }
                        if in_sync_round(*state, held, me.id, now, a) && a.partition == partition
                            && targets.elems().take(j + 1).contains(a.recipient) && !targets.elems().take(
                            j as int,
                        ).contains(a.recipient) {
                            assert(a.recipient == recipient);
                            assert(a == action);
                        }
                    }
                }
                j += 1;
            }
            proof {
                assert(targets.elems().take(targets.elems().len() as int) =~= targets.elems());
                assert forall|a: SyncAction| #[trigger]
                    actions@.contains(a) <==> (in_sync_round(*state, held, me.id, now, a)
                        && a.partition.0 < pid + 1) by {
                    if in_sync_round(*state, held, me.id, now, a) && a.partition.0 == pid {
                        assert(a.partition == partition);
                        assert(targets@.contains(a.recipient));
                    }
                }
            }
        } else {
            proof {
                assert forall|a: SyncAction| #[trigger]
                    actions@.contains(a) <==> (in_sync_round(*state, held, me.id, now, a)
                        && a.partition.0 < pid + 1) by {
                    if in_sync_round(*state, held, me.id, now, a) && a.partition.0 == pid {
                        assert(a.partition == partition);
                    }
                }
            }
        }
        pid += 1;
    }
    actions
}

} // verus!

verus! {

/// The hand-over progress with `recipient` on `partition` set to `progress`,
/// or forgotten where it is `None`.
pub open spec fn with_progress(
    sync: Map<PartitionId, Map<NodeId, SyncState>>,
    partition: PartitionId,
    recipient: NodeId,
    progress: Option<SyncState>,
) -> Map<PartitionId, Map<NodeId, SyncState>> {
    match progress {
        Some(st) => sync.insert(
            partition,
            (if sync.dom().contains(partition) {
                sync[partition]
            } else {
                Map::<NodeId, SyncState>::empty()
            }).insert(recipient, st),
        ),
        None => if sync.dom().contains(partition) {
            sync.insert(partition, sync[partition].remove(recipient))
        } else {
            sync
        },
    }
}

/// The hand-over progress after one step of a round whose batch, if one was
/// sent, ends at `new_max_key`.  A step that continues a hand-over of which
/// nothing is recorded changes nothing.
pub open spec fn sync_after(
    sync: Map<PartitionId, Map<NodeId, SyncState>>,
    action: SyncAction,
    new_max_key: Key,
    now: u64,
) -> Map<PartitionId, Map<NodeId, SyncState>> {
    let progress = progress_of(sync, action.partition, action.recipient);
    if (action.plan is Next || action.plan is Retry) && progress is None {
        sync
    } else {
        with_progress(
            sync,
            action.partition,
            action.recipient,
            progress_after(progress, action.plan, new_max_key, now),
        )
    }
}

/// The hand-over progress after the first `n` steps of a round.
pub open spec fn sync_after_steps(
    sync: Map<PartitionId, Map<NodeId, SyncState>>,
    actions: Seq<SyncAction>,
    new_max_keys: Seq<Key>,
    now: u64,
    n: nat,
) -> Map<PartitionId, Map<NodeId, SyncState>>
    decreases n,
{
    if n == 0 {
        sync
    } else {
        sync_after(
            sync_after_steps(sync, actions, new_max_keys, now, (n - 1) as nat),
            actions[n - 1],
            new_max_keys[n - 1],
            now,
        )
    }
}

/// Records `progress` for `recipient` on `partition`, or forgets it.
fn set_progress(state: &mut State, partition: PartitionId, recipient: NodeId, progress: Option<SyncState>)
    requires
        old(state).wf(),
    ensures
        final(state).wf(),
        final(state).sync@ == with_progress(old(state).sync@, partition, recipient, progress),
        final(state).epoch == old(state).epoch,
        final(state).elected_leader_id == old(state).elected_leader_id,
        final(state).nodes == old(state).nodes,
        final(state).partitions == old(state).partitions,
{
    match state.sync.find(&partition) {
        Some(idx) => {
            proof {
                lemma_pair_in_map(state.sync.pairs(), idx as int);
            }
            let mut recipients = state.sync.replace_at(idx, SortedMap::new());
            match progress {
                Some(st) => {
                    recipients.insert(recipient, st);
                },
                None => {
                    recipients.remove(&recipient);
                },
            }
            state.sync.replace_at(idx, recipients);
            proof {
                assert forall|t: int| 0 <= t < state.sync.pairs().len() implies (
                #[trigger] state.sync.pairs()[t]).1.wf() by {
                }
                assert(state.sync@ =~= with_progress(old(state).sync@, partition, recipient, progress));
            }
        },
        None => {
            match progress {
                Some(st) => {
                    let mut recipients: RecipientSyncs = SortedMap::new();
                    recipients.insert(recipient, st);
                    let ghost before = state.sync.pairs();
                    state.sync.insert(partition, recipients);
                    proof {
                        assert forall|t: int| 0 <= t < state.sync.pairs().len() implies (
                        #[trigger] state.sync.pairs()[t]).1.wf() by {
                            if state.sync.pairs()[t] != (partition, recipients) {
                                let u = choose|u: int| 0 <= u < before.len() && before[u] == state.sync.pairs()[t];
                                assert(before[u].1.wf());
                            }
                        }
                        assert(state.sync@ =~= with_progress(old(state).sync@, partition, recipient, progress));
                    }
                },
                None => {},
            }
        },
    }
}

/// Records the steps of a round in the hand-over progress: the batch sent
/// for `actions[i]`, if any, ends at `new_max_keys[i]` and went out at `now`.
pub fn apply_sync_round(state: &mut State, actions: &[SyncAction], new_max_keys: &[Key], now: u64)
    requires
        old(state).wf(),
        actions@.len() == new_max_keys@.len(),
    ensures
        final(state).wf(),
        final(state).sync@ == sync_after_steps(
            old(state).sync@,
            actions@,
            new_max_keys@,
            now,
            actions@.len(),
        ),
        final(state).epoch == old(state).epoch,
        final(state).elected_leader_id == old(state).elected_leader_id,
        final(state).nodes == old(state).nodes,
        final(state).partitions == old(state).partitions,
{
    let ghost start = state.sync@;
    let mut i: usize = 0;
    while i < actions.len()
        invariant
            state.wf(),
            actions@.len() == new_max_keys@.len(),
            i <= actions@.len(),
            state.sync@ == sync_after_steps(start, actions@, new_max_keys@, now, i as nat),
            state.epoch == old(state).epoch,
            state.elected_leader_id == old(state).elected_leader_id,
            state.nodes == old(state).nodes,
            state.partitions == old(state).partitions,
        decreases actions@.len() - i,
    {
        let action = actions[i];
        let progress = find_progress(state, action.partition, action.recipient);
        let continues = match action.plan {
            SyncPlan::Next { .. } => true,
            SyncPlan::Retry { .. } => true,
            _ => false,
        };
        if !(continues && progress.is_none()) {
            let after = record_sync(progress, action.plan, new_max_keys[i], now);
            set_progress(state, action.partition, action.recipient, after);
        }
        i += 1;
    }
}

} // verus!
