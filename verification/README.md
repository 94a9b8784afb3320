# cluster_manager

Cluster membership, leader election, partition placement and a partitioned
record store for a cluster of manager and worker nodes, written in Verus.

The manager nodes keep the membership of the cluster, elect a leader among
themselves, and the leader places every partition of the key space on the
workers. Workers keep their records in memory and hand partitions over to
one another when the placement changes.

## Layout

- `src/` is the verified library.
  - `collections.rs`: sorted sets and maps keyed by node identities and
    partition numbers, with their views as `Set` and `Map`.
  - `cli.rs`: the command-line arguments and the replication-factor parser.
  - `common.rs`: node identities, members, partition tables, configuration.
  - `manager/`: the manager's messages, its state and the state machine:
    connections, heartbeats, cluster snapshots, elections and placement,
    and how the events of its peer connections become messages and where
    its messages go out.
  - `worker/`: the worker's messages, its record store and its state
    machine, with the hand-over of partitions between workers.
- `tests/` runs the library on concrete values.
- `app/` is the node program: argument parsing and the event loops that
  drive the state machines. It carries no network transport: nothing feeds
  the manager's inbound channel, what the state machine sends is only
  logged, and a worker checks its manager address and returns.

Each state machine step is specified as a relation between the state and
output before and after it; readings of the clock and random draws are
parameters of the step, so that every outcome is covered. The laws of the
library are proof functions next to the code they are about: no message but
a vote completing an older election lowers the epoch a manager knows, a
leader is only declared after every other manager voted, a read after a
write gives the newest record, puts converge whatever their order, and
placement keeps the copies of a partition on distinct workers, among others.
