# talent_plan

Verified building blocks of distributed storage, written in Verus.

- `src/raft`: a Raft node as a state machine driven by clock ticks and
  messages, with its persistent-state layout and the laws it keeps (terms
  never decrease, one vote per term and so one leader per term, committed
  entries stay, leaders only append, an accepted append holds the leader's
  entries, restoring undoes saving), and a model of a whole cluster over
  which election safety is proved: in no term do two nodes lead, at one
  moment or at any two.
- `src/kvraft`: a key/value service replicated with Raft: the command and
  snapshot layouts, the state machine that applies each client operation
  once, the server (a new leader commits an empty read so that earlier
  entries commit without client traffic) and the clerk, and the checks on
  concurrent appends.
- `src/percolator`: a Percolator-style transactional store: the three-column
  table, the storage server's snapshot reads and two-phase commit with lock
  clean-up, the timestamp oracle and the client's commit plan.
- `src/kvs`: a single-node key/value store: the in-memory store, the request
  server, and the index and log generations of the log-structured store,
  with its laws (reloading a log rebuilds the index its writes built, the
  last command on a key decides its entry, reopening after a compaction
  finds every live key).
- `src/linearizability`: the operations, events and model interface of a
  linearizability checker.

`app/` holds the `kvs` program: a TCP client and server, the on-disk
log-structured store and a sled engine, and thread pools. `tests/` runs the
library, including Raft and key/value clusters on a simulated network.
