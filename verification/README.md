# raft

A Raft consensus core in Verus: leader election with random timeouts, log
replication and commit, snapshots, deduplication of client requests and an
orderly shutdown.

The library decides; it performs no I/O. A driver feeds events to
`raft::RaftNode`, carries out what each reaction asks for (storage operations,
messages, answers to clients) and owns timers and channels. `app/` holds such a
driver on tokio.

## Layout

- `types`, `messages`, `traits`: identifiers, commands, messages, the state
  machine of the user.
- `log`, `table`, `bytes`, `text`: the in-memory log and small helpers.
- `model`: a node as a mathematical value, and what each event does to it.
- `election`, `replication`, `apply`, `sessions`, `snapshot`, `recovery`,
  `events`: the node. The contract of each function says that it does what the
  model says.
- `client`: the session of a client.
- `consistency`, `history`, `agreement`, `dedup`, `quorum`, `cluster`,
  `matching`, `safety`, `identity`, `storage`: what follows for one node, for two,
  and for a whole cluster.

## What is proved of a cluster

- A term has at most one leader, as long as a candidate counts only votes of its
  own term (`cluster`). The library does not see to that itself:
  `handle_vote_response` counts every granted vote that it is given. The driver
  aborts the requests of an election when the next one starts, but an answer that
  is already on its way to the candidate can still be counted.
- A node keeps the vote that it gave in a term for as long as it is in it, and
  its storage has that vote (`history`).
- Logs that share an entry share everything before it, as long as no snapshot
  takes the place of an entry of another term (`matching`).
- What is committed anywhere is the same everywhere and is in the log of every
  later leader (`safety`), as long as no node takes a request of a leader after a
  later one of the same leader, no node reports success for entries that start
  inside its snapshot and go beyond it, no leader counts an answer from an
  earlier term, no snapshot takes the place of an entry of another term, and no
  node makes a snapshot that goes beyond what it has committed.
- A node that starts again has its term, its vote and its log (`history`,
  `storage`), as long as its storage puts what is appended to the log in the place
  of every entry from the first index on. The theorems on clusters rest on that
  too: a storage that only adds entries at its end gives back entries that a
  leader has replaced.
- A state machine that is restored from a snapshot and carries out what follows
  is in the state of one that has carried out everything (`agreement`, `safety`),
  as long as a snapshot holds the whole state and is made of the entries up to its
  index. The driver makes it in the background; entries that are applied before it
  comes to that are in the snapshot as well.
- No node gives out an id that it has given out before or that an entry of its
  log has had, until it starts again (`dedup`). In the whole cluster no two
  clients have the same id, as long as who wins an election knows the ids of the
  registrations in its snapshot (`identity`).

The conditions are spelled out in `ClusterView::can_step`, `ClusterView::sound`
and `ClusterView::winner_knows_ids`; a transport that keeps the order of messages
meets the first one of `sound`.

## Known limits

- The members of the cluster are fixed.
- All reads go through the log.
- A leader that crashes before it has saved what it knows of its clients may
  carry out a repeated request a second time.
- A snapshot carries no ids of clients. A node that starts again, or that takes a
  snapshot of another node, and that has no saved state of the clients, knows only
  the ids in the log after the snapshot.
- A node without peers never becomes a leader.
