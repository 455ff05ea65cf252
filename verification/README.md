# hermesmq

A message queue that is replicated with Raft: topics with an ordered log of messages,
consumer groups with leases and redelivery, priorities, pacing, retention and idempotent
producing. `src/` is the library, verified with Verus; `app/` is the server daemon around
it.

## The library

| Modules | What they hold |
|---|---|
| `types`, `command`, `error` | names, messages, the commands of the replicated log and their answers |
| `model` | the queue as mathematics: what each command makes of it |
| `queue`, `topic`, `group`, `select`, `names`, `tree` | the queue itself |
| `snapshot` | the queue as plain data, and back |
| `state_machine`, `machine_store` | the log applied to the queue, and the snapshots that are kept of it |
| `storage`, `codec`, `log_store`, `recovery` | the store, the log on its way to it, and how a damaged store is made consistent |
| `rate` | token buckets |
| `protocol`, `requests`, `polling`, `batching` | requests and answers, polls, batches of messages and acks |
| `subscription`, `tracking` | push delivery, lease refreshes and late acks |
| `frame`, `http`, `peers` | frames, the HTTP pages, calls to other nodes |
| `delivery_laws`, `drain_laws`, `lifecycle_laws`, `produce_laws`, `group_laws`, `batch_laws` | what holds of the queue as a whole |
| `history_laws`, `consumer_laws` | what holds of it over any history of commands |
| `tracking_laws`, `flush_laws` | what holds of subscriptions, and of the entries on their way to the store |
| `queue_lemmas`, `topic_lemmas`, `seqs`, `totals`, `text` | lemmas and helpers |

Every command is a function of the queue and the command alone (`QueueView::step`), so
nodes that apply the same log are in the same state.

What is not proved but believed is marked `external_body` and says in its comment which
outside function it calls. The contracts of the `Storage` trait are what its
implementations owe.

## The daemon

`app/` reads the command line, listens for clients, peers and HTTP, stores with redb, and
lets openraft replicate the log. It takes its decisions from the library: it performs the
action that a function returns and hands the outcome back.
