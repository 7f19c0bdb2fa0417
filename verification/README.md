# tempo-replay

Relays finalized Tempo traffic, byte for byte, to a shadow chain and keeps evidence of what became
of it. The library under `src/` is the part that decides: it is written in Verus, and every function
of it is proved against its contract. `app/` is the service around it: RPC, disk, time and tasks.

| Module | What it holds |
| --- | --- |
| `state` | occurrences, attempts, findings and the keys they are stored under |
| `source` | transactions, finalized blocks and how they are held against authenticated headers |
| `store`, `table`, `bytes` | ordered columns and the atomic batches that change them |
| `evidence` | preparing blocks, submission rounds, recovery, receipts, matching, retention |
| `relay` | classification of answers, retries, lanes, and the source reader |
| `observe` | receipts, system transactions and target blocks |
| `service`, `inspect`, `command`, `config` | the service's tick, inspection, and what is checked first |
| `foreign` | the outside functions that the library calls, with what is believed of each |

The evidence store is modelled in `evidence/model.rs`: each operation is a function from a state to a
commit and a result, or to an error that changes nothing. `evidence/consistency.rs` states what every
operation keeps, and the `*_laws.rs` files prove it together with what holds across operations: rounds
are bounded, no target occurrence is consumed twice or lost, the source cursor waits for every outcome,
anomalies are never pruned, and the journal of commits rebuilds the store. `evidence/history.rs` carries
them over runs of operations and restarts: a prepared block can be resumed after any of them, and no
occurrence is ever handed out more often than the budget allows.

Every commit is handed out once through `EvidenceStore::take_journal`, for the service to make durable
before the next operation.
