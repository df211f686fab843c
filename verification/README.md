# KoruDelta core, verified

The logic of the KoruDelta causal database as a Verus library: causal
storage and its history, the query engine over JSON values, memory tiers
(hot, warm, cold, deep) and their lifecycle planning, set reconciliation
(Merkle trees, Bloom filters), the reference graph, the write-ahead-log
record format and lock protocol, the agent orchestrator, and the network
agent's bookkeeping and message framing. Every function in `src/` that
returns a value or changes its arguments carries a contract that Verus
proves (the one that does neither, `SleepAgent::dream`, has nothing to
state); calls into outside crates (hashing, CRC, time
formatting, concurrent maps, regular expressions) go through small trusted
wrappers whose contracts are stated in their doc comments.

- `src/` — the verified library.
- `tests/` — ordinary Rust tests of the library.
- `app/` — what Verus does not take: file and network I/O with `tokio`,
  JSON text with `serde_json`, floating-point scoring and aggregation, and
  the event loops that hand actions to the distinction engine.
