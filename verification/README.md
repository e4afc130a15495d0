# registrar

Which parachains and parathreads are registered, and which are scheduled, verified with Verus.

- `src/module.rs`: the registrar, with its calls and what it does when a block begins and ends.
- `src/commits.rs`: the calls as values, and the rule for bids on parathreads.
- `src/state.rs`: the state of the registrar as a mathematical value, and what each operation
  makes of it; the contracts speak of it.
- `src/laws.rs`, `src/upkeep.rs`: what holds of the registrar as a whole, and its invariant.
- `src/ordered.rs`, `src/ids.rs`, `src/queues.rs`, `src/schedule.rs`: ordered lists, lists of
  identifiers, queues of parathreads, and the schedule of a block.
- `src/chains.rs`: code and head data of the paras.
- `src/hashing.rs`: hash functions, and the calls into other crates, with what is trusted of them.
- `src/config.rs`, `src/types.rs`, `src/validity.rs`: what a runtime supplies, and plain values.
- `app/`: ties the registrar to a runtime: genesis, blocks, calls, events and transaction pool.
