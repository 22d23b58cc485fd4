# flcommon

Verified core of a regulatory-aware, resource-aware participant orchestrator
for federated learning across heterogeneous edge/cloud nodes.

- `src/` — the library, verified with Verus:
  - `rng`: the seedable SplitMix64 generator (`next_u64`, `gen_range`,
    Fisher-Yates `shuffle`) and `derive_seed` (FNV-1a over the tag's UTF-8
    bytes, spread by one SplitMix64 draw), with the stream as a spec function and its laws (the first draw is
    injective in the seed, the state after n draws is seed + n * gamma,
    child seeds separate bases and one-byte tags).
  - `select`: strategies, the residency policy and its verdicts, the scoring
    pool (eligibility is a hard filter before scoring), the random draw, the
    order key of a score, the top-k ranking (ties broken by id) and the
    ranking of the pool itself (`rank_pool`), the
    merge of a policy service's verdicts, and the laws that tie them
    together (no ineligible node is ever selected under `policy_resource`).
  - `model`: when FedAvg is defined, the sample total that weights it, and
    when a round succeeds.
  - `text`: comma-separated lists, `--name value` command lines, and the
    equality and order of strings.
- `app/` — the programs (`coordinator`, `scheduler`, `participant`, `flsim`):
  gRPC, HTTP, files, clocks, and everything floating point (the logistic
  regression workload, the composite score, the network simulator).
- `tests/` — tests of the library.
