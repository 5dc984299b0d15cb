# cyclotron

A cycle-level timing model of a GPU core and its memory system, written in
Verus: every component carries `requires`/`ensures` contracts that the
verifier checks.

## Layout

- `src/timeq.rs`: timed servers, bounded FIFOs with a fixed latency, a
  byte-per-cycle bandwidth budget, an optional warm-up and a cap on the
  completions made visible per cycle; tickets and backpressure.
- `src/timeflow/`: the components of a core built on timed servers.
  - `graph.rs`, `server_node.rs`: a flow graph of timed nodes joined by
    bounded links, with filters and routing.
  - `simple_queue.rs`, `dma.rs`, `tensor.rs`, `operand_fetch.rs`,
    `writeback.rs`, `fence.rs`: switchable issue queues.
  - `execute.rs`, `warp_scheduler.rs`, `barrier.rs`: execution units, warp
    issue arbitration and warp barriers.
  - `lsu.rs`: the load/store unit with per-warp queues and reserved entries.
  - `icache.rs`: the instruction cache, split into a hit and a miss path by a
    hash rule on the line.
  - `smem/`: the banked shared memory (lane planning, crossbar arbitration,
    bank ports, completion tails) and a replay of per-lane address patterns.
  - `gmem/`: the global-memory hierarchy: cache tags with LRU replacement,
    MSHR tables, per-level counters, the cluster graph shared by the cores.
  - `core_graph.rs`: one core with all of the above and the two halves of a
    cycle.
- `src/traffic/`: traffic-pattern configuration and result records.
- `tests/`: unit and scenario tests run against the compiled library.
- `app/`: the command-line front end: configuration files, the
  floating-point rates that become hash rules, and printed reports.

## What is not here

- The shared- and global-memory traffic drivers, and the helper that reads
  the current cycle from a simulator module, drive a core model, a module
  base and a pattern engine that this project does not contain; the
  library offers the timing components they would drive (`SmemSubgraph`,
  `ClusterGmemGraph`, `CoreGraph`) and the pattern replay.
- `app/policy.rs` holds the configuration form of `GmemPolicyConfig`, with
  floating-point writeback rates and serde's derives; it converts into the
  library's `GmemPolicyConfig`, which keeps the hash bounds the rates
  become.
