# lru_sim

A simulator of a set-associative LRU cache, driven by trace files, written
in Verus and verified.

- `src/lru.rs`: main memory and the cache. Each set is modelled as its slots
  in recency order; `get`, `reset` and `create_cache` are stated over that
  model, and the LRU rule is proved both per set and over a whole run of
  lookups.
- `src/syntax.rs`: the trace-file grammar as spec functions over bytes, and a
  parser proved equal to it.
- `src/expansion.rs`: unfolding a block into instructions: ranges, calls,
  loops, and switches that pick a case by a weighted random draw.
- `src/trace.rs`: checking a parsed file and unfolding its `compare` blocks.
- `src/simulation.rs`, `src/simulation_result.rs`: running traces through the
  cache and recording the results.
- `src/access_trace.rs`: the older access-trace format.
- `app/`: the command-line program: reading files, timing, printing, and the
  floating-point parts.
