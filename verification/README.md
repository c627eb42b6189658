# OmniStor

The control logic of a multi-tenant storage cluster in which every node can reach all
data: tenants and their keys, quotas and rate limits, metadata buckets with takeover and
fencing, extents, placement and tiering, erasure-coded stripes and their rebuild, snapshots
and writable clones, and a management console.

- `src/` is the library. Every function has a contract that Verus proves. Each module states
  what its data is as a mathematical value (the types named `...View`) and what each operation
  does to that value; properties of several operations together are the proof functions named
  `law_...`, in the module itself or in one beside it (`*_laws`, `accounts`, `cluster_history`).
- `app/` is the console as a program: it listens, reads requests, hands them to the library
  and writes the answers.
- `tests/` runs the library.
