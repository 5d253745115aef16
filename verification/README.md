# kvrouters

A KV-cache-aware router for inference workers. For each chat request it picks
the worker that is most likely to hold the prompt's KV blocks already, weighed
against the requests each worker has in flight.

## Layout

- `src/` is the library: every decision the router takes, with its contract,
  verified by Verus. It does no I/O and reads no clock but the one that stamps
  prefix index entries; each timed operation also exists with the time as an
  argument (`record_at`, `select_for_chat_at`, `evict_at`).
- `app/` is the server around it: HTTP, the Kubernetes watch, timers, logging,
  the metrics recorder, and everything that takes floating-point numbers.
- `tests/` exercises the library from outside.

## Where to start reading

| Module | What it holds |
|---|---|
| `hashing` | prompt blocks and their hash chains |
| `beliefs`, `prefix`, `affinity` | which worker is believed to hold which block |
| `worker`, `inflight` | registry, health, requests in flight |
| `score`, `candidate`, `router` | scoring order and worker selection |
| `disaggregated`, `kv_transfer` | prefill and decode on different pools |
| `discovery`, `endpoints`, `membership` | workers that come and go, and what that leaves intact |
| `api`, `chat`, `proxy` | what a client is answered |
| `health`, `engine_metrics`, `metrics`, `prometheus_text`, `numbers` | probing and observability |

Public proof functions named `law_...` state what holds across functions.

## Scores

The score `matched_blocks * cache_weight - in_flight * load_weight` is a
floating-point number, computed by a function that the router is built with.
The library works with its place in the order of all scores, which
`Score::from_bits` derives from the number's bits.
