# MyDNS

A local DNS server: authoritative zones answered from an in-memory record
index, a domain blocklist, a TTL cache, and forwarding or iterative
resolution upstream.

## Layout

- `src/` — the library, verified with Verus. Every function carries a
  `requires`/`ensures` contract over mathematical models (`Seq`, `Set`,
  spec functions and views), and the laws of the library are public proof
  functions (`lemma_*`).
  - `mydns/dns/` — zone trie, blocklist, record index with CNAME chains,
    building of resource records, the order in which a query consults its
    sources (`resolution`), forwarding decisions (`upstream`), iterative
    resolution from the root servers as a state machine (`iterative`) and
    the walk through the persistent cache (`cache_walk`).
  - `mydns/cache.rs` — the TTL cache with bounded capacity.
  - `mydns/config/` — the `config.ini` and `config.toml` settings and their
    defaults, resolver modes, secret generation.
  - `mydns/db/`, `mydns/api/`, `mydns/error.rs` — blocklist entry
    validation, zone seeding, the cache listing and statistics window of the
    HTTP API, and the API's errors.
  - `metrics.rs` — counters and sliding sample windows.
  - `cache/`, `config/`, `db/`, `dns/` — the first server generation's
    interface, built on the same verified parts.
  - `names.rs` — text helpers shared by the modules.
- `tests/` — tests of the library.
- `app/` — the server program: reads the configuration files, parses
  addresses, sends and receives DNS messages (UDP, TCP on truncation) and
  computes the floating-point statistics; every decision it makes is the
  library's. It has no database and no HTTP API, so it keeps no persistent
  cache (that source never answers, and the library's persistent-cache walk
  and `persistent_answer` are not run by it) and starts with an empty
  blocklist and record index.
