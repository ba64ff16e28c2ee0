# gaussmatrix

The verified core of a Matrix homeserver, written in Verus. Every function in
`src/` carries a contract; Verus proves each one except the few trusted
wrappers listed under "Trusted boundary", whose contracts are stated, not
proved. The laws the core keeps are stated as public proof functions next to
the code they govern.

## Layout

- `src/store/` — the backend-agnostic key/value abstraction: domains, the
  atomic write batch, the abstract table model every operation is specified
  against, the in-memory reference backend, and the type-erased store handle.
- `src/shard/` — consistent-hash room placement: the ring, its abstract model
  and the laws of growth and drain, and the front-end room placement.
- `src/stateres/` — state resolution: partitioning of forks, the auth
  difference, the reverse topological power ordering, mainline ordering, the
  room authorisation rules, the resolved-state cache and the two-pass
  resolution.
- `src/services/` — the services' computational core: content-addressed
  media, the hash-chained audit log, the durable federation queue and health
  records, agent rate limits, quotas and approvals, grant specs, appservice
  namespaces, the space-hierarchy access check and steps, and the comparison
  of a shadow resolution with the authoritative one.
- `tests/` — executable tests of the library.
- `app/` — the server around the core: the RocksDB backend, the services'
  I/O and async plumbing over the server framework, and the HTTP router.

## Storage domains

The store has the nine column families of the domain model: `events`,
`room_state`, `auth_chain_index`, `resolved_state_cache`, `media_metadata`,
`device_store`, `key_store`, `account_data` and `audit_log` (`Domain::ALL`).
Every other logical store the services keep is a keyspace inside one of them:
agent approvals, the agent registry, federation health and agent rate-limit
windows in `account_data`, content-addressed media blobs in `media_metadata`,
and the outbound federation queue in `events`. A keyspace is addressed as a
`Domain` of its own; the durable backend keeps it apart inside its family by a
reserved key prefix (`0xFF` and the keyspace's tag).

## Trusted boundary

Calls into `sha2`, `base64`, `regex` and `std::str::from_utf8` go through
small wrappers whose contracts are stated, not proved; the type-erased
backend handle is the only other unverified code in `src/`.
