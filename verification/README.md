# egressd

A control plane for a pool of egress proxy containers: a desired-state pool with a
target size, a registry of asynchronous tasks with idempotency keys, bearer-key
authentication with a limit on failed attempts, and the request handling of the `/v1`
management API.

## Layout

- `src/` — the library, verified with Verus.
  - `pool.rs` — the pool: adding and removing proxies, converging on the target, the
    health cycle and the `busy` guard.
  - `registry.rs`, `task.rs` — tasks, their lifecycle, pruning and idempotency keys.
  - `api.rs` — what each API request decides, from the request's plain values.
  - `auth.rs`, `schemas.rs`, `errors.rs`, `json.rs` — authentication, request validation,
    the error envelope and the request bodies.
  - `docker.rs`, `container.rs`, `probes.rs` — the in-memory Docker stand-in, the shape of
    a proxy container, and the bytes of the liveness probes.
  - `laws.rs` — properties that span several operations.
- `app/` — the HTTP server (axum), the Docker client (bollard), the network probes and
  the JSON rendering.
- `tests/` — tests of the library.
