# cronbird

A small HTTP service that records cron job callbacks (`POST /callback/{identity}`)
and exposes, per identity, the time of the last callback and the number of
callbacks in Prometheus text or JSON (`GET /metrics`, `GET /metrics/{identity}`).

## Layout

- `src/` — the library, verified with Verus:
  - `domain/` — identities and their validation, callback records, the
    keyed tables (`RecordMap`, `IdentitySet`) and the `CallbackStore` interface;
  - `adapters/` — the in-memory store and the persister's settings;
  - `http/` — bearer-token authentication, API errors, the request
    handlers' logic, the Prometheus/JSON rendering, the Gregorian calendar
    and the route guards;
  - `config.rs` — configuration built from environment variable values;
  - `text.rs` — decimal rendering, padding, trimming, splitting and parsing
    over characters.
- `app/` — the server: environment, axum routes and middleware, the shared
  store behind a lock, JSON persistence to disk, graceful shutdown.
- `tests/` — tests of the library.
