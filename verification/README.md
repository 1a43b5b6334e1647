# clawser-fetch

An HTTP client that drives a native network engine (Chromium's network
stack with per-seed TLS/HTTP2 fingerprints). This crate is its verified core,
written in Verus:

- `src/seed.rs` — the fingerprint `Seed`, its 80-character hex form
  (`to_hex`, `from_hex`) and the proofs that the two are inverse.
- `src/error.rs` — the error type and the text of each error.
- `src/request.rs` — the checks made on method, URL, path and header strings
  before they reach the engine, and the request builder, which records the
  settings of a request in order.
- `src/response.rs` — what the engine reported of a response: status code,
  header list (turned into a map), body, body as text, final URL.

`app/` holds the part that talks to the engine through its C interface:
sessions, the native request and response handles, and the error type with
its `Display` impl. It calls the verified library for everything that only
computes.
