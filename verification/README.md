# codex-bridge

A bridge that serves the Responses API in front of a Chat Completions endpoint.
It keeps the conversations, translates requests, responses, tools and streams,
and repairs two kinds of markup that models leak into their text: DSML tool calls
and `<think>` blocks.

* `src/` is the library, verified with Verus. Each function states what it does
  in its contract; the proof functions named `law_…` state what holds of the
  library as a whole.
* `tests/` runs the library on concrete values.
* `app/` is the server: arguments, sockets, and the calls to the endpoint.

## What is trusted

* `src/json.rs`: what `serde_json` reads and writes.
* `src/session.rs`: what `dashmap::DashMap` stores.
* `src/ids.rs`: the form of a random UUID of `uuid`.
* `src/text.rs`: `String::push`.

## The server

The server holds the conversations behind a lock. It parses the JSON of whole
requests and of what upstream answers (`app/wire.rs`), and it reads the upstream
stream; what to do with each event is decided by the library.

The settings are arguments or environment variables: `CODEX_RELAY_PORT`,
`CODEX_RELAY_UPSTREAM`, `CODEX_RELAY_API_KEY`, `CODEX_RELAY_DISABLE_QUIRKS` (a
comma-separated list), `CODEX_RELAY_UPSTREAM_EXTRA_PARAMS` (a JSON object) and
`CODEX_RELAY_DROP_PARAMS` (a JSON array of names).
