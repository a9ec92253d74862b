# orchestrator

A workflow orchestrator: flows of plugin tasks, defined as JSON, run on
demand or on cron schedules, with templated configs, retries, fan-out over
items, encrypted secrets, and a plugin protocol for external task types.

The decisions of the system live in a library verified with Verus; the
binary around it does the I/O.

## Layout

- `src/` — the verified library.
  - `expr/` — the `{{ … }}` template language: grammar, parser,
    canonical printer (a parsed template printed and read again is the same
    template), rendering against a run context, and redaction of secret
    values.
  - `model/` — flow definitions, their validation, their YAML form, and
    the JSON Schema of plugin configs and task branches for the editor.
  - `engine/` — run inputs (resolution and finalization), task outputs,
    the run and fan-out state machines, retries with exponential backoff,
    and worker status.
  - `scheduler.rs` — cron triggers, catch-up policies, due schedules and
    what firing one launches.
  - `plugins/` — the plugin vocabulary, the `http.request` plugin's logic,
    the plugin line protocol, the plugin registry, and the SDK's event
    encoding.
  - `json.rs`, `text.rs` — JSON values with sorted members, and string
    helpers.
  - `secrets.rs`, `auth.rs`, `config.rs`, `api/`, `db.rs` — sealing and
    opening secrets, password hashes and sessions, server settings, and
    the pure parts of the HTTP API.
- `tests/` — tests of the library.
- `app/` — the binary: CLI, SQLite store, HTTP API, scheduler loop, task
  runner, HTTP requests, and plugin processes.

Calls into outside crates (`serde_json`, `serde_yaml_ng`, `chrono`,
`chrono-tz`, `croner`, `reqwest`'s `http` types, `chacha20poly1305`,
`argon2`, `getrandom`) go through small trusted wrappers whose contracts
name or state what the crate returns; everything built on them is proved.
