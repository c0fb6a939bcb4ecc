# runtime_rs

Lifecycle and service composition for applications made of several services,
verified with Verus: one place to register services, boot them, reload them,
start their background tasks, resolve them by Rust type, and shut them down
gracefully.

## Layout

`src/` is the library, all of it verified: the contracts say what each operation
returns and changes.

- `registry` holds providers by concrete type. `registry/lifecycle.rs` says what
  the lifecycle order is, `registry/planner.rs` finds it, `registry/sweep.rs`
  goes through it for boot, shutdown and reload, `registry/start.rs` orders
  runnable providers, `registry/error.rs` is the error model,
  `registry/laws.rs` states what holds over several operations, and
  `registry/history.rs` what holds after any sequence of calls.
- `gate` admits, counts and drains work; `guard` only counts it.
- `runtime` decides what the end of a task means for the others.
- `state` is the trait of the application's shared state.
- `signal`, `time`, `text` and `count` are what the others are built on.

`app/` is ordinary Rust around it: the same services shared between tasks, with
locks, awaiting, spawning and logging. Its loops perform an action, hand the
library what happened, and do what it says next.

`tests/` runs the library.

## What is trusted

Calls into `tokio`, `tokio-util` and the standard library that Verus cannot see
into stand behind small functions marked `external_body`, or behind
`assume_specification`. The comment above each says what is claimed of the call.
