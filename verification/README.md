# super-visor

Ordered startup and shutdown of long-running tokio processes, verified with
Verus.

A `Supervisor` runs as a future. When that is first polled, it starts the
processes in the order in which they were added, and from then on it drives them
side by side. When it is told to shut down, or when a process fails, it stops
the processes that still run one at a time, last added first, and returns the
first failure that a process ended with. A supervisor can itself be a process of
another one, and so can a closure.

- `src/` is the library. `plan.rs` holds the decisions, `history.rs` the laws
  that hold of every run, `supervision.rs` the future that starts and drives the
  processes, `nested.rs` what is known of supervisors under supervisors, and
  `trusted.rs` what is believed of the crates underneath.
- `app/` is the side that faces the operating system and the tokio runtime:
  signal listeners, spawned tasks and the error type with its `Display`.
- `tests/` runs the library on a tokio runtime.
