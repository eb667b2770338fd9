# lithos_tree

The supervisor of the lithos suite keeps the processes of all sandboxes running.
It reads their configuration, takes over the children and the sockets of an
earlier run, removes the state directories and cgroups that nobody uses any more,
and then starts processes, starts them again when they end, and forwards signals.

- `src/` is a library that decides all of this. It is written in Verus, and what
  each function does is stated in its contract and proved. What holds across
  functions stands in proof functions whose names begin with `law_`; those about
  the work of the supervisor as a whole are in `src/accounting.rs` and, over whole
  runs of it, in `src/runs.rs` and `src/pacing.rs`.
- `app/` is the program. It reads files, opens sockets, starts processes and waits
  for signals, and asks the library what to do next.
- `tests/` runs the library on concrete values.

The supervisor is a state machine. `Supervisor::normal_step` takes an event (the
time, a socket that was opened, a process that was started, a signal, a child that
has ended) and returns the next action. After `Supervisor::leave`, the shutdown
goes on in the same way with `Shutdown::shutdown_step`.

The library calls two outside crates: `regex`, to search texts of the system
(`src/pattern.rs`), and `log`, to read and to show the names of log levels
(`src/level.rs`). What is believed of these calls is said at each of them.
