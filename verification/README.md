# cosync

A single-threaded, parameterized task queue for coroutines, with its behaviour stated and proved in
Verus.

Tasks are queued one after the other, by the owner of a cosync, through handles, and from within
other tasks. Each run polls every task that is ready once, in the order in which the tasks were
queued. A task that is still pending goes on in a later run. `Cosync` runs all tasks side by side;
`SerialCosync` starts a task only when the one before it is complete.

- `src/` is the verified library. `state.rs` describes what a cosync holds and what each operation
  makes of it; `cosync.rs` and `serial.rs` are the two kinds of cosync; `pool.rs` and `queue.rs` are
  the tasks that run and the tasks that wait; `handle.rs` shares a cosync between threads and tasks;
  `executor.rs` decides when a thread parks; `laws/` states what holds over any number of
  operations.
- `app/` polls futures, parks threads, and hands the parameter of a run to the tasks.
- `tests/` runs coroutines and single operations against the library.

The library trusts one call into `parking_lot`: locking a mutex and running a section with the lock
held.
