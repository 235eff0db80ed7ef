# spin_sync

A readers-writer lock, a counted shared value and a wait group, built from single atomic words and
verified with Verus.

- `src/cells.rs` is the shared words and counts. Each call on one of them goes into a trace: which
  call, with which operand and memory order, and what it found. The calls themselves are those of
  `std`.
- `src/word.rs` is the layout of the lock word and the operations on it.
- `src/phase.rs` is the protocol: which operation a call performs next, and what follows from the
  word that it finds.
- `src/raw.rs` performs these operations. Its contracts say which, in what order and by which calls
  on the word.
- `src/rwlock.rs` puts a value and guards around a lock, `src/borrowed.rs` does so for a value that
  lives elsewhere. A guard that is dropped gives its access up.
- `src/system.rs` proves what holds when any number of calls interleave: writers exclude everybody
  else, no update is lost, no circle of waiting, no trace left behind. `src/alone.rs` says what
  single calls come to when nobody interferes.
- `src/history.rs` ties both to what the agents of a lock have done, and so to the guards: who keeps
  whom out, what a reader sees, and what an attempt is answered while which guards are out.
- `src/counter.rs` counts handles for `src/arc.rs` and `src/wait_group.rs`. `src/handles.rs` proves
  that the count is right and that exactly one handle, the last, learns that it is the last.
  `src/tallies.rs` ties that to what the handles have done: whom a group has waited for, and how
  many it names. The memory itself is a `std` `Arc`, which keeps a count of its own to free it.
- `app/` adds what needs `unsafe` or can only be ended by another thread: values that change in
  place, handles that can be sent whatever they hold, and calls that block.
