# salsa_runtime

The runtime of an incremental computation engine, verified with Verus.

A runtime knows in which revision the database is, which queries its thread is
executing, what each of them has read and written, and who waits for whom. When
a wait would close a cycle, it decides who unwinds and who goes on.

- `src/revision.rs`, `src/durability.rs`, `src/key.rs`: the logical clock, how
  often values change, and the names of queries and dependencies.
- `src/cycle.rs`: cycles, and the fixed order in which they report their
  participants.
- `src/event.rs`: what the runtime tells the database, what it asks of it, and
  the reasons for unwinding.
- `src/runtime.rs`: the runtime.
- `src/runtime/`: active queries (`active_query`), the stack of one thread
  (`local_state`), the graph of blocked runtimes (`dependency_graph`), what a
  cycle does to a stack (`participants`), and the lock and the flag that threads
  share (`shared`).
- `src/runtime/runtime_view.rs`, `src/runtime/graph_view.rs`,
  `src/runtime/waits.rs`: the mathematical models that the contracts speak of.
- `src/runtime/laws.rs`, `src/runtime/graph_laws.rs`, `src/runtime/steps.rs`:
  laws that span several operations; the last holds those of any sequence of
  them.
- `app/`: threads round a runtime. Sleeping, waking and unwinding happen there;
  the library says when.

Operations that would unwind return an `Unwind` instead. What the cancellation
flag holds, and which graph is found behind the lock, depends on other threads,
so nothing is stated of it. What is stored into the flag, what follows from what
a load of it gave, and which graph is let go of for each graph that was found,
is stated of every operation that does so.
