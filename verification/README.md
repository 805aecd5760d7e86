# reactivers2

A synchronous reactive runtime, verified with Verus.

A process is built from user actions, `pause`, sequences, choices, loops,
parallel compositions (`par`, `big_join`) and signal operations (emissions,
waits and reads of a signal's last value).  `Runtime::spawn` compiles a
process into a graph of nodes; `Runtime::instant` runs one instant: every
thread runs until it ends, pauses or waits, then each signal emitted in the
instant gets its value, combined from its default value by the signal's
gather action, and the paused threads and the threads waiting for an emitted
signal become the next instant's threads.

User actions are numbers; the caller of `instant` and `execute` supplies one
function that applies an action to a value.

Layout of `src/`:

- `value.rs`: the values that flow between steps;
- `process.rs`: processes and their constructors;
- `graph.rs`: the compiled graph and the compilation, with what a compiled
  process is (`implements`);
- `emission.rs`: what the emitting and waiting steps read from their input;
- `model.rs`: the state of a runtime and the meaning of each step, of the end
  of an instant, and of an instant;
- `engine.rs`: the runtime;
- `laws.rs`: properties of the runtime, proved;
- `dot.rs`: drawings of processes in the DOT language;
- `life.rs`: the board of the game of life.

`app/` runs the game of life and writes drawings as DOT text.
