# jade_runtime

The runtime of the Jade language as a Verus library. What a program's values are, what its
operators mean, how its heap is counted and collected, how strings and blobs carry their
trust, how packages and imports resolve, and how tasks, requests and replies are handled is
decided in `src/` and proved there.

- `src/`: the library. Every function states what it returns; functions that need the disk,
  the clock, a process or a thread take what came of it as an argument, or ask a closure.
- `app/`: the code around it: files, the environment, `curl`, `sh`, sockets, threads, and
  floating-point arithmetic.
- `tests/`: examples, run against the compiled library.

A value is a 64-bit word (`value`). A word that points names a cell of a `gc::Heap`; floats
are kept by their bit patterns (`floatbits`). Results of outside functions that would take
pages to state have a name, and the contracts speak of that name.
