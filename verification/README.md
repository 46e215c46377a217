# apolisp

A small Lisp in the Clojure dialect with its own bytecode VM. The library in
`src/` is written in Verus, and Verus proves the contracts its functions
carry.

## Layout

- `src/text.rs`, `src/error.rs` — strings, digits, spans, positions.
- `src/value.rs` — values, interning, language equality, origins.
- `src/reader.rs`, `src/printer.rs` — text to values and back; reading the
  printed text of a single readable value gives that value back.
- `src/expand.rs` — macros, quasiquote templates, gensym.
- `src/compile.rs`, `src/bytecode.rs` — name resolution, the slot compiler,
  the instruction set and its disassembly. Compiled code names only slots
  inside its frame and jumps only inside its function.
- `src/vm.rs`, `src/prim.rs`, `src/host.rs` — the VM, the primitives and
  the io primitives. Each instruction's effect is stated; a run is a trace of
  such steps, a suspended run resumed continues that trace, and a run
  suspends only after it has taken every step its fuel allows.
- `src/image.rs` — snapshots of a suspended run and their restoration.
- `src/json.rs` — JSON documents as values and back.
- `src/session.rs` — one VM and one chunk across many inputs.
- `src/platform.rs` — what the library asks of its host: IEEE floats and
  the operating system's files and streams.

`app/` is the command-line program: the host (floats, files, sockets, the
terminal), the prompt, and the JSON and terminal adapters. `tests/` exercise
the library through its public API.
