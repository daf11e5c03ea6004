# ayurox

A bytecode interpreter for the Lox language, written in Verus: a scanner, a
single-pass compiler to bytecode, a stack-based virtual machine with
closures, and a mark-and-sweep garbage collector over an object heap.

## Layout

- `src/scanner.rs` — tokens and the scanner, specified by what each token
  kind lexes as.
- `src/compiler.rs` — the parser and the compiler; compilation succeeds
  exactly when it reports no error.
- `src/chunk.rs`, `src/value.rs` — bytecode chunks, values, heap objects,
  and IEEE-754 comparisons on the bits of doubles.
- `src/table.rs` — name tables (globals, interned strings) and the FNV-1a
  hasher.
- `src/memory.rs` — the object heap, and the collector's marking, tracing
  and sweeping.
- `src/vm.rs` — the virtual machine: one `step` at a time, each stated
  instruction by instruction; the collection of garbage and its laws.
- `src/debug.rs` — instruction decoding, the text of a disassembly line,
  and the text that `print` shows. Setting `LOX_PRINT_CODE` in the
  environment makes the program print the script's disassembly before
  running it.
- `app/main.rs` — the program: file and prompt input, output, the
  arithmetic on doubles and the clock that the machine asks its host for,
  and the allocator that decides when to collect.

The machine leaves three things to its host, which it asks for by the
`Step` it returns: printing, arithmetic on doubles, and native calls.
