# rox

A compiler for the Lox language, written in Verus. The library's own logic
is verified against its contracts; the calls into `wasm-encoder`,
`wasmparser` and the standard library's string iteration go through small
trusted wrappers (`wasm_encode`, `text::str_to_chars`) whose contracts are
stated, not proved.

## What it does

- **Lexing and parsing** (`lexer`, `parser`, `precedence`): a single-pass
  Pratt parser that reports errors in the `[line N] Error at 'x': ...` form.
  After an error it skips to the next statement boundary; where it stops is
  stated over the lexer's tokens (`parser::sync_end`).
- **Compiling** (`compiler`, `program`, `chunk`, `opcode`): bytecode with
  line numbers, constants, locals, upvalues, classes and inheritance.
- **Runtime heap** (`heap`, `heap_object`, `hash_table`, `value`): objects
  by slot, interned strings, globals, and a mark-and-sweep collector whose
  result is proved to be exactly the objects reachable from the roots;
  closing of upvalues; how values are shown (`display`).
- **Bytecode text** (`compilation`, `serialize`, `grammar`, `deserialize`):
  a compiled program is gathered into a self-contained `Compilation` and
  written as text. Reading it back is proved exact: `deserialize` returns
  the compilation whose text it is, and the text of a compilation that can
  be read back determines it (`grammar::lemma_serialize_root_injective`).
- **WebAssembly** (`wasm_compiler`, `shadow_stack`, `wasm_encode`): the
  top-level code of a program as a WebAssembly module, built with
  `wasm-encoder` and checked with `wasmparser`.

## Layout

- `src/` the verified library.
- `tests/` tests of the library.
- `app/` the command-line program: reading and writing files, printing.
  It compiles programs, saves and loads their bytecode text
  (`--save`, `--load`, `--roundtrip`) and writes WebAssembly (`--wasm`).
  The bytecode interpreter's run loop is not part of this crate, so
  compiled programs are checked but not run.

Numbers are kept as the text of their literals throughout the library; the
program turns them into floating-point values where it needs them.
