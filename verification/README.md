# taro_lang

The front end and object model of Taro, a small dynamically-typed scripting
language compiled to bytecode, written in Verus.

- `src/scan.rs`, `src/token.rs`: the scanner, equal to the spec function
  `tokenize`; every token stream ends with its only end-of-file token.
- `src/parse.rs`: the single-pass compiler.  Compiled code is whole
  instructions that decode back (`src/program.rs`); programs of integer
  expression statements and global declarations compile to the code
  `arith_program` gives; a function declaration with plain parameters and
  such a body compiles to a closure of a function object with its name,
  arity and code (`plain_function`, `fun_declared`); a program that starts
  with `break` or `continue` does not compile.
- `src/chunk.rs`, `src/instruct.rs`: instructions and their encoding.
- `src/heap.rs`, `src/object.rs`: objects, interning and the mark-and-sweep
  collector.
- `src/strings.rs`, `src/bytes.rs`, `src/lists.rs`, `src/numbers.rs`,
  `src/builtin.rs`, `src/runtime.rs`: built-in methods and functions.
- `src/repl.rs`, `src/cli.rs`, `src/messages.rs`: the REPL's input buffer,
  command-line arguments and error texts.
- `app/main.rs`: the command-line program around the library.
