# chakobsa

A small statically typed language compiled without a syntax tree: source
text is lexed into tokens, parsed straight into typed SSA form, validated,
run by a reference interpreter, and compiled to a 32-register machine.

The library in `src/` is written in Verus; every function carries a
contract that Verus proves:

- `lexer` — the token grammar over UTF-8 bytes (`spec_lex`) and the lexer
  that computes exactly it; `relex` proves that tokens written out with
  spaces between them lex back to themselves.
- `types`, `value`, `inst`, `block`, `function`, `module` — the IR.
- `ssa_builder`, `parser` — SSA construction while parsing, with type
  checking folded in. A variable read resolves to the binding its block
  holds, through the only predecessor of a sealed block, or to a new phi.
  Each `let` declares a variable of its own scope. Every parsed function
  is declared by the header at a recorded position, calls only functions
  of the module with the right number of arguments, has numbered blocks
  each ending in a terminator, jumps within the function, no `and`/`or`
  instruction, phis naming no block twice, every value read defined and
  (below `u32::MAX` values) every value defined once and every phi with
  one entry per predecessor of its block.
- `validate` — structural and type validation, exactly specified;
  `validated` proves that a parsed module that validates is ready for
  compilation, and `parsed_validation` that validating a parsed function
  or module can only find a type mismatch.
- `interp` — the reference interpreter, with a fuel-indexed semantics.
- `liveness`, `regalloc`, `lower`, `codegen`, `runnable` — liveness as the
  least dataflow solution, greedy register allocation, lowering to machine
  blocks, and whole-module compilation; `ready` decides whether a module
  meets what compilation needs, `zero_register` proves the zero
  register is never written, and `parallel` proves that the code of a
  parallel move gives every destination its source's earlier value.
- `dump_ir` — the textual IR listing.

`app/` is the command-line tool (`build`, `run`, `dump-ir`): file I/O,
argument parsing, error messages, and the hand-off to the virtual machine.
`tests/` holds the test suite.
