# sovereign_c

A small compiler for a toy systems language with affine ownership, written
in Verus and proved against its contracts.

The pipeline:

- `lexer`: source text to tokens (keywords, symbols, identifiers, decimal
  integers; other characters are skipped).
- `parser`: tokens to a block of statements.
- `borrowck`: affine resources are moved on use and dropped right after the
  last statement that observes them (or when their scope closes); raw
  pointers are bound and written through only inside `unsafe`. The checker
  rewrites the program with explicit `SyntheticDrop` statements.
- `lowering`: checked statements to an SSA IR of basic blocks; owned
  bindings are allocated and freed, writes through raw pointers (and inside
  `unsafe`) are volatile.
- `liveness`: the live interval of every SSA register.
- `regalloc`: linear-scan allocation of the intervals to x86-64 registers,
  spilling to stack slots when the registers run out.
- `backend`: assembly text, from the checked statements or from the IR.
- `jit`: the payload that the program maps and runs.

Each stage states its result exactly over spec functions (`lex`,
`spec_parse_block`, `check_stmt`, `lower_stmt_spec`, `live_intervals`,
`allocation`, ...), and the laws that relate them (a moved resource cannot be
used again, a block closes every live resource, lowering is in SSA form,
intervals are ordered and cover every use, disjoint intervals never spill,
spill slots are distinct, ...) are proof functions next to them.

`app/main.rs` runs the whole pipeline on a sample program and executes the
payload in executable memory mapped with `memmap2`.
