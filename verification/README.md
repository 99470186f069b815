# etk_asm

An assembler for the Ethereum virtual machine, written and verified in Verus.

- `src/assembler.rs` holds the `Assembler`; `src/state.rs` says what it does: each state that it
  goes through, and the bytes or the error that come out.
- `src/expression.rs`, `src/ops.rs`, `src/opcode.rs`, `src/error.rs` hold the data;
  `src/context.rs`, `src/encode.rs`, `src/macros.rs` evaluate expressions, encode instructions and
  expand macros.
- `src/evmgif.rs` packs a program into the layout that a GIF file carries; `src/offset.rs` reads the
  offset of that file.
- `src/integer.rs`, `src/labels.rs` and `src/nonces.rs` hold the calls into `num-bigint`, `indexmap`
  and `rand`.
- `src/laws.rs`, `src/progress.rs`, `src/references.rs`, `src/refusals.rs`, `src/placement.rs`,
  `src/widths.rs`, `src/packing.rs`, `src/determinism.rs`, `src/renaming.rs` and
  `src/equivalence.rs` prove what follows: labels point at what is behind them, pushes carry the
  values of their expressions, when they are as narrow as can be, what is refused and how, that
  chunks are filled and instructions stay whole, and that neither the numbers in the names of local
  labels nor the places of definitions change the output.
- `app/` is the command line program `eas`.
