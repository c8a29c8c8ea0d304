# Lazy pre-decode

A verified library for the lazy pre-decode mode of a bytecode interpreter.
Each basic block is decoded the first time the interpreter asks for one of
its instructions, and the result is cached under each instruction's
instruction index (`pc_to_idx`), which gives every instruction its own
entry. Once more than half of the program's blocks have been decoded,
the program switches to eager mode: it installs the pre-decoded tables,
turns lazy decoding off, and releases the cache.

Every function is verified with Verus against a contract. The contracts are
stated over the spec functions in `src/`.

## Layout

- `src/isa.rs`: instruction lengths, block terminators, branches.
- `src/bytes.rs`: little-endian immediates and the `i32` sign rules.
- `src/bitmask.rs`: the operand bitmask and the register lookup.
- `src/inst.rs`: `Opcode` and `DecodedInst`.
- `src/layout.rs`: how instructions follow each other, where blocks end,
  the instruction index table, and the pre-decode tables.
- `src/program.rs`: `InterpreterProgram` and its decode cache.
- `src/interpreter.rs`: `Interpreter::get_decoded` and the block decoder.
- `tests/`: tests run against the compiled library.
