# engine

The engine of a compiler visualiser: source text of a tiny C-like language
(integers, `let`, assignment, `+ - * / %`, comparisons, `if`/`else`, `while`,
`print`) goes through a lexer, a parser and a code generator to RV32IM
machine code, and a simulated CPU executes the actual bytes one
fetch-decode-execute cycle at a time. Every token, AST node and instruction
carries the source span it came from.

The library in `src/` is written in Verus. Each public function has a
contract stating exactly what it returns over mathematical models (`Seq`,
views of the data types), and the library proves laws about them:

- `lexer`: tokens lie in order inside the source, their text is the source
  text of their span, and there are no more tokens than source bytes.
- `parser`: node ids are 0, 1, 2, ... in completion order, there are no more
  nodes than tokens, and every node's span lies inside the source.
- `codegen`: `lui`/`addi` with the `%hi`/`%lo` parts rebuild any value, the
  prologue points `gp` right past the code, every body instruction carries
  its AST node and span, every branch and jump lands on an instruction of the
  program, only registers x0..x31 are used, and each variable has exactly
  one slot.
- `assembler`: decoding an encoded instruction gives it back when its fields
  fit, and a word that decodes is exactly the encoding of what it decodes to.
- `cpu`: each cycle executes the instruction its fetched word decodes to,
  a store is read back by a load, storing the old word back restores
  memory, x0 stays zero, a halted machine does nothing, each delta describes
  its cycle, and division by zero gives -1 without trapping.
- `meaning`: expressions have a reference meaning (32-bit wrapping
  arithmetic, RISC-V division, comparisons as 1 or 0), and stepping the CPU
  through an expression's machine words computes that value without
  disturbing registers below the expression stack or memory.
- `programs`: statements and whole programs have a reference meaning
  (variables starting at 0, `if`/`while` taking their body on a non-zero
  condition, `print` appending a value), and a CPU booted from a compiled
  program's bytes prints exactly what the program prints, never faults,
  halts on the exit call, and leaves each variable's slot holding its final
  value, whenever the code and data fit in memory and every instruction fits
  its encoding, which every program of at most 1024 instructions and 512
  variables does.
- `vm`: `compile` links all artifacts and keeps no hidden state, the listing's words decode to the
  listed instructions, spans point into the source end to end, and a fresh or
  reset machine reads every variable as 0.

`app/` holds the WebAssembly boundary (wasm-bindgen functions and
serializable copies of the payload types); `tests/` exercises the library.
