# chipviii

A CHIP-8 virtual machine and a small assembler for its instruction set,
written in Verus.

- `src/chipviii.rs`: the machine. `ChipView` is its mathematical model,
  `decode_spec` the instruction table, `execute_spec` the meaning of every
  instruction; `ChipVIIIState` implements them and is proved against them.
- `src/assembler.rs`: the two-pass assembler (`assemble_spec` states its
  result, including where assembly aborts).
- `src/text.rs`: splitting, trimming and number syntax on character sequences.
- `app/main.rs`: the command-line program: file I/O, the raylib window,
  keyboard, host clock and drawing.
