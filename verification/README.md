# gdb_funend

A graphical front end for GDB's machine interface (GDB/MI). The verified
library in `src/` holds the logic:

- `parser`: the tokenizer and recursive-descent parser of GDB/MI output
  lines into records, lists and strings, specified by spec functions over
  token sequences (`spec_tokenize`, `parse_value`).
- `token_laws`: properties of the tokenizer over whole lines (a console
  line adds no tokens, `name="value"` reads as one entry, joined lines).
- `roundtrip`: the parser reads the tokens of any value (without numbers,
  with distinct record names) back as that value.
- `show`: the `Debug` text of tokens and values, as argument variables and
  parse error messages show them.
- `debugger`: the debugger state (source files, registers, current line,
  variables, disassembly) and how each parsed record updates it
  (`spec_update`), with the register listing in display order.
- `asm_laws`: what a disassembly listing does to each function's code and
  lowest address, in closed form.
- `controls`: which GDB commands the arrow keys send.
- `strmap`: a string-keyed map with distinct keys, viewed as a `Map`.
- `order`: the display order of registers (rank, then bytes).
- `text`: character and number helpers over std.

`app/` runs QEMU and `gdb-multiarch`, reads their output, reads source
files, and draws the state with SDL2 and Dear ImGui.
