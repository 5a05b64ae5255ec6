# metrowrap

Verified core of a wrapper around the Metrowerks C compiler that lets C
sources pull in hand-written assembly through `INCLUDE_ASM` /
`INCLUDE_RODATA`, and that can split the compiler's monolithic sections into
one section per symbol for `ld --gc-sections`.

Layout:

- `src/elf/`: ELF32 records (sections, symbols, string tables,
  relocations) with byte-exact packing and unpacking.
- `src/preprocessor.rs`: the assembly-to-C-stub preprocessor and the
  finding and replacing of the `INCLUDE_*` macros in C text.
- `src/split.rs`: splitting `.text`, `.rodata`, `.data`, `.sdata`, `.sbss`
  and `.bss` into per-symbol sections, with their relocations.
- `src/splice.rs`: building blocks for putting assembled code and data into
  a compiled object (stub merging, relocation distribution, byte
  splicing, .rodata filling).
- `src/inject.rs`: `splice_asm_into_monolithic`, which puts one assembled
  object into the monolithic sections of a compiled one, and the symbol
  table operations it uses (`Elf::add_symbol_get_index`).
- `src/transplant.rs`: `transplant_asm_object`, which puts one assembled
  object into a compiled object whose stubs have sections of their own.
- `src/cfile.rs`: `next_step`, the decisions of processing a C file (which
  compile, assemble, insert or write step comes next).
- `src/source_text.rs`: a C source's bytes in the encoding the compiler
  reads (through `encoding_rs`).
- `src/text.rs`, `src/constants.rs`: text helpers and shared names.
- `app/`: file I/O, encodings, temporary files, dependency files and the
  loop that runs the compiler and assembler as `next_step` decides.

Every function in `src/` carries a `requires`/`ensures` contract checked by
Verus; the `law_*` proof functions state properties that span several
operations.
