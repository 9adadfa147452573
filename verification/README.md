# sofix

Native libraries dumped from the memory of a running process, and their repair.

A dump places the bytes of a library at their virtual addresses, which is not the
file layout that its ELF header describes, and its section header table is mostly
lost. `sofix` rebuilds the table from the dynamic segment, for ELF32 and ELF64, so
that static-analysis tools can load the dump; where that is not possible it repairs
the program headers alone. It can also inject symbols, such as recovered JNI names,
into a real `.symtab`.

## Layout

- `src/` is the library, written in Verus. Every function states what it computes,
  and the proof functions called `law_..` state what holds across functions.
  - `bytes`, `layout`: integers in byte buffers, and the ELF structures made of them
  - `text`: fields, lines and numbers in text
  - `segments`, `dynamic`, `sections`, `catalog`, `emit`: the steps of a rebuild
  - `rebuild`: the rebuild as a whole; `readback` and `upkeep` say what a reader of
    the result finds, and what becomes of the image itself
  - `so`, `capture`: libraries in a memory map, and what to dump of them when
  - `so_fix`: repair of dumps, symbol maps, and the routing of symbols to dumps
- `tests/` runs the library on concrete images.
- `app/` reads process memory and files, and prints messages.

## What is taken on trust

`goblin` parses a rebuilt file for the self-check; the library claims no more of the
symbol count, or of the error, than that it depends on the bytes alone. Of `std`, `String::push` and
`PathBuf::clone` are used as documented.
