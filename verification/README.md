# gddumper

Recovers offsets from the Windows (x64) build of Geometry Dash: classes, vtables,
class sizes, constructors, singletons, field offsets and functions, with names from
exports, bindings, signature files and the user.

- `src/` is the library. It works on bytes and text alone, and each function carries
  a contract that Verus proves. The laws that relate functions stand beside them, as
  public proof functions.
- `tests/` runs the library on a small image built in memory and on texts.
- `app/` is the command line around it: files, the network, printing.

| Module | What it holds |
|---|---|
| `text`, `num`, `table`, `search` | strings, numbers, ordered tables, substring search |
| `pe` | PE32+ headers, sections, exports, imports, function table |
| `names` | MSVC symbol names |
| `insn`, `interp`, `analysis`, `allocs` | instructions, data flow through one function, whole modules |
| `rtti` | type descriptors, hierarchies, vtables |
| `model`, `structors`, `ownership` | a module: names, sizes, constructors, owners of functions |
| `world` | all modules together: classes, fields, names of vtable slots |
| `sigs`, `generate`, `archive` | signatures: reading, applying, growing, writing |
| `bindings`, `sources`, `layout`, `declared` | declared classes, their texts, layouts, names and status |
| `dump`, `signing` | the report, and signatures for the next build |
| `disasm`, `listing`, `steam` | disassembly, listings of versions, folders of games |
