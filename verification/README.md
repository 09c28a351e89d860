# delink

Splits linked images into relocatable objects, one for each compilation unit, with
the relocations and symbols that let them be linked again. Input is a shared object
(ELF, ARM or AArch64), a Mach-O image or a Windows PE image; output is ELF, Mach-O
or COFF.

The relocations of ARM and x86 code are found by disassembly. Those of AArch64 code
are not: the library takes them from its caller (`emit_cu_with`), and the command
line, which has no source of them, refuses to split the code of AArch64 images. Their
data, their summary and their units are available.

- `src/` is the library, verified with Verus. `elf`, `macho` and `pe` hold what
  belongs to one format: the reading of the image, its units, its symbols, the
  building of objects and the plan of a split. `arm`, `x86` and `x86_64` find the
  relocations that machine code calls for. `objfile` and `linkage` model the object
  under construction, and the other modules hold what all of these share.
- `tests/` runs the library, with the crates that it calls.
- `app/` is the command line around the library: it reads and writes files, runs
  units in parallel and prints what came of them.

The crates `object`, `gimli`, `capstone` and `iced-x86` read, disassemble and write
what the library works on. What the library believes of them stands in the
contracts of the functions marked `external_body`.
