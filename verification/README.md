# redbpf

Loads eBPF programs out of ELF object files and attaches them.

- `src/` is the library, verified with Verus: reading the sections of an object, creating maps,
  linking, and the order in which programs are loaded and attached. It asks nothing of the kernel
  itself: requests go to functions that the caller supplies, with a handle that each of them gives
  back for the next one.
- `app/` is the other half: it carries out the requests through `bpf-sys` and sets up the handlers
  of a grain.
- `tests/` runs the library against object files and a kernel made up for the purpose.

What is taken on trust is what `goblin` reads out of an ELF file (`src/elf.rs`), how `zero` reads a
C string, that `std` tells UTF-8 from other bytes (`src/section.rs`), and that it reads numbers in
the byte order of the machine (`src/insn.rs`).
