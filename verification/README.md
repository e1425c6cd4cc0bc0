# shimforge

A function-mocking library: it replaces a function's machine-code entry with a
jump to a replacement, keeps a trampoline that still reaches the original, and
checks call expectations (counts, sequences, one-shot responses) against what
the program actually did.

The logic is written in Verus and proved against its contracts.

## Layout

- `src/code/`: instruction decoding for the x86-64 prologue (`prefix`),
  the jump and cover plan (`x86`), trampolines that relocate the moved
  instructions (`relocate`), and the AArch64 counterpart (`arm64`).
- `src/memory.rs`, `src/memory/`: memory regions and page ranges, the checks
  before a write, the parser for `/proc/self/maps` lines (`maps`), the
  region queries of macOS (`mach`) and Windows (`windows`), the state machine
  that writes a patch and restores page protections (`writing`), and the one
  that remaps whole pages where code pages cannot be made writable (`remap`).
- `src/executable.rs`, `src/executable/`: placing executable pages near a
  source address and reading the shadow-stack status, as decisions over what
  the platform answered.
- `src/routing.rs`: which target a dispatcher sends a call to, when a new
  patch conflicts with one already installed, and what a new patched entry
  writes.
- `src/expectation.rs`, `src/expectation/laws.rs`: the ledger of mocks,
  expectations and sequences, and the laws it keeps.
- `src/asynchronous.rs`: the registry of asynchronous mocks.
- `src/session.rs`: what a session owns and how it is restored.
- `app/`: the process-facing side on Linux: system calls, global registries,
  locks and the handles that the user holds.
- `tests/`: tests run against the compiled library.
