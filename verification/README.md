# trona

The userland substrate of a capability microkernel, verified with Verus.

- `src/builtins/` - compiler support routines: soft floating point on bit
  patterns, 128-bit integer arithmetic, memory functions.
- `src/kernel/` - what userland says to the kernel: capability invocations,
  MessagePipe messages, boot info records, the startup block.
- `src/loader/` - images: ELF and PE headers, symbols, relocation, run plans,
  the boot archive, and the runtime linker in `rtld/`.
- `tests/` - tests of the library on concrete values.
- `app/` - the system calls, raw memory and services around it.

Addresses are plain integers here. Functions that patch memory give back the
writes to make; functions that need other processes are split into steps, and
say after each step what is to be done next. Memory is handed in as bytes with
the address of the first one.
