# rcore_os

The memory management, process system calls and stride scheduler of a small
RISC-V (Sv39) teaching kernel, written in Verus and proved against its
contracts.

- `src/mm`: addresses and page numbers, a frame allocator, page tables, map
  areas and address spaces (`memory_set`), the reading of ELF files with
  `xmas_elf` (`elf`) and the address space of a user program (`user_space`).
  The areas of a space live in an `iset` interval map.
- `src/syscall`: what the process system calls decide and return.
- `src/task`: the task control block, the stride scheduler's ready queue (a
  `priority_queue` keyed through a SHA-256 hasher from `sha2`).
- `app/`: the kernel around the library: globals, linker symbols, the switch of
  page tables and the system call entry points.
- `tests/`: tests of the library on concrete values.
