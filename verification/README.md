# os4

Virtual-memory and task bookkeeping of a small RISC-V teaching kernel, written in Verus.

- `src/address.rs`: addresses, page numbers, half-open page ranges.
- `src/range_manager.rs`: the disjoint page ranges a task has mapped with `mmap`, with
  joining of touching ranges, cutting on `munmap`, and the laws that tie the two together.
- `src/memory_set.rs`: the areas of an address space (kernel and ELF user spaces) and the
  page-table work they ask for, recorded as `PageTableOp`s.
- `src/elf.rs`: the fields of an ELF image read through `xmas_elf`, from a copy of the
  image kept in 64-bit words so that every read is aligned.
- `src/task.rs`: the task table, the round-robin choice of the next task, system-call
  counters, the `mmap` / `munmap` system calls with checks that tell whether a call can
  run, and the laws that keep every mapped range over an area of its own.
- `app/lib.rs`: the machine side: a page-table backend that carries out the recorded
  work, the global kernel space and task table, and context switches.
