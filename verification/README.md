# kernel

The logic of a small RISC-V (Sv48) kernel, verified with Verus.

- `src/allocators`: `align_up`; the free list of physical pages (`paging`); Sv48 page-table
  entries and addresses (`paging::sv48`); page tables and mapping (`paging::table`); the buddy
  allocator for blocks of 4 bytes up to a page (`buddy_alloc`).
- `src/devtree`: decoding a flattened device tree blob, finding nodes by path, and reading the
  address ranges of their `reg` properties.
- `src/io`: a reader of big-endian words and zero-terminated strings, indentation, log levels.
- `src/boot`: the steps of booting: the free memory ranges, identity mapping of the kernel's
  sections, the `satp` value.
- `src/sbi`: SBI error codes and call arguments.
- `src/sync`: what `Once` does on each status it sees, and the outcome of trying a spin lock.

`app/` is the program around the library: it reads a device tree blob from a file, keeps the
control and status registers in memory, and holds the locks and `Once`, which need atomics and
`UnsafeCell`.
