# moeos

A verified model of the memory management of a small RISC-V (Sv39) kernel,
written in Verus.

- `src/mem/page.rs`: the heap. A table of page descriptors followed by the
  allocation area; first-fit allocation of page runs (`alloc_pages`,
  `zalloc`), freeing (`dealloc`), and the heap's abstract view `HeapView`
  with the laws of allocation and freeing.
- `src/mem/mmu.rs`: Sv39 page tables kept in heap pages: entries, the
  hardware walk (`translate`, `virt_to_phys`), `map`, `map_range`, `unmap`,
  and the law that a mapped page translates to its physical page.
- `src/init.rs`: kernel start-up decisions: the heap from the device tree's
  memory node, the device-tree queries printed at start-up (CPU count,
  `/soc` children, `/chosen` stdout), and the kernel's identity mapping
  (`init_mmu`).
- `src/sbi.rs`, `src/io/console.rs`, `src/timer.rs`, `src/trap.rs`,
  `src/device/`: the firmware calls the console and timer make, the trap
  decision, the board's settings, and the device-tree copy and the checks
  of which trees the `fdt` crate reads without panicking.
- `app/`: the kernel glue that performs those calls on a hart (firmware
  `ecall`s, control registers, raw memory, printing).
