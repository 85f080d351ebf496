use vstd::prelude::*;
use crate::mem::page::Heap;

verus! {

/// Where the board's memory starts.
pub const MEMORY_START: usize = 0x4000_0000;

/// Size of the board's memory in bytes: 64 MiB.
pub const MEMORY_SIZE: usize = 64 * 1024 * 1024;

/// Room left above the boot stack before the heap starts.
pub const HEAP_GAP: usize = 0x80000;

/// Where the heap starts, given the top of the boot stack.
pub open spec fn heap_start_of(boot_stack_top: usize) -> int {
    boot_stack_top + 0x80000
}

/// Sets up the heap from `HEAP_GAP` above the boot stack to the end of the
/// board's memory.
pub fn init(boot_stack_top: usize) -> (h: Heap)
    requires
        heap_start_of(boot_stack_top) <= MEMORY_START + MEMORY_SIZE,
    ensures
        h.wf(),
        h@ == Heap::init_view(
            heap_start_of(boot_stack_top),
            MEMORY_START + MEMORY_SIZE - heap_start_of(boot_stack_top),
        ),
{
    let heap_start = boot_stack_top + HEAP_GAP;
    let memory_size = MEMORY_SIZE;
    let memory_start = MEMORY_START;
    let heap_end = memory_size + memory_start;
    Heap::init(heap_start, heap_end - heap_start)
}

} // verus!
