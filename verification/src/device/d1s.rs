use vstd::prelude::*;
use crate::mem::page::Heap;

pub mod config;
pub mod mem;
pub mod mq;

verus! {

/// Size of the board's memory in bytes: 64 MiB.
pub const MEMORY_SIZE: usize = 64 * 1024 * 1024;

/// Sets up the heap at `heap_start`, giving it the size of the whole
/// memory.
pub fn memory_init(heap_start: usize) -> (h: Heap)
    requires
        heap_start + MEMORY_SIZE + MEMORY_SIZE / 4096 + 4095 <= usize::MAX,
    ensures
        h.wf(),
        h@ == Heap::init_view(heap_start as int, MEMORY_SIZE as int),
{
    Heap::init(heap_start, MEMORY_SIZE)
}

} // verus!
