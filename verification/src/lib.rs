//! A verified model of a small RISC-V kernel's memory management: a
//! first-fit page allocator over a descriptor table and Sv39 page tables
//! stored in the pages it hands out, together with the decisions of the
//! console, timer, trap and device-tree code around them.
use vstd::prelude::*;

pub mod mem;

pub mod init;
pub mod sbi;
pub mod io;
pub mod timer;
pub mod trap;
pub mod device;
