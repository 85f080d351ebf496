pub mod page;
pub mod mmu;
