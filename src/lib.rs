//! Physical memory management for a bare-metal kernel: discovery of usable
//! RAM at boot, a free-region allocator over physical address space, and the
//! ordering of processor bring-up that depends on it.

pub mod freelist;
pub mod physicalmem;
pub mod boot;
