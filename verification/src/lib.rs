//! Verified core of a small x86_64 UEFI kernel: the framebuffer terminal,
//! the physical frame allocator over the firmware memory map, the choice of
//! the heap region and the bookkeeping around interrupts.

pub mod term;
pub mod memory;
pub mod frame_allocator;
pub mod interrupts;
