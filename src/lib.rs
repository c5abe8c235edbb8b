//! A small x86_64 microkernel core, modelled as verified state machines:
//! the physical frame allocator, address spaces, the thread scheduler,
//! the system-call and interrupt dispatch tables, the ELF loader, the kernel
//! log and a read-only virtual filesystem.
use vstd::prelude::*;

pub mod bits;
pub mod memory;
pub mod frame_alloc;
pub mod address_space;
pub mod paging;
pub mod cpu;
pub mod elf;
pub mod thread;
pub mod logger;
pub mod syscall;
pub mod interrupt;
pub mod vfs;
pub mod acpi;
pub mod kernel;

verus! {

} // verus!
