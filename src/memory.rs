//! Addresses and the fixed virtual layout of the kernel.
use vstd::prelude::*;

verus! {

/// Size of a frame or a page.
pub const PAGE_SIZE: u64 = 4096;

/// Start of the kernel heap window.
pub const HEAP_START: u64 = 0x4444_4444_0000;

/// Size of the kernel heap window (10 MiB).
pub const HEAP_SIZE: u64 = 10 * 1024 * 1024;

/// Base of the window through which ACPI tables are mapped (physical plus base).
pub const ACPI_START: u64 = 0x4444_0000_0000;

/// Size of the kernel stack of a thread.
pub const KERNEL_STACK_SIZE: u64 = 8 * 1024;

/// Size of the stack that a kernel thread runs its body on, placed after its kernel stack.
pub const USER_STACK_SIZE: u64 = 8 * 1024;

/// A virtual address.
#[derive(Clone, Copy, Debug, PartialEq, Eq, Structural)]
pub struct SnVirtAddr(pub u64);

impl SnVirtAddr {
    pub fn as_u64(&self) -> (r: u64)
        ensures
            r == self.0,
    {
        self.0
    }

    pub fn new(addr: u64) -> (r: Self)
        ensures
            r.0 == addr,
    {
        Self(addr)
    }
}

/// A physical address.
#[derive(Clone, Copy, Debug, PartialEq, Eq, Structural)]
pub struct SnPhysAddr(pub u64);

impl SnPhysAddr {
    pub fn as_u64(&self) -> (r: u64)
        ensures
            r == self.0,
    {
        self.0
    }

    pub fn new(addr: u64) -> (r: Self)
        ensures
            r.0 == addr,
    {
        Self(addr)
    }
}

/// The start of the page that holds `addr`.
pub open spec fn page_of(addr: u64) -> u64 {
    (addr - addr % 4096) as u64
}

/// Rounds `addr` down to its page.
pub fn page_containing(addr: u64) -> (r: u64)
    ensures
        r == page_of(addr),
        r % 4096 == 0,
        r <= addr,
        addr - r < 4096,
{
    addr - addr % PAGE_SIZE
}

} // verus!
