//! Hardware facts read from the ACPI tables, and the mapper the ACPI table
//! parser needs: physical regions appear at a fixed kernel window.
use vstd::prelude::*;
use crate::address_space::{SnMapError, SnMapping};
use crate::memory::{page_of, SnPhysAddr, SnVirtAddr, ACPI_START};
use crate::paging::{in_page_range, mmio_flags, MemoryInfo};

verus! {

/// How interrupts reach the CPU.
pub enum SnInterruptModel {
    Unknown,
    Apic { local_apic_address: u64, io_apic_addresses: Vec<u64> },
}

/// What the kernel learns from the ACPI tables.
pub struct SnHardwareInfo {
    pub interrupt_model: SnInterruptModel,
    pub processor_count: u64,
}

impl SnHardwareInfo {
    /// Physical address of the first IO APIC, when interrupts go through APICs.
    pub fn first_io_apic(&self) -> (r: Option<u64>)
        ensures
            r == match self.interrupt_model {
                SnInterruptModel::Apic { io_apic_addresses, .. } => if io_apic_addresses@.len() > 0 {
                    Some(io_apic_addresses@[0])
                } else {
                    None
                },
                SnInterruptModel::Unknown => None,
            },
    {
        match &self.interrupt_model {
            SnInterruptModel::Apic { io_apic_addresses, .. } => if io_apic_addresses.len() > 0 {
                Some(io_apic_addresses[0])
            } else {
                None
            },
            SnInterruptModel::Unknown => None,
        }
    }
}

/// A physical region the ACPI parser asked for, and where it is seen.
#[derive(Clone, Copy, Debug, PartialEq, Eq, Structural)]
pub struct SnPhysicalMapping {
    pub physical_start: u64,
    pub virtual_start: u64,
    pub region_length: u64,
    pub mapped_length: u64,
}

/// The mapper handed to the ACPI table parser.
#[derive(Clone, Copy, Debug, PartialEq, Eq, Structural)]
pub struct SnAcpiHandler {}

impl SnAcpiHandler {
    pub fn new() -> (r: SnAcpiHandler) {
        SnAcpiHandler {  }
    }

    /// Maps `size` bytes from `physical_address` on at `ACPI_START +
    /// physical_address` in the active tree, uncached, skipping pages that are
    /// mapped already; returns the mapping with the bytes the range covers.
    pub fn map_physical_region(&self, mem: &mut MemoryInfo, physical_address: u64, size: u64) -> (r: Result<
        SnPhysicalMapping,
        SnMapError,
    >)
        requires
            old(mem).wf(),
            ACPI_START + physical_address + size < 0xFFFF_FFFF_FFFF_F000,
        ensures
            final(mem).wf(),
            final(mem).active() == old(mem).active(),
            r matches Ok(m) ==> {
                &&& m.physical_start == physical_address
                &&& m.virtual_start == ACPI_START + physical_address
                &&& m.region_length == size
                &&& m.mapped_length == page_of((m.virtual_start + size) as u64) - page_of(m.virtual_start) + 4096
                &&& forall|x: u64|
                    in_page_range(x, m.virtual_start, (m.virtual_start + size) as u64)
                        ==> (#[trigger] final(mem).space(old(mem).active()).mapping(x)) is Some
            },
            forall|x: u64|
                !in_page_range(x, (ACPI_START + physical_address) as u64, (ACPI_START + physical_address + size) as u64)
                    ==> #[trigger] final(mem).space(old(mem).active()).mapping(x) == old(mem).space(
                    old(mem).active(),
                ).mapping(x),
            r is Err ==> r == Err::<SnPhysicalMapping, SnMapError>(SnMapError::FrameAllocationFailed)
                && final(mem).allocator().free_frames().is_empty(),
            r is Ok ==> forall|x: u64|
                in_page_range(x, (ACPI_START + physical_address) as u64, (ACPI_START + physical_address + size) as u64)
                    ==> #[trigger] final(mem).space(old(mem).active()).mapping(x) == if old(mem).space(
                    old(mem).active(),
                ).mapping(x) is Some {
                    old(mem).space(old(mem).active()).mapping(x)
                } else {
                    Some(
                        SnMapping {
                            page: x,
                            frame: (page_of(physical_address) + (x - page_of(
                                (ACPI_START + physical_address) as u64,
                            ))) as u64,
                            flags: mmio_flags(),
                        },
                    )
                },
    {
        let start_addr = ACPI_START + physical_address;
        let end_addr = start_addr + size;
        proof {
            assert(page_of(physical_address) <= physical_address);
            assert(page_of(end_addr) - page_of(start_addr) <= end_addr - start_addr + 4096);
        }
        let mapped = mem.map_phys_memory(
            SnVirtAddr::new(start_addr),
            SnVirtAddr::new(end_addr),
            SnPhysAddr::new(physical_address),
            size as usize,
        );
        match mapped {
            Ok(mapped_length) => Ok(
                SnPhysicalMapping {
                    physical_start: physical_address,
                    virtual_start: start_addr,
                    region_length: size,
                    mapped_length,
                },
            ),
            Err(e) => Err(e),
        }
    }

    /// Unmaps a region `map_physical_region` mapped.
    pub fn unmap_physical_region(&self, mem: &mut MemoryInfo, region: &SnPhysicalMapping) -> (r: Result<
        (),
        SnMapError,
    >)
        requires
            old(mem).wf(),
            region.virtual_start + region.region_length < 0xFFFF_FFFF_FFFF_F000,
            old(mem).active() == old(mem).kernel().l4() ==> forall|x: u64|
                in_page_range(x, region.virtual_start, (region.virtual_start + region.region_length) as u64)
                    ==> (#[trigger] old(mem).kernel().mapping(x) matches Some(m) ==> !m.flags.user_accessible),
        ensures
            final(mem).wf(),
            final(mem).active() == old(mem).active(),
            r is Ok ==> forall|x: u64|
                in_page_range(x, region.virtual_start, (region.virtual_start + region.region_length) as u64)
                    ==> (#[trigger] final(mem).space(old(mem).active()).mapping(x)) is None,
            r is Err ==> r == Err::<(), SnMapError>(SnMapError::PageNotMapped) && exists|x: u64|
                in_page_range(x, region.virtual_start, (region.virtual_start + region.region_length) as u64)
                    && (#[trigger] old(mem).space(old(mem).active()).mapping(x)) is None,
            forall|x: u64|
                !in_page_range(x, region.virtual_start, (region.virtual_start + region.region_length) as u64)
                    ==> #[trigger] final(mem).space(old(mem).active()).mapping(x) == old(mem).space(
                    old(mem).active(),
                ).mapping(x),
    {
        mem.unmap_memory(
            SnVirtAddr::new(region.virtual_start),
            SnVirtAddr::new(region.virtual_start + region.region_length),
        )
    }
}

} // verus!
