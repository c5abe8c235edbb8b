use shinosawa::address_space::SnMapError;
use shinosawa::cpu::SnCpuContext;
use shinosawa::elf::{load_elf, SnLoadError, SnExecutable, USER_CODE_START};
use shinosawa::frame_alloc::{SnLimineFrameAllocator, SnMemoryRegion, SnMemoryRegionKind, BITMAP_FRAMES};
use shinosawa::kernel::{kernel_main, Kernel, SnBootError};
use shinosawa::memory::{SnPhysAddr, SnVirtAddr};
use shinosawa::paging::{USER_HEAP_REGION_START, USER_STACK_REGION_START};

const HHDM: u64 = 0xffff_8000_0000_0000;
const KERNEL_L4: u64 = 0x1000;

fn usable(base: u64, length: u64) -> SnMemoryRegion {
    SnMemoryRegion { base, length, kind: SnMemoryRegionKind::Usable }
}

fn boot(bytes: u64) -> Kernel {
    Kernel::init(vec![usable(0x10_0000, bytes)], HHDM, KERNEL_L4).unwrap()
}

/// A minimal ELF64 executable: one loadable segment at 0x200000 holding the
/// headers, then `payload`; the entry point is the first byte of `payload`.
fn user_elf(payload: &[u8]) -> Vec<u8> {
    let total = (64 + 56 + payload.len()) as u64;
    let mut b: Vec<u8> = Vec::new();
    b.extend_from_slice(&[0x7f, b'E', b'L', b'F', 2, 1, 1, 0]);
    b.extend_from_slice(&[0; 8]);
    b.extend_from_slice(&2u16.to_le_bytes()); // executable
    b.extend_from_slice(&0x3eu16.to_le_bytes()); // x86_64
    b.extend_from_slice(&1u32.to_le_bytes());
    b.extend_from_slice(&(0x20_0000u64 + 120).to_le_bytes()); // entry
    b.extend_from_slice(&64u64.to_le_bytes()); // program headers
    b.extend_from_slice(&0u64.to_le_bytes()); // no section headers
    b.extend_from_slice(&0u32.to_le_bytes());
    b.extend_from_slice(&64u16.to_le_bytes());
    b.extend_from_slice(&56u16.to_le_bytes());
    b.extend_from_slice(&1u16.to_le_bytes());
    b.extend_from_slice(&64u16.to_le_bytes());
    b.extend_from_slice(&0u16.to_le_bytes());
    b.extend_from_slice(&0u16.to_le_bytes());
    // the loadable segment
    b.extend_from_slice(&1u32.to_le_bytes());
    b.extend_from_slice(&5u32.to_le_bytes());
    b.extend_from_slice(&0u64.to_le_bytes());
    b.extend_from_slice(&0x20_0000u64.to_le_bytes());
    b.extend_from_slice(&0x20_0000u64.to_le_bytes());
    b.extend_from_slice(&total.to_le_bytes());
    b.extend_from_slice(&total.to_le_bytes());
    b.extend_from_slice(&0x1000u64.to_le_bytes());
    assert_eq!(b.len(), 120);
    b.extend_from_slice(payload);
    b
}

/// Boots with 16 MiB, loads a user program holding "hi" and starts it.
fn boot_user() -> (Kernel, u64) {
    let mut k = boot(16 * 1024 * 1024);
    let tid = kernel_main(&mut k, user_elf(b"hi"), 0x7000_0000).unwrap();
    (k, tid)
}

/// Runs one timer tick with the running thread's snapshot where the entry leaves it.
fn tick(k: &mut Kernel) -> u64 {
    let (addr, saved) = match k.scheduler.current_thread() {
        Some(t) => (t.context, t.saved),
        None => (0, SnCpuContext::zeroed()),
    };
    k.timer_interrupt_handler(addr, saved)
}

#[test]
fn frame_allocator_exhaustion() {
    let mut a = SnLimineFrameAllocator::init(vec![usable(0x10_0000, 1024 * 4096)], HHDM);
    let mut count = 0u64;
    for _ in 0..1024 {
        if a.allocate_frame().is_some() {
            count += 1;
        }
    }
    assert_eq!(count, 1024 - BITMAP_FRAMES);
    assert_eq!(a.allocate_frame(), None);
    assert_eq!(a.level_3_summary(), 0);
}

#[test]
fn frame_allocator_lowest_first_and_reuse() {
    let mut a = SnLimineFrameAllocator::init(
        vec![SnMemoryRegion { base: 0, length: 0x1000, kind: SnMemoryRegionKind::Reserved }, usable(0x10_0000, 64 * 4096)],
        HHDM,
    );
    let f1 = a.allocate_frame().unwrap();
    let f2 = a.allocate_frame().unwrap();
    assert_eq!(f1, 0x10_0000 + BITMAP_FRAMES * 4096);
    assert_eq!(f2, f1 + 4096);
    assert_eq!(f1 % 4096, 0);
    assert!(!a.is_free_frame(f1));
    a.deallocate_frame(f1);
    assert!(a.is_free_frame(f1));
    assert_eq!(a.allocate_frame(), Some(f1));
    assert_eq!(a.allocate_frame(), Some(f2 + 4096));
}

#[test]
fn frame_allocator_aligns_region_start() {
    let mut a = SnLimineFrameAllocator::init(vec![usable(0x10_0123, 32 * 4096)], HHDM);
    let f = a.allocate_frame().unwrap();
    assert_eq!(f, 0x10_1000 + BITMAP_FRAMES * 4096);
}

#[test]
fn boot_without_usable_memory_fails() {
    let r = Kernel::init(
        vec![SnMemoryRegion { base: 0, length: 0x10000, kind: SnMemoryRegionKind::Reserved }],
        HHDM,
        KERNEL_L4,
    );
    assert_eq!(r.err(), Some(SnBootError::NoUsableMemory));
}

#[test]
fn boot_to_idle() {
    // 8 MiB of usable memory at 1 MiB, no framebuffer
    let mut k = boot(8 * 1024 * 1024);
    // the 10 MiB heap window needs more frames than 8 MiB holds
    assert_eq!(k.init_heap(), Err(SnMapError::FrameAllocationFailed));
    let mut k = boot(16 * 1024 * 1024);
    assert_eq!(k.init_heap(), Ok(()));
    let heap_page = k.memory.translate(KERNEL_L4, 0x4444_4444_0000).unwrap();
    assert!(heap_page.flags.writable && !heap_page.flags.user_accessible);
    let idle = k.scheduler.new_kernel_thread(0xffff_ffff_8000_1000, 0x6000_0000);
    assert_eq!(tick(&mut k), 0x6000_0000 + 8 * 1024 - 160);
    assert_eq!(k.scheduler.current_thread_id(), Some(idle));
    k.printk("kernel init done!");
    let text: String = k.log.drain().into_iter().collect();
    assert!(text.contains("shinosawa::system::kernel: kernel init done!"));
}

#[test]
fn round_robin() {
    let mut k = boot(8 * 1024 * 1024);
    let a = k.scheduler.new_kernel_thread(0x1000, 0x6000_0000);
    let b = k.scheduler.new_kernel_thread(0x2000, 0x6100_0000);
    let c = k.scheduler.new_kernel_thread(0x3000, 0x6200_0000);
    let mut counts = [0u32; 3];
    for _ in 0..30 {
        tick(&mut k);
        let id = k.scheduler.current_thread_id().unwrap();
        let i = [a, b, c].iter().position(|x| *x == id).unwrap();
        counts[i] += 1;
    }
    assert_eq!(counts, [10, 10, 10]);
}

#[test]
fn schedule_thread_runs_next() {
    let mut k = boot(8 * 1024 * 1024);
    let a = k.scheduler.new_kernel_thread(0x1000, 0x6000_0000);
    let b = k.scheduler.new_kernel_thread(0x2000, 0x6100_0000);
    tick(&mut k);
    assert_eq!(k.scheduler.current_thread_id(), Some(a));
    assert_eq!(k.scheduler.queued_ids(), vec![b]);
    tick(&mut k);
    assert_eq!(k.scheduler.current_thread_id(), Some(b));
    assert_eq!(k.scheduler.queued_ids(), vec![a]);
}

#[test]
fn kernel_thread_start_context() {
    let mut k = boot(8 * 1024 * 1024);
    k.scheduler.new_kernel_thread(0xabc000, 0x6000_0000);
    let t = k.scheduler.queued_thread(0);
    assert_eq!(t.saved.rip, 0xabc000);
    assert_eq!(t.saved.rsp, 0x6000_0000 + 16 * 1024);
    assert_eq!(t.saved.rflags, 0x200);
    assert_eq!((t.saved.cs, t.saved.ss), (0x08, 0x10));
    assert_eq!(t.page_table_addr, 0);
    assert_eq!(t.context, 0x6000_0000 + 8 * 1024 - 160);
}

#[test]
fn user_write() {
    let (mut k, tid) = boot_user();
    tick(&mut k);
    assert_eq!(k.scheduler.current_thread_id(), Some(tid));
    let t = k.scheduler.current_thread().unwrap();
    assert_eq!(k.memory.get_current_page_table_phys_addr(), t.page_table_addr);
    assert_eq!(t.saved.rip, 0x20_0000 + 120);
    assert_eq!((t.saved.cs, t.saved.ss), (0x33, 0x2b));
    assert!(t.saved.rax >= USER_HEAP_REGION_START);
    assert_eq!(t.saved.rcx, t.saved.rax + 0x20_0000);
    assert!(t.user_stack_end > USER_STACK_REGION_START);
    let before = k.log.drain();
    assert!(!before.is_empty());
    // syscall(1, "hi", 2)
    let mut ctx = t.saved;
    ctx.rax = 1;
    ctx.rdi = 0x20_0000 + 120;
    ctx.rsi = 2;
    k.dispatch_syscall(&mut ctx, 0x7100_0000);
    let text: String = k.log.drain().into_iter().collect();
    assert_eq!(text, "hi");
    // syscall(11)
    ctx.rax = 11;
    k.dispatch_syscall(&mut ctx, 0x7100_0000);
    assert_eq!(k.scheduler.current_thread_id(), None);
    assert_eq!(k.scheduler.queue_len(), 0);
    assert!(!k.memory.has_page_table(t.page_table_addr));
}

#[test]
fn user_write_outside_user_memory_logs_nothing() {
    let (mut k, _) = boot_user();
    tick(&mut k);
    k.log.drain();
    let mut ctx = k.scheduler.current_thread().unwrap().saved;
    ctx.rax = 1;
    ctx.rdi = 0x4444_4444_0000;
    ctx.rsi = 4;
    k.dispatch_syscall(&mut ctx, 0x7100_0000);
    ctx.rax = 1;
    ctx.rdi = 0x20_0000 + 120;
    ctx.rsi = 0;
    k.dispatch_syscall(&mut ctx, 0x7100_0000);
    assert!(k.log.drain().is_empty());
}

#[test]
fn user_write_invalid_utf8_logs_nothing() {
    let mut k = boot(16 * 1024 * 1024);
    kernel_main(&mut k, user_elf(&[0xff, 0xfe]), 0x7000_0000).unwrap();
    tick(&mut k);
    k.log.drain();
    let mut ctx = k.scheduler.current_thread().unwrap().saved;
    ctx.rax = 1;
    ctx.rdi = 0x20_0000 + 120;
    ctx.rsi = 2;
    k.dispatch_syscall(&mut ctx, 0x7100_0000);
    assert!(k.log.drain().is_empty());
}

#[test]
fn exit_with_other_threads_keeps_queue() {
    let (mut k, _) = boot_user();
    let other = k.scheduler.new_kernel_thread(0x1000, 0x6000_0000);
    tick(&mut k);
    let mut ctx = k.scheduler.current_thread().unwrap().saved;
    ctx.rax = 11;
    k.dispatch_syscall(&mut ctx, 0x7100_0000);
    assert_eq!(k.scheduler.current_thread_id(), None);
    assert_eq!(k.scheduler.queued_ids(), vec![other]);
}

#[test]
fn fork() {
    let (mut k, parent) = boot_user();
    tick(&mut k);
    let t = k.scheduler.current_thread().unwrap();
    let mut ctx = t.saved;
    ctx.rax = 10;
    ctx.r12 = 0x1234;
    let before = ctx;
    k.dispatch_syscall(&mut ctx, 0x7100_0000);
    let child_id = ctx.rdi;
    assert_ne!(child_id, 0);
    assert_ne!(child_id, parent);
    assert_eq!(ctx.rax, 0);
    assert_eq!(ctx.r12, 0x1234);
    let child = k.scheduler.queued_thread(0);
    assert_eq!(child.id, child_id);
    assert_eq!(child.saved.rax, 0);
    assert_eq!(child.saved.rdi, 0);
    assert_eq!(child.saved.rip, before.rip);
    assert_eq!(child.saved.r12, 0x1234);
    assert_eq!(child.process, t.process);
    assert_eq!(child.page_table_addr, t.page_table_addr);
    assert_eq!(k.scheduler.queue_len(), 1);
    assert_eq!(k.scheduler.current_thread().unwrap().process, child.process);
}

#[test]
fn fork_without_current_thread() {
    let mut k = boot(8 * 1024 * 1024);
    k.init_syscalls();
    let mut ctx = SnCpuContext::zeroed();
    ctx.rax = 10;
    k.dispatch_syscall(&mut ctx, 0x7100_0000);
    assert_eq!(ctx.rax, 1);
    assert_eq!(k.scheduler.queue_len(), 0);
}

#[test]
fn page_table_clone() {
    let mut k = boot(8 * 1024 * 1024);
    let text_page = 0xffff_ffff_8000_0000u64;
    k.memory.map_phys_page(SnPhysAddr::new(0x20_0000), SnVirtAddr::new(text_page)).unwrap();
    let kernel_view = k.memory.translate(KERNEL_L4, text_page).unwrap();
    let (virt, phys) = k.memory.create_new_user_pagetable().unwrap();
    assert_eq!(virt.as_u64(), HHDM + phys.as_u64());
    assert_eq!(k.memory.translate(phys.as_u64(), text_page), Some(kernel_view));
    assert_eq!(kernel_view.frame, 0x20_0000);
    assert!(kernel_view.flags.no_cache);
}

#[test]
fn free_user_address_space_returns_frames() {
    let mut k = boot(8 * 1024 * 1024);
    let (_, phys) = k.memory.create_new_user_pagetable().unwrap();
    let l4 = phys.as_u64();
    let (bottom, top) = k.memory.map_user_stack_slot(l4).unwrap();
    assert_eq!(top - bottom, 0x20_0000 - 4096);
    assert_eq!(k.memory.translate(l4, bottom - 4096), None);
    let frame = k.memory.translate(l4, bottom).unwrap().frame;
    assert!(!k.memory.frame_allocator().is_free_frame(frame));
    assert!(!k.memory.frame_allocator().is_free_frame(l4));
    k.memory.free_user_pagetables(l4);
    assert!(k.memory.frame_allocator().is_free_frame(frame));
    assert!(k.memory.frame_allocator().is_free_frame(l4));
    assert!(!k.memory.has_page_table(l4));
}

#[test]
fn stack_slots_do_not_overlap() {
    let mut k = boot(16 * 1024 * 1024);
    let (_, phys) = k.memory.create_new_user_pagetable().unwrap();
    let l4 = phys.as_u64();
    let (b1, t1) = k.memory.map_user_stack_slot(l4).unwrap();
    let (b2, t2) = k.memory.map_user_stack_slot(l4).unwrap();
    assert!(t1 <= b2 - 4096 || t2 <= b1 - 4096);
    let (h1, e1) = k.memory.map_user_heap_slot(l4).unwrap();
    let (h2, _) = k.memory.map_user_heap_slot(l4).unwrap();
    assert_eq!(e1 - h1, 0x20_0000);
    assert_eq!(h2 - h1, 0x40_0000);
}

#[test]
fn with_page_table_restores_active_table() {
    let mut k = boot(8 * 1024 * 1024);
    let (_, phys) = k.memory.create_new_user_pagetable().unwrap();
    let seen = k.memory.with_page_table(phys, |m| m.get_current_page_table_phys_addr());
    assert_eq!(seen, phys.as_u64());
    assert_eq!(k.memory.get_current_page_table_phys_addr(), KERNEL_L4);
}

#[test]
fn map_user_memory_twice_is_refused() {
    let mut k = boot(8 * 1024 * 1024);
    let (_, phys) = k.memory.create_new_user_pagetable().unwrap();
    k.memory.switch_page_table(phys);
    assert_eq!(k.memory.map_user_memory(SnVirtAddr::new(0x40_0000), SnVirtAddr::new(0x40_1fff)), Ok(()));
    let m = k.memory.translate(phys.as_u64(), 0x40_1000).unwrap();
    assert!(m.flags.user_accessible && m.flags.writable);
    assert_eq!(
        k.memory.map_user_memory(SnVirtAddr::new(0x40_1000), SnVirtAddr::new(0x40_1000)),
        Err(SnMapError::PageAlreadyMapped)
    );
    assert_eq!(k.memory.unmap_memory(SnVirtAddr::new(0x40_0000), SnVirtAddr::new(0x40_1fff)), Ok(()));
    assert_eq!(k.memory.translate(phys.as_u64(), 0x40_1000), None);
    assert_eq!(
        k.memory.unmap_memory(SnVirtAddr::new(0x40_0000), SnVirtAddr::new(0x40_0000)),
        Err(SnMapError::PageNotMapped)
    );
}

#[test]
fn map_phys_memory_skips_mapped_pages() {
    let mut k = boot(8 * 1024 * 1024);
    let base = 0x4444_0000_0000u64;
    k.memory.map_phys_page(SnPhysAddr::new(0x9000), SnVirtAddr::new(base + 0x1000)).unwrap();
    let covered = k.memory
        .map_phys_memory(SnVirtAddr::new(base), SnVirtAddr::new(base + 0x2000), SnPhysAddr::new(0xe0000), 0x2000)
        .unwrap();
    assert_eq!(covered, 0x3000);
    assert_eq!(k.memory.translate(KERNEL_L4, base).unwrap().frame, 0xe0000);
    assert_eq!(k.memory.translate(KERNEL_L4, base + 0x1000).unwrap().frame, 0x9000);
    assert_eq!(k.memory.translate(KERNEL_L4, base + 0x2000).unwrap().frame, 0xe2000);
}

#[test]
fn load_elf_errors() {
    let mut k = boot(8 * 1024 * 1024);
    assert_eq!(load_elf(&mut k.memory, b"nope").err(), Some(SnLoadError::NotElf));
    assert_eq!(load_elf(&mut k.memory, &[0x7f, b'E', b'L']).err(), Some(SnLoadError::NotElf));
    assert_eq!(load_elf(&mut k.memory, &[0x7f, b'E', b'L', b'F', 0, 0]).err(), Some(SnLoadError::ParseError));
    let mut bad = user_elf(b"x");
    // move the segment below the user code range
    bad[64 + 16..64 + 24].copy_from_slice(&0x1000u64.to_le_bytes());
    assert_eq!(load_elf(&mut k.memory, &bad).err(), Some(SnLoadError::SegmentOutOfRange));
    assert_eq!(SnLoadError::NotElf.message(), "Expected ELF binary");
    assert_eq!(SnLoadError::ParseError.message(), "Could not parse ELF");
}

#[test]
fn load_elf_maps_and_copies_segment() {
    let mut k = boot(8 * 1024 * 1024);
    let exe = load_elf(&mut k.memory, &user_elf(b"kotono")).unwrap();
    assert_eq!(exe.entry_point().as_u64(), USER_CODE_START + 120);
    let pt = exe.page_table_phys().as_u64();
    assert_eq!(exe.page_table_virt().as_u64(), HHDM + pt);
    let bytes = k.memory.read_user_bytes(pt, USER_CODE_START + 120, 6).unwrap();
    assert_eq!(bytes, b"kotono".to_vec());
    let head = k.memory.read_user_bytes(pt, USER_CODE_START, 4).unwrap();
    assert_eq!(head, vec![0x7f, b'E', b'L', b'F']);
    assert_eq!(k.memory.read_user_bytes(pt, USER_CODE_START + 0x1000, 1), None);
}

#[test]
fn boot_errors() {
    let overflowing = vec![usable(0x10_0000, 0x1000), usable(u64::MAX - 0x10, 0x100)];
    assert_eq!(Kernel::init(overflowing, HHDM, KERNEL_L4).err(), Some(SnBootError::BadMemoryMap));
    let inside = Kernel::init(vec![usable(0x10_0000, 64 * 4096)], HHDM, 0x10_0000 + 20 * 4096);
    assert_eq!(inside.err(), Some(SnBootError::BadKernelPageTable));
    let too_high = Kernel::init(vec![usable(0x10_0000, 64 * 4096)], u64::MAX - 0x1000, KERNEL_L4);
    assert_eq!(too_high.err(), Some(SnBootError::BadMemoryMap));
}

#[test]
fn kernel_main_rejects_bad_executable() {
    let mut k = boot(8 * 1024 * 1024);
    assert_eq!(kernel_main(&mut k, b"not an executable".to_vec(), 0x7000_0000), Err(SnBootError::BadExecutable));
    assert_eq!(k.scheduler.queue_len(), 0);
}

#[test]
fn kernel_main_out_of_memory() {
    // room for the program, not for its stack and heap
    let mut k = boot((BITMAP_FRAMES + 8) * 4096);
    assert_eq!(kernel_main(&mut k, user_elf(b"hi"), 0x7000_0000), Err(SnBootError::OutOfMemory));
    assert_eq!(k.scheduler.queue_len(), 0);
}

#[test]
fn load_elf_out_of_memory() {
    let mut k = boot((BITMAP_FRAMES + 2) * 4096);
    assert_eq!(load_elf(&mut k.memory, &user_elf(b"hi")).err(), Some(SnLoadError::OutOfMemory));
}

#[test]
fn kernel_main_with_wrapping_stack_base() {
    let mut k = boot(16 * 1024 * 1024);
    assert_eq!(kernel_main(&mut k, user_elf(b"hi"), u64::MAX - 100), Err(SnBootError::OutOfMemory));
    assert_eq!(k.scheduler.queue_len(), 0);
}

#[test]
fn with_page_table_result_and_effect() {
    let mut k = boot(8 * 1024 * 1024);
    let (_, phys) = k.memory.create_new_user_pagetable().unwrap();
    let r = k.memory.with_page_table(phys, |m| m.map_user_memory(SnVirtAddr::new(0x40_0000), SnVirtAddr::new(0x40_0000)));
    assert_eq!(r, Ok(()));
    assert!(k.memory.translate(phys.as_u64(), 0x40_0000).unwrap().flags.user_accessible);
    assert_eq!(k.memory.translate(KERNEL_L4, 0x40_0000), None);
}
