use shinosawa::acpi::SnAcpiHandler;
use shinosawa::cpu::{
    get_kernel_segments, get_user_segments, set_context, set_interrupt_stack_table, InterruptIndex,
    InterruptStackIndex, SnCpuContext, SnTaskStateSegment,
};
use shinosawa::interrupt::{platform_irq, InterruptController};
use shinosawa::kernel::Kernel;
use shinosawa::logger::{clean_buffer, SnLogBuffer, BUF_SIZE};
use shinosawa::memory::{SnPhysAddr, SnVirtAddr, ACPI_START};
use shinosawa::syscall::{
    fork_result, returns_with_sysret, syscall_arguments, SnSyscallKind, Syscall, SyscallController, SyscallError,
};
use shinosawa::frame_alloc::{SnMemoryRegion, SnMemoryRegionKind};
use shinosawa::vfs::{find, new_example_filesystem, split_path, SnVfs, SnVfsError, SnVfsNode, SnVfsType};

#[test]
fn split_path_cases() {
    assert_eq!(split_path("a/b/c"), ("a", Some("b/c")));
    assert_eq!(split_path("/a/b"), ("a", Some("b")));
    assert_eq!(split_path("//x/"), ("x", Some("")));
    assert_eq!(split_path("abc"), ("abc", None));
    assert_eq!(split_path(""), ("", None));
    assert_eq!(split_path("SNSW:/shinosawa"), ("SNSW:", Some("shinosawa")));
}

fn mounted() -> SnVfs {
    let mut vfs = SnVfs::new();
    vfs.attach("SNSW:", new_example_filesystem(b"ELF!".to_vec()));
    vfs
}

#[test]
fn vfs_find_file() {
    let vfs = mounted();
    let r = find(&vfs, "SNSW:/shinosawa/system/kotono").unwrap();
    let node = vfs.node(r);
    assert!(node.is_file());
    assert!(!node.is_dir());
    assert_eq!(node.len(), 4);
    assert_eq!(node.name(), "kotono");
    let mut buf = vec![9u8; 6];
    assert_eq!(node.read(&mut buf), Ok(4));
    assert_eq!(buf, vec![b'E', b'L', b'F', b'!', 9, 9]);
    let mut small = vec![0u8; 2];
    assert_eq!(node.read(&mut small), Err(SnVfsError::ReadError));
}

#[test]
fn vfs_find_with_dots_and_slashes() {
    let vfs = mounted();
    let a = find(&vfs, "SNSW:/./shinosawa//system/kotono").unwrap();
    let b = find(&vfs, "SNSW:/shinosawa/system/kotono").unwrap();
    assert_eq!(a, b);
    let dir = find(&vfs, "SNSW:/shinosawa").unwrap();
    assert_eq!(vfs.node(dir).node_type(), SnVfsType::Dir);
}

#[test]
fn vfs_not_found() {
    let vfs = mounted();
    assert_eq!(find(&vfs, "SNSW:/nope").err(), Some(SnVfsError::NotFound));
    assert_eq!(find(&vfs, "NOPE:/shinosawa").err(), Some(SnVfsError::NotFound));
    assert_eq!(find(&vfs, "SNSW:").err(), Some(SnVfsError::NotFound));
    assert_eq!(find(&vfs, "SNSW:/shinosawa/system/kotono/more").err(), Some(SnVfsError::NotFound));
}

#[test]
fn vfs_read_dir_and_directory_read() {
    let fs = new_example_filesystem(Vec::new());
    let entries = fs.read_dir(2);
    assert_eq!(entries.len(), 1);
    assert_eq!(entries[0].name, "kotono");
    assert_eq!(entries[0].dir_type, SnVfsType::File);
    let mut buf = vec![0u8; 4];
    assert_eq!(fs.node(0).read(&mut buf), Err(SnVfsError::ReadError));
    assert_eq!(fs.node(0).len(), 0);
}

#[test]
fn vfs_attach_replaces_drive() {
    let mut vfs = mounted();
    vfs.attach("SNSW:", new_example_filesystem(b"new".to_vec()));
    let r = find(&vfs, "SNSW:/shinosawa/system/kotono").unwrap();
    assert_eq!(vfs.node(r).len(), 3);
}

#[test]
fn log_keeps_last_16k() {
    let mut log = SnLogBuffer::new();
    log.write_str("ab");
    assert_eq!(clean_buffer(&log), vec!['a', 'b']);
    let long: String = std::iter::repeat('x').take(BUF_SIZE).collect();
    log.write_str(&long);
    log.write_str("yz");
    let all = log.drain();
    assert_eq!(all.len(), BUF_SIZE);
    assert_eq!(all[BUF_SIZE - 2..], ['y', 'z']);
    assert_eq!(all[0], 'x');
    assert!(log.drain().is_empty());
}

#[test]
fn syscall_table() {
    let mut c = SyscallController::new();
    assert_eq!(c.run_handler(1), None);
    c.set_handler(Syscall::Write.as_u64(), SnSyscallKind::Write);
    assert_eq!(c.run_handler(1), Some(SnSyscallKind::Write));
    assert_eq!(c.run_handler(40), None);
    assert_eq!(Syscall::Read.as_u64(), 0);
    assert_eq!(Syscall::Fork.as_u64(), 10);
    assert_eq!(Syscall::Exit.as_u64(), 11);
    assert_eq!(Syscall::Max.as_u64(), 255);
}

#[test]
fn syscall_marshalling() {
    let mut ctx = SnCpuContext::zeroed();
    ctx.rax = 1;
    ctx.rdi = 2;
    ctx.rsi = 3;
    ctx.rdx = 4;
    assert_eq!(syscall_arguments(&ctx), (1, 2, 3, 4));
    assert!(returns_with_sysret(0x20_0000));
    assert!(!returns_with_sysret(0x5000_0000));
    assert!(!returns_with_sysret(0xffff_ffff_8000_0000));
}

#[test]
fn interrupt_table() {
    let mut c = InterruptController::new();
    assert_eq!(c.run_handler(1), None);
    c.set_handler(1, 77);
    assert_eq!(c.run_handler(1), Some(77));
    assert_eq!(c.run_handler(32), None);
    assert_eq!(platform_irq(0x41), Some(1));
    assert_eq!(platform_irq(0x3f), None);
    assert_eq!(platform_irq(0x60), None);
}

#[test]
fn cpu_context_and_segments() {
    let mut ctx = SnCpuContext::zeroed();
    set_context(&mut ctx, 0x20_0078, 0x1800_0020_0000, true);
    assert_eq!(ctx.instruction_pointer(), 0x20_0078);
    assert_eq!(ctx.rsp, 0x1800_0020_0000);
    assert_eq!((ctx.cs, ctx.ss, ctx.rflags), (0x33, 0x2b, 0x200));
    ctx.set_stack_pointer(5);
    ctx.set_ret_val_1(6);
    ctx.set_arg_val_1(7);
    ctx.set_heap_addrs(8, 9);
    assert_eq!((ctx.rsp, ctx.rax, ctx.rdi, ctx.rcx), (5, 8, 7, 9));
    assert_eq!(get_kernel_segments(), (0x08, 0x10));
    assert_eq!(get_user_segments(), (0x33, 0x2b));
}

#[test]
fn interrupt_indexes_and_tss() {
    assert_eq!(InterruptIndex::ApicError.as_u8(), 0xfd);
    assert_eq!(InterruptIndex::ApicTimer.as_u8(), 0xfe);
    assert_eq!(InterruptIndex::ApicSpurious.as_usize(), 0xff);
    assert_eq!(InterruptStackIndex::Timer.as_usize(), 1);
    let mut tss = SnTaskStateSegment::new();
    set_interrupt_stack_table(&mut tss, InterruptStackIndex::Timer.as_usize(), 0xdead_b000);
    assert_eq!(tss.interrupt_stack(1), 0xdead_b000);
    assert_eq!(tss.interrupt_stack(0), 0);
}

#[test]
fn acpi_window() {
    let mut k = Kernel::init(
        vec![SnMemoryRegion { base: 0x10_0000, length: 8 * 1024 * 1024, kind: SnMemoryRegionKind::Usable }],
        0xffff_8000_0000_0000,
        0x1000,
    )
    .unwrap();
    let h = SnAcpiHandler::new();
    let m = h.map_physical_region(&mut k.memory, 0x7fe_0010, 0x30).unwrap();
    assert_eq!(m.virtual_start, ACPI_START + 0x7fe_0010);
    assert_eq!(m.mapped_length, 0x1000);
    let page = k.memory.translate(0x1000, ACPI_START + 0x7fe_0000).unwrap();
    assert_eq!(page.frame, 0x7fe_0000);
    assert!(page.flags.no_cache && !page.flags.user_accessible);
    // a second, overlapping mapping skips the mapped page
    let m2 = h.map_physical_region(&mut k.memory, 0x7fe_0020, 0x1000).unwrap();
    assert_eq!(m2.mapped_length, 0x2000);
    assert_eq!(h.unmap_physical_region(&mut k.memory, &m2), Ok(()));
    assert_eq!(k.memory.translate(0x1000, ACPI_START + 0x7fe_0000), None);
}

#[test]
fn addresses() {
    assert_eq!(SnVirtAddr::new(5).as_u64(), 5);
    assert_eq!(SnPhysAddr::new(6).as_u64(), 6);
}

#[test]
fn fork_result_decoding() {
    assert_eq!(fork_result(0, 7), Ok(7));
    assert_eq!(fork_result(0, 0), Ok(0));
    assert_eq!(fork_result(1, 7), Err(SyscallError(1)));
}

#[test]
fn vfs_attach_keeps_other_drives() {
    let mut vfs = mounted();
    vfs.attach("BOOT:", new_example_filesystem(b"other".to_vec()));
    let r = find(&vfs, "SNSW:/shinosawa/system/kotono").unwrap();
    assert_eq!(vfs.node(r).len(), 4);
    let b = find(&vfs, "BOOT:/shinosawa/system/kotono").unwrap();
    assert_eq!(vfs.node(b).len(), 5);
}
