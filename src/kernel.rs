//! The kernel as one state: memory, scheduler, task-state segment, log,
//! dispatch tables and filesystem, and the entry points that act on it.
use vstd::prelude::*;
use crate::address_space::SnMapError;
use crate::cpu::{get_user_segments, SnCpuContext, SnTaskStateSegment, INTERRUPT_CONTEXT_SIZE};
use crate::elf::{elf_image_of, has_elf_magic, image_segments, load_elf, segments_in_range, SnLoadError};
use crate::frame_alloc::{
    first_usable_region, has_usable, is_first_usable, lemma_first_usable_unique, map_fits, region_frames,
    region_start, SnLimineFrameAllocator, SnMemoryRegion, BITMAP_FRAMES,
};
use crate::interrupt::InterruptController;
use crate::logger::{keep_last, SnLogBuffer, BUF_SIZE};
use crate::memory::{SnVirtAddr, HEAP_SIZE, HEAP_START, KERNEL_STACK_SIZE};
use crate::paging::{
    MemoryInfo, SLOT_SIZE, USER_HEAP_REGION_END, USER_HEAP_REGION_START, USER_STACK_REGION_END,
    USER_STACK_REGION_START,
};
use crate::syscall::{syscall_arguments, SnSyscallKind, Syscall, SyscallController};
use crate::thread::Scheduler;
use crate::vfs::{lemma_kotono_path, new_example_filesystem, SnVfs, SnVfsNode};

verus! {

/// What a byte buffer decodes to as UTF-8, if it is valid UTF-8.
pub uninterp spec fn utf8_decode(b: Seq<u8>) -> Option<Seq<char>>;

/// Relies on core::str::from_utf8: the bytes are valid UTF-8 or not, and
/// the text they hold depends on them alone.
#[verifier::external_body]
fn decode_utf8(bytes: &[u8]) -> (r: Option<String>)
    ensures
        r is None <==> utf8_decode(bytes@) is None,
        r matches Some(s) ==> utf8_decode(bytes@) == Some(s@),
{
    std::str::from_utf8(bytes).ok().map(|s| s.to_string())
}

/// The bytes a user thread of the tree at `l4` sees from `ptr` on, if it may read them all.
pub open spec fn user_bytes(mem: MemoryInfo, l4: u64, ptr: u64, len: u64) -> Option<Seq<u8>> {
    if forall|i: int| 0 <= i < len ==> (#[trigger] mem.user_byte(l4, (ptr + i) as u64)) is Some {
        Some(Seq::new(len as nat, |i: int| mem.user_byte(l4, (ptr + i) as u64)->0))
    } else {
        None
    }
}

/// The text that `write(ptr, len)` logs: the `len` bytes at `ptr` of the
/// active tree read as UTF-8, or nothing when `len` is zero, the buffer
/// leaves user memory or the bytes are not UTF-8.
pub open spec fn written_text(mem: MemoryInfo, ptr: u64, len: u64) -> Option<Seq<char>> {
    if len == 0 || ptr + len > u64::MAX {
        None
    } else {
        match user_bytes(mem, mem.active(), ptr, len) {
            Some(b) => utf8_decode(b),
            None => None,
        }
    }
}

/// The first usable region of the map, over which the frame allocator is built.
pub open spec fn boot_region(map: Seq<SnMemoryRegion>) -> SnMemoryRegion {
    map[choose|i: int| is_first_usable(map, i)]
}

/// `addr` is a frame the allocator built over `map` hands out.
pub open spec fn boot_manages(map: Seq<SnMemoryRegion>, addr: int) -> bool {
    let r = boot_region(map);
    &&& region_start(r) <= addr
    &&& (addr - region_start(r)) % 4096 == 0
    &&& BITMAP_FRAMES <= (addr - region_start(r)) / 4096 < region_frames(r)
}

/// End of the frames the allocator built over `map` hands out.
pub open spec fn boot_end(map: Seq<SnMemoryRegion>) -> int {
    region_start(boot_region(map)) + region_frames(boot_region(map)) * 4096
}

/// Why the kernel could not come up.
#[derive(Clone, Copy, Debug, PartialEq, Eq, Structural)]
pub enum SnBootError {
    NoUsableMemory,
    BadMemoryMap,
    BadKernelPageTable,
    OutOfMemory,
    FileNotFound,
    FileUnreadable,
    BadExecutable,
    TooManyThreads,
}

pub struct Kernel {
    pub memory: MemoryInfo,
    pub scheduler: Scheduler,
    pub tss: SnTaskStateSegment,
    pub log: SnLogBuffer,
    pub syscalls: SyscallController,
    pub interrupts: InterruptController,
    pub vfs: SnVfs,
}

fn memory_map_fits(map: &Vec<SnMemoryRegion>) -> (r: bool)
    ensures
        r == map_fits(map@),
{
    let mut i: usize = 0;
    while i < map.len()
        invariant
            i <= map@.len(),
            forall|j: int| 0 <= j < i ==> #[trigger] map@[j].base + map@[j].length <= u64::MAX,
        decreases map@.len() - i,
    {
        if map[i].base > u64::MAX - map[i].length {
            return false;
        }
        i = i + 1;
    }
    true
}

impl Kernel {
    pub open spec fn wf(self) -> bool {
        &&& self.memory.wf()
        &&& self.scheduler.wf()
        &&& self.tss.wf()
        &&& self.log.wf()
        &&& self.syscalls.wf()
        &&& self.interrupts.wf()
        &&& self.vfs.wf()
    }

    /// Brings up the kernel's state from the boot loader's memory map, the
    /// direct-map offset and the level-4 table the loader left active: the
    /// frame allocator over the first usable region, the kernel's tree,
    /// empty scheduler, tables, log and filesystem.
    pub fn init(memory_map: Vec<SnMemoryRegion>, physical_memory_offset: u64, kernel_l4_phys: u64) -> (r:
        Result<Kernel, SnBootError>)
        ensures
            r matches Ok(k) ==> {
                &&& k.wf()
                &&& k.memory.active() == kernel_l4_phys
                &&& k.memory.kernel().l4() == kernel_l4_phys
                &&& k.memory.allocator().memory_map() == memory_map@
                &&& k.memory.allocator().hhdm() == physical_memory_offset
                &&& k.memory.user_spaces().len() == 0
                &&& forall|p: u64| k.memory.kernel().mapping(p) is None
                &&& k.scheduler.queue().len() == 0 && k.scheduler.current() is None
                &&& k.log.contents() == Seq::<char>::empty()
                &&& k.vfs.mounts().len() == 0
            },
            !has_usable(memory_map@) ==> r == Err::<Kernel, SnBootError>(SnBootError::NoUsableMemory),
            has_usable(memory_map@) && !map_fits(memory_map@) ==> r == Err::<Kernel, SnBootError>(
                SnBootError::BadMemoryMap,
            ),
            r is Err ==> r == Err::<Kernel, SnBootError>(SnBootError::NoUsableMemory) || r == Err::<
                Kernel,
                SnBootError,
            >(SnBootError::BadMemoryMap) || r == Err::<Kernel, SnBootError>(SnBootError::BadKernelPageTable),
            r == Err::<Kernel, SnBootError>(SnBootError::NoUsableMemory) ==> !has_usable(memory_map@),
            r == Err::<Kernel, SnBootError>(SnBootError::BadMemoryMap) ==> !map_fits(memory_map@)
                || physical_memory_offset + boot_end(memory_map@) > u64::MAX,
            r == Err::<Kernel, SnBootError>(SnBootError::BadKernelPageTable) ==> boot_manages(
                memory_map@,
                kernel_l4_phys as int,
            ),
            has_usable(memory_map@) && map_fits(memory_map@) && !boot_manages(memory_map@, kernel_l4_phys as int)
                && physical_memory_offset + boot_end(memory_map@) <= u64::MAX ==> r is Ok,
    {
        if first_usable_region(&memory_map).is_none() {
            return Err(SnBootError::NoUsableMemory);
        }
        if !memory_map_fits(&memory_map) {
            return Err(SnBootError::BadMemoryMap);
        }
        let ghost map = memory_map@;
        let frame_allocator = SnLimineFrameAllocator::init(memory_map, physical_memory_offset);
        proof {
            let i = choose|i: int|
                is_first_usable(map, i) && frame_allocator.frame_count() == region_frames(map[i])
                    && frame_allocator.base() == region_start(map[i]);
            let j = choose|j: int| is_first_usable(map, j);
            lemma_first_usable_unique(map, i, j);
            assert(boot_region(map) == map[i]);
        }
        if frame_allocator.manages_frame(kernel_l4_phys) {
            return Err(SnBootError::BadKernelPageTable);
        }
        let end = frame_allocator.managed_end();
        if physical_memory_offset > u64::MAX - end {
            return Err(SnBootError::BadMemoryMap);
        }
        let memory = MemoryInfo::init(frame_allocator, kernel_l4_phys);
        Ok(
            Kernel {
                memory,
                scheduler: Scheduler::new(),
                tss: SnTaskStateSegment::new(),
                log: SnLogBuffer::new(),
                syscalls: SyscallController::new(),
                interrupts: InterruptController::new(),
                vfs: SnVfs::new(),
            },
        )
    }

    /// Maps the kernel heap window to fresh frames in the active tree.
    pub fn init_heap(&mut self) -> (r: Result<(), SnMapError>)
        requires
            old(self).wf(),
        ensures
            final(self).wf(),
            final(self).memory.active() == old(self).memory.active(),
            final(self).scheduler == old(self).scheduler,
            final(self).log == old(self).log,
            r is Ok ==> forall|x: u64|
                x % 4096 == 0 && HEAP_START <= x < HEAP_START + HEAP_SIZE ==> (#[trigger] final(self).memory.space(old(self).memory.active()).mapping(x)) is Some,
            r == Err::<(), SnMapError>(SnMapError::FrameAllocationFailed)
                ==> final(self).memory.allocator().free_frames().is_empty(),
            r is Err ==> r == Err::<(), SnMapError>(SnMapError::FrameAllocationFailed) || r == Err::<(), SnMapError>(
                SnMapError::PageAlreadyMapped,
            ),
            r == Err::<(), SnMapError>(SnMapError::PageAlreadyMapped) ==> exists|x: u64|
                crate::paging::in_page_range(x, HEAP_START, (HEAP_START + HEAP_SIZE - 1) as u64)
                    && (#[trigger] old(self).memory.space(old(self).memory.active()).mapping(x)) is Some,
    {
        let r = self.memory.map_new_memory(
            SnVirtAddr::new(HEAP_START),
            SnVirtAddr::new(HEAP_START + HEAP_SIZE - 1),
        );
        proof {
            if r is Ok {
                assert forall|x: u64|
                    x % 4096 == 0 && HEAP_START <= x < HEAP_START + HEAP_SIZE implies (#[trigger] self.memory.space(
                        old(self).memory.active(),
                    ).mapping(x)) is Some by {
                    assert(crate::paging::in_page_range(x, HEAP_START, (HEAP_START + HEAP_SIZE - 1) as u64));
                }
            }
        }
        r
    }

    /// Logs `msg` as a kernel line: the kernel's prefix, the message, a newline.
    pub fn printk(&mut self, msg: &str)
        requires
            old(self).wf(),
        ensures
            final(self).wf(),
            final(self).memory == old(self).memory,
            final(self).scheduler == old(self).scheduler,
            final(self).syscalls == old(self).syscalls,
            final(self).vfs == old(self).vfs,
            final(self).log.contents() == keep_last(
                old(self).log.contents() + "shinosawa::system::kernel: "@ + msg@ + "\n"@,
                BUF_SIZE as nat,
            ),
    {
        let ghost c0 = self.log.contents();
        self.log.write_str("shinosawa::system::kernel: ");
        self.log.write_str(msg);
        self.log.write_str("\n");
        proof {
            let p = "shinosawa::system::kernel: "@;
            crate::logger::lemma_keep_last_concat(c0 + p, msg@, BUF_SIZE as nat);
            crate::logger::lemma_keep_last_concat(c0 + p + msg@, "\n"@, BUF_SIZE as nat);
        }
    }

    /// Registers the kernel's system calls: write, fork and exit.
    pub fn init_syscalls(&mut self)
        requires
            old(self).wf(),
        ensures
            final(self).wf(),
            final(self).memory == old(self).memory,
            final(self).scheduler == old(self).scheduler,
            final(self).log == old(self).log,
            final(self).vfs == old(self).vfs,
            final(self).syscalls.table() == old(self).syscalls.table().update(
                1,
                Some(crate::syscall::SyscallHandler { handler: SnSyscallKind::Write }),
            ).update(10, Some(crate::syscall::SyscallHandler { handler: SnSyscallKind::Fork })).update(
                11,
                Some(crate::syscall::SyscallHandler { handler: SnSyscallKind::Exit }),
            ),
    {
        self.syscalls.set_handler(Syscall::Write.as_u64(), SnSyscallKind::Write);
        self.syscalls.set_handler(Syscall::Fork.as_u64(), SnSyscallKind::Fork);
        self.syscalls.set_handler(Syscall::Exit.as_u64(), SnSyscallKind::Exit);
    }

    /// The write system call: logs the `len` bytes at `ptr`, read through the
    /// active tree as the user sees them, when they are valid UTF-8; logs
    /// nothing when `len` is zero, the buffer is not all user memory, or the
    /// bytes are not UTF-8.
    pub fn sys_write(&mut self, ptr: u64, len: u64)
        requires
            old(self).wf(),
        ensures
            final(self).wf(),
            final(self).memory == old(self).memory,
            final(self).scheduler == old(self).scheduler,
            final(self).syscalls == old(self).syscalls,
            final(self).log.contents() == match written_text(old(self).memory, ptr, len) {
                Some(t) => keep_last(old(self).log.contents() + t, BUF_SIZE as nat),
                None => old(self).log.contents(),
            },
    {
        if len == 0 || ptr > u64::MAX - len {
            return;
        }
        let l4 = self.memory.get_current_page_table_phys_addr();
        proof {
            self.memory.lemma_active_space();
        }
        let bytes = match self.memory.read_user_bytes(l4, ptr, len) {
            None => {
                assert(user_bytes(self.memory, l4, ptr, len) is None);
                return;
            },
            Some(b) => b,
        };
        proof {
            assert(bytes@ =~= Seq::new(len as nat, |i: int| self.memory.user_byte(l4, (ptr + i) as u64)->0));
            assert(user_bytes(self.memory, l4, ptr, len) == Some(bytes@));
        }
        match decode_utf8(bytes.as_slice()) {
            None => {},
            Some(text) => {
                self.log.write_str(text.as_str());
            },
        }
    }

    /// The system-call entry after the trampoline saved the caller's
    /// registers in `context`: takes the number from rax and the arguments
    /// from rdi, rsi and rdx, marks the frame as returning to user segments,
    /// and runs the handler the table gives for the number, if any. A fork
    /// child gets its kernel stack at `kernel_stack_base`.
    pub fn dispatch_syscall(&mut self, context: &mut SnCpuContext, kernel_stack_base: u64)
        requires
            old(self).wf(),
        ensures
            final(self).wf(),
            final(context).cs == 0x33 && final(context).ss == 0x2b,
            ({
                let id = old(context).rax;
                let h = if id < 32 {
                    match old(self).syscalls.table()[id as int] {
                        Some(h) => Some(h.handler),
                        None => None,
                    }
                } else {
                    None
                };
                &&& h == Some(SnSyscallKind::Write) ==> final(self).log.contents() == match written_text(
                    old(self).memory,
                    old(context).rdi,
                    old(context).rsi,
                ) {
                    Some(t) => keep_last(old(self).log.contents() + t, BUF_SIZE as nat),
                    None => old(self).log.contents(),
                } && final(self).scheduler == old(self).scheduler
                &&& h is None ==> final(self).scheduler == old(self).scheduler && final(self).log
                    == old(self).log && final(self).memory == old(self).memory
                &&& h == Some(SnSyscallKind::Fork) && old(self).scheduler.current() is None ==> final(context).rax == 1
                &&& h == Some(SnSyscallKind::Exit) ==> final(self).scheduler.current() is None
                &&& h == Some(SnSyscallKind::Fork) && final(context).rax == 1 ==> {
                    &&& final(self).scheduler.queue() == old(self).scheduler.queue()
                    &&& final(self).scheduler.thread_counter() == old(self).scheduler.thread_counter()
                    &&& old(self).scheduler.current() is Some && old(self).scheduler.can_spawn()
                        && kernel_stack_base + KERNEL_STACK_SIZE <= u64::MAX
                        ==> final(self).memory.allocator().free_frames().is_empty()
                        || old(self).memory.slots_all_used(
                        old(self).memory.active(),
                        crate::paging::USER_STACK_REGION_START,
                        crate::paging::USER_STACK_REGION_END,
                        crate::paging::SLOT_SIZE,
                    )
                }
                &&& h == Some(SnSyscallKind::Fork) && kernel_stack_base + KERNEL_STACK_SIZE <= u64::MAX
                    && final(context).rax != 1 ==> {
                    let child = final(self).scheduler.queue().last();
                    &&& final(self).scheduler.queue().drop_last() == old(self).scheduler.queue()
                    &&& child.process == old(self).scheduler.current()->0.process
                    &&& child.saved == (SnCpuContext { rax: 0, rdi: 0, cs: 0x33, ss: 0x2b, ..*old(context) })
                    &&& *final(context) == (SnCpuContext {
                        rax: 0,
                        rdi: child.id,
                        cs: 0x33,
                        ss: 0x2b,
                        ..*old(context)
                    })
                }
            }),
    {
        let (syscall_id, arg1, arg2, _arg3) = syscall_arguments(context);
        let (code_selector, data_selector) = get_user_segments();
        context.cs = code_selector as u64;
        context.ss = data_selector as u64;
        match self.syscalls.run_handler(syscall_id) {
            Some(SnSyscallKind::Write) => {
                self.sys_write(arg1, arg2);
            },
            Some(SnSyscallKind::Fork) => {
                if kernel_stack_base > u64::MAX - KERNEL_STACK_SIZE {
                    context.set_ret_val_1(1);
                } else {
                    self.scheduler.fork_current_thread(&mut self.memory, context, kernel_stack_base);
                }
            },
            Some(SnSyscallKind::Exit) => {
                self.scheduler.exit_current_thread(&mut self.memory);
            },
            None => {},
        }
    }

    /// Tells whether `context_addr` lies in the running thread's kernel stack,
    /// as the timer entry leaves it.
    pub fn context_in_current_stack(&self, context_addr: u64) -> (r: bool)
        ensures
            r == (self.scheduler.current() matches Some(t) ==> t.kernel_stack_base <= context_addr
                && context_addr + INTERRUPT_CONTEXT_SIZE <= t.kernel_stack_end),
    {
        match self.scheduler.current_thread() {
            None => true,
            Some(t) => t.kernel_stack_base <= context_addr && context_addr <= u64::MAX - INTERRUPT_CONTEXT_SIZE
                && context_addr + INTERRUPT_CONTEXT_SIZE <= t.kernel_stack_end,
        }
    }

    /// The timer interrupt: runs the scheduler on the snapshot the entry
    /// pushed at `context_addr`, and makes the page table of the thread it
    /// picks active when that thread has one. Returns the stack pointer to
    /// resume with (zero keeps the current one).
    pub fn timer_interrupt_handler(&mut self, context_addr: u64, saved: SnCpuContext) -> (r: u64)
        requires
            old(self).wf(),
            old(self).scheduler.current() matches Some(t) ==> t.kernel_stack_base <= context_addr
                && context_addr + INTERRUPT_CONTEXT_SIZE <= t.kernel_stack_end,
        ensures
            final(self).wf(),
            (final(self).scheduler.queue_ids(), final(self).scheduler.current_id())
                == crate::thread::tick(old(self).scheduler.queue_ids(), old(self).scheduler.current_id()),
            final(self).scheduler.current() matches Some(t) ==> r == t.context && (if t.page_table_addr != 0
                && old(self).memory.has_space(t.page_table_addr) {
                final(self).memory.active() == t.page_table_addr
            } else {
                final(self).memory.active() == old(self).memory.active()
            }),
            final(self).scheduler.current() is None ==> r == 0 && final(self).memory.active() == old(self).memory.active(),
            final(self).scheduler.current() matches Some(t) ==> final(self).tss.ist()[1] == t.kernel_stack_end,
            final(self).memory.allocator() == old(self).memory.allocator(),
            final(self).memory.kernel() == old(self).memory.kernel(),
            final(self).memory.user_spaces() == old(self).memory.user_spaces(),
    {
        let current_l4 = self.memory.get_current_page_table_phys_addr();
        let r = self.scheduler.schedule_next(&mut self.tss, context_addr, saved, current_l4);
        match self.scheduler.current_thread() {
            Some(t) => {
                if t.page_table_addr != 0 && self.memory.has_page_table(t.page_table_addr) {
                    self.memory.switch_page_table(crate::memory::SnPhysAddr::new(t.page_table_addr));
                }
            },
            None => {},
        }
        r
    }

}


/// The first kernel thread's work: mounts the sample filesystem, holding
/// `kotono`, under `SNSW:`, registers the system calls, loads
/// `SNSW:/shinosawa/system/kotono` as an ELF executable and starts a user
/// thread on it, with its kernel stack at `kernel_stack_base`. Returns the
/// new thread's id.
pub fn kernel_main(kernel: &mut Kernel, kotono: Vec<u8>, kernel_stack_base: u64) -> (r: Result<u64, SnBootError>)
    requires
        old(kernel).wf(),
    ensures
        final(kernel).wf(),
        r matches Ok(id) ==> {
            &&& final(kernel).scheduler.queue_ids() == old(kernel).scheduler.queue_ids().push(id)
            &&& final(kernel).scheduler.current() == old(kernel).scheduler.current()
            &&& !old(kernel).memory.has_space(final(kernel).scheduler.queue().last().page_table_addr)
            &&& final(kernel).memory.has_space(final(kernel).scheduler.queue().last().page_table_addr)
            &&& final(kernel).log.contents() == keep_last(
                old(kernel).log.contents() + "shinosawa::system::kernel: "@
                    + "kernel init done! we'll wait here."@ + "\n"@,
                BUF_SIZE as nat,
            )
        },
        r is Err ==> r == Err::<u64, SnBootError>(SnBootError::BadExecutable) || r == Err::<u64, SnBootError>(
            SnBootError::OutOfMemory,
        ) || r == Err::<u64, SnBootError>(SnBootError::TooManyThreads),
        r == Err::<u64, SnBootError>(SnBootError::BadExecutable) ==> !has_elf_magic(kotono@) || elf_image_of(
            kotono@,
        ) is None || !segments_in_range(image_segments(kotono@)),
        r == Err::<u64, SnBootError>(SnBootError::TooManyThreads) ==> !old(kernel).scheduler.can_spawn(),
        r == Err::<u64, SnBootError>(SnBootError::OutOfMemory) ==> final(kernel).memory.allocator().free_frames().is_empty()
            || kernel_stack_base + KERNEL_STACK_SIZE > u64::MAX || exists|l4: u64|
            #[trigger] final(kernel).memory.has_space(l4) && (final(kernel).memory.slots_all_used(
                l4,
                USER_STACK_REGION_START,
                USER_STACK_REGION_END,
                SLOT_SIZE,
            ) || final(kernel).memory.slots_all_used(
                l4,
                USER_HEAP_REGION_START,
                USER_HEAP_REGION_END,
                (2 * SLOT_SIZE) as u64,
            )),
{
    let ghost image = kotono@;
    let fs = new_example_filesystem(kotono);
    let ghost fs_v = fs;
    kernel.vfs.attach("SNSW:", fs);
    kernel.init_syscalls();
    let _mounted = kernel.vfs.mount_count();
    let found = kernel.vfs.find("SNSW:/shinosawa/system/kotono");
    proof {
        lemma_kotono_path();
        let i = kernel.vfs.mount_of("SNSW:"@)->0;
        assert(kernel.vfs.mounts()[i].1 == fs_v);
        assert(found == Ok::<crate::vfs::SnVfsNodeRef, crate::vfs::SnVfsError>(
            crate::vfs::SnVfsNodeRef { mount: i as usize, node: 3 },
        ));
    }
    let file = match found {
        Ok(f) => f,
        Err(e) => {
            return Err(SnBootError::FileNotFound);
        },
    };
    let node = kernel.vfs.node(file);
    assert(file.node == 3);
    let len = node.len();
    let mut buf: Vec<u8> = Vec::new();
    let mut i: usize = 0;
    while i < len
        invariant
            i <= len,
            buf@.len() == i,
        decreases len - i,
    {
        buf.push(0);
        i = i + 1;
    }
    assert(node.spec_contents() == Some(image));
    match node.read(&mut buf) {
        Ok(_) => {},
        Err(e) => {
            return Err(SnBootError::FileUnreadable);
        },
    }
    assert(buf@ =~= image);
    let exe = match load_elf(&mut kernel.memory, buf.as_slice()) {
        Ok(exe) => exe,
        Err(SnLoadError::OutOfMemory) => {
            return Err(SnBootError::OutOfMemory);
        },
        Err(e) => {
            return Err(SnBootError::BadExecutable);
        },
    };
    if !kernel.scheduler.has_room() {
        return Err(SnBootError::TooManyThreads);
    }
    if kernel_stack_base > u64::MAX - KERNEL_STACK_SIZE {
        return Err(SnBootError::OutOfMemory);
    }
    match kernel.scheduler.new_user_thread(&mut kernel.memory, &exe, kernel_stack_base) {
        Ok(id) => {
            kernel.printk("kernel init done! we'll wait here.");
            Ok(id)
        },
        Err(e) => {
            proof {
                assert(kernel.memory.has_space(exe.user_page_table_phys_addr.0));
            }
            Err(SnBootError::OutOfMemory)
        },
    }
}

} // verus!
