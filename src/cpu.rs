//! The register snapshot a thread is suspended with, and the descriptor-table
//! facts that go into it.
use vstd::prelude::*;

verus! {

/// Number of bytes a saved register snapshot takes on a kernel stack (20 quadwords).
pub const INTERRUPT_CONTEXT_SIZE: u64 = 160;

/// The interrupt flag of RFLAGS.
pub const RFLAGS_INTERRUPTS_ENABLED: u64 = 0x200;

/// Index of the interrupt-stack-table slot used for double faults.
pub const DOUBLE_FAULT_IST_INDEX: u16 = 0;

/// Index of the interrupt-stack-table slot used by the timer interrupt.
pub const TIMER_IST_INDEX: u16 = 1;

/// Index of the interrupt-stack-table slot in which the system-call entry keeps the user stack.
pub const SYSCALL_IST_INDEX: u16 = 2;

/// The register snapshot: the fifteen general registers pushed by the
/// interrupt entry, then the frame the CPU pushed (rip, cs, rflags, rsp, ss).
#[derive(Clone, Copy, Debug, PartialEq, Eq, Structural)]
pub struct SnCpuContext {
    pub r15: u64,
    pub r14: u64,
    pub r13: u64,
    pub r12: u64,
    pub r11: u64,
    pub r10: u64,
    pub r9: u64,
    pub r8: u64,
    pub rbp: u64,
    pub rsi: u64,
    pub rdi: u64,
    pub rdx: u64,
    pub rcx: u64,
    pub rbx: u64,
    pub rax: u64,
    pub rip: u64,
    pub cs: u64,
    pub rflags: u64,
    pub rsp: u64,
    pub ss: u64,
}

impl SnCpuContext {
    /// A snapshot with every register zero.
    pub fn zeroed() -> (r: Self)
        ensures
            r == Self::zero(),
    {
        SnCpuContext {
            r15: 0,
            r14: 0,
            r13: 0,
            r12: 0,
            r11: 0,
            r10: 0,
            r9: 0,
            r8: 0,
            rbp: 0,
            rsi: 0,
            rdi: 0,
            rdx: 0,
            rcx: 0,
            rbx: 0,
            rax: 0,
            rip: 0,
            cs: 0,
            rflags: 0,
            rsp: 0,
            ss: 0,
        }
    }

    pub open spec fn zero() -> Self {
        SnCpuContext {
            r15: 0,
            r14: 0,
            r13: 0,
            r12: 0,
            r11: 0,
            r10: 0,
            r9: 0,
            r8: 0,
            rbp: 0,
            rsi: 0,
            rdi: 0,
            rdx: 0,
            rcx: 0,
            rbx: 0,
            rax: 0,
            rip: 0,
            cs: 0,
            rflags: 0,
            rsp: 0,
            ss: 0,
        }
    }

    pub fn instruction_pointer(&self) -> (r: u64)
        ensures
            r == self.rip,
    {
        self.rip
    }

    pub fn set_stack_pointer(&mut self, rsp: u64)
        ensures
            *final(self) == (SnCpuContext { rsp, ..*old(self) }),
    {
        self.rsp = rsp;
    }

    /// Sets the first return-value register (rax).
    pub fn set_ret_val_1(&mut self, rax: u64)
        ensures
            *final(self) == (SnCpuContext { rax, ..*old(self) }),
    {
        self.rax = rax;
    }

    /// Sets the first argument register (rdi), the second return value of a system call.
    pub fn set_arg_val_1(&mut self, rdi: u64)
        ensures
            *final(self) == (SnCpuContext { rdi, ..*old(self) }),
    {
        self.rdi = rdi;
    }

    /// Hands a new user thread the bounds of its heap: the start in rax, the end in rcx.
    pub fn set_heap_addrs(&mut self, heap_start: u64, heap_end: u64)
        ensures
            *final(self) == (SnCpuContext { rax: heap_start, rcx: heap_end, ..*old(self) }),
    {
        self.rax = heap_start;
        self.rcx = heap_end;
    }
}

/// Selector of descriptor `index` of the global descriptor table, requested at `ring`.
pub open spec fn selector(index: u16, ring: u16) -> u16 {
    (index * 8 + ring) as u16
}

/// The global descriptor table holds, in this order: the null descriptor,
/// kernel code, kernel data, the task-state segment (two slots), user data,
/// user code. SYSCALL and SYSRET rely on this order.
pub fn gdt_selector(index: u16, ring: u16) -> (r: u16)
    requires
        index < 8,
        ring < 4,
    ensures
        r == selector(index, ring),
{
    index * 8 + ring
}

/// The kernel's code and data selectors.
pub fn get_kernel_segments() -> (r: (u16, u16))
    ensures
        r == (selector(1, 0), selector(2, 0)),
        r == (0x08u16, 0x10u16),
{
    (gdt_selector(1, 0), gdt_selector(2, 0))
}

/// The user's code and data selectors.
pub fn get_user_segments() -> (r: (u16, u16))
    ensures
        r == (selector(6, 3), selector(5, 3)),
        r == (0x33u16, 0x2bu16),
{
    (gdt_selector(6, 3), gdt_selector(5, 3))
}

/// A snapshot from which a thread starts at `function` on the stack that ends
/// at `user_stack_end`, with interrupts enabled, in user or kernel mode.
pub open spec fn start_context(base: SnCpuContext, function: u64, user_stack_end: u64, user: bool) -> SnCpuContext {
    SnCpuContext {
        rip: function,
        rsp: user_stack_end,
        rflags: 0x200,
        cs: if user { 0x33 } else { 0x08 },
        ss: if user { 0x2b } else { 0x10 },
        ..base
    }
}

/// Sets up `context` so that the thread starts at `function` on the stack
/// that ends at `user_stack_end`, with interrupts enabled.
pub fn set_context(context: &mut SnCpuContext, function: u64, user_stack_end: u64, user: bool)
    ensures
        *final(context) == start_context(*old(context), function, user_stack_end, user),
{
    context.rip = function;
    context.rsp = user_stack_end;
    context.rflags = RFLAGS_INTERRUPTS_ENABLED;
    if user {
        let (code_selector, data_selector) = get_user_segments();
        context.cs = code_selector as u64;
        context.ss = data_selector as u64;
    } else {
        let (code_selector, data_selector) = get_kernel_segments();
        context.cs = code_selector as u64;
        context.ss = data_selector as u64;
    }
}

/// The task-state segment: in long mode only its interrupt stack table matters.
pub struct SnTaskStateSegment {
    interrupt_stack_table: Vec<u64>,
}

impl SnTaskStateSegment {
    pub closed spec fn ist(self) -> Seq<u64> {
        self.interrupt_stack_table@
    }

    pub open spec fn wf(self) -> bool {
        self.ist().len() == 7
    }

    pub fn new() -> (r: Self)
        ensures
            r.wf(),
            forall|i: int| 0 <= i < 7 ==> #[trigger] r.ist()[i] == 0,
    {
        let mut v: Vec<u64> = Vec::new();
        let mut i: usize = 0;
        while i < 7
            invariant
                i <= 7,
                v@.len() == i,
                forall|j: int| 0 <= j < i ==> #[trigger] v@[j] == 0,
            decreases 7 - i,
        {
            v.push(0);
            i = i + 1;
        }
        SnTaskStateSegment { interrupt_stack_table: v }
    }

    /// The stack end held in slot `index`.
    pub fn interrupt_stack(&self, index: usize) -> (r: u64)
        requires
            self.wf(),
            index < 7,
        ensures
            r == self.ist()[index as int],
    {
        self.interrupt_stack_table[index]
    }
}

/// Puts `stack_end` in slot `index` of the interrupt stack table.
pub fn set_interrupt_stack_table(tss: &mut SnTaskStateSegment, index: usize, stack_end: u64)
    requires
        old(tss).wf(),
        index < 7,
    ensures
        final(tss).wf(),
        final(tss).ist() == old(tss).ist().update(index as int, stack_end),
{
    tss.interrupt_stack_table.set(index, stack_end);
}

/// The interrupt vectors the local APIC raises.
#[derive(Clone, Copy, Debug, PartialEq, Eq, Structural)]
pub enum InterruptIndex {
    ApicError,
    ApicTimer,
    ApicSpurious,
}

impl InterruptIndex {
    pub open spec fn vector(self) -> u8 {
        match self {
            InterruptIndex::ApicError => 0xfd,
            InterruptIndex::ApicTimer => 0xfe,
            InterruptIndex::ApicSpurious => 0xff,
        }
    }

    pub fn as_u8(self) -> (r: u8)
        ensures
            r == self.vector(),
    {
        match self {
            InterruptIndex::ApicError => 0xfd,
            InterruptIndex::ApicTimer => 0xfe,
            InterruptIndex::ApicSpurious => 0xff,
        }
    }

    pub fn as_usize(self) -> (r: usize)
        ensures
            r == self.vector() as usize,
    {
        self.as_u8() as usize
    }
}

/// The interrupt-stack-table slots the kernel switches stacks through.
#[derive(Clone, Copy, Debug, PartialEq, Eq, Structural)]
pub enum InterruptStackIndex {
    DoubleFault,
    Timer,
    Syscall,
}

impl InterruptStackIndex {
    pub open spec fn slot(self) -> usize {
        match self {
            InterruptStackIndex::DoubleFault => 0,
            InterruptStackIndex::Timer => 1,
            InterruptStackIndex::Syscall => 2,
        }
    }

    pub fn as_usize(self) -> (r: usize)
        ensures
            r == self.slot(),
    {
        match self {
            InterruptStackIndex::DoubleFault => DOUBLE_FAULT_IST_INDEX as usize,
            InterruptStackIndex::Timer => TIMER_IST_INDEX as usize,
            InterruptStackIndex::Syscall => SYSCALL_IST_INDEX as usize,
        }
    }
}

} // verus!
