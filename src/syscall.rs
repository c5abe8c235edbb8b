//! The system-call table: which kernel handler each system-call number runs,
//! and how the entry trampoline hands over its arguments.
use vstd::prelude::*;
use crate::cpu::SnCpuContext;
use crate::elf::{USER_CODE_END, USER_CODE_START};

verus! {

/// Number of entries of the system-call table.
pub const SYSCALL_INDEXES: usize = 32;

/// The system calls of the userland ABI.
#[derive(Clone, Copy, Debug, PartialEq, Eq, Structural)]
pub enum Syscall {
    Read,
    Write,
    Fork,
    Exit,
    Max,
}

impl Syscall {
    pub open spec fn number(self) -> u64 {
        match self {
            Syscall::Read => 0,
            Syscall::Write => 1,
            Syscall::Fork => 10,
            Syscall::Exit => 11,
            Syscall::Max => 255,
        }
    }

    /// The number user code puts in rax.
    pub fn as_u64(self) -> (r: u64)
        ensures
            r == self.number(),
    {
        match self {
            Syscall::Read => 0,
            Syscall::Write => 1,
            Syscall::Fork => 10,
            Syscall::Exit => 11,
            Syscall::Max => 255,
        }
    }
}

/// The kernel's system-call handlers.
#[derive(Clone, Copy, Debug, PartialEq, Eq, Structural)]
pub enum SnSyscallKind {
    Write,
    Fork,
    Exit,
}

/// An entry of the system-call table.
#[derive(Clone, Copy, Debug, PartialEq, Eq, Structural)]
pub struct SyscallHandler {
    pub handler: SnSyscallKind,
}

pub struct SyscallController {
    handlers: Vec<Option<SyscallHandler>>,
}

impl SyscallController {
    /// The table, indexed by system-call number.
    pub closed spec fn table(self) -> Seq<Option<SyscallHandler>> {
        self.handlers@
    }

    pub open spec fn wf(self) -> bool {
        self.table().len() == SYSCALL_INDEXES
    }

    /// An empty table.
    pub fn new() -> (r: SyscallController)
        ensures
            r.wf(),
            forall|i: int| 0 <= i < SYSCALL_INDEXES ==> #[trigger] r.table()[i] is None,
    {
        let mut handlers: Vec<Option<SyscallHandler>> = Vec::new();
        let mut i: usize = 0;
        while i < SYSCALL_INDEXES
            invariant
                i <= SYSCALL_INDEXES,
                handlers@.len() == i,
                forall|j: int| 0 <= j < i ==> #[trigger] handlers@[j] is None,
            decreases SYSCALL_INDEXES - i,
        {
            handlers.push(None);
            i = i + 1;
        }
        SyscallController { handlers }
    }

    /// Makes system call `idx` run `handler`.
    pub fn set_handler(&mut self, idx: u64, handler: SnSyscallKind)
        requires
            old(self).wf(),
            idx < SYSCALL_INDEXES,
        ensures
            final(self).wf(),
            final(self).table() == old(self).table().update(idx as int, Some(SyscallHandler { handler })),
    {
        self.handlers.set(idx as usize, Some(SyscallHandler { handler }));
    }

    /// The handler that system call `idx` runs, if any; numbers past the table have none.
    pub fn run_handler(&self, idx: u64) -> (r: Option<SnSyscallKind>)
        requires
            self.wf(),
        ensures
            r == (if idx < SYSCALL_INDEXES {
                match self.table()[idx as int] {
                    Some(h) => Some(h.handler),
                    None => None,
                }
            } else {
                None
            }),
    {
        if idx >= SYSCALL_INDEXES as u64 {
            return None;
        }
        match self.handlers[idx as usize] {
            Some(h) => Some(h.handler),
            None => None,
        }
    }
}

/// The system-call number and its three arguments, as the entry trampoline
/// passes them on: rax, then rdi, rsi and rdx of the caller.
pub fn syscall_arguments(context: &SnCpuContext) -> (r: (u64, u64, u64, u64))
    ensures
        r == (context.rax, context.rdi, context.rsi, context.rdx),
{
    (context.rax, context.rdi, context.rsi, context.rdx)
}

/// The system-call entry returns with SYSRET to user code, and by a plain
/// jump to code outside the user code range.
pub fn returns_with_sysret(rip: u64) -> (r: bool)
    ensures
        r == (USER_CODE_START <= rip < USER_CODE_END),
{
    USER_CODE_START <= rip && rip < USER_CODE_END
}

/// The error code a failed system call leaves in rax.
#[derive(Clone, Copy, Debug, PartialEq, Eq, Structural)]
pub struct SyscallError(pub u64);

/// What user code makes of the registers a fork leaves: rax zero is success,
/// with the child's id in rdi for the parent and zero for the child; any
/// other rax is the error code.
pub fn fork_result(rax: u64, rdi: u64) -> (r: Result<u64, SyscallError>)
    ensures
        rax != 0 ==> r == Err::<u64, SyscallError>(SyscallError(rax)),
        rax == 0 ==> r == Ok::<u64, SyscallError>(rdi),
{
    if rax != 0 {
        return Err(SyscallError(rax));
    }
    Ok(rdi)
}

} // verus!
