//! The preemptive round-robin scheduler: a FIFO of ready threads, the thread
//! that runs, and the counters that name threads and processes.
use vstd::prelude::*;
use crate::address_space::SnMapError;
use crate::cpu::{
    set_context, set_interrupt_stack_table, start_context, SnCpuContext, SnTaskStateSegment,
    INTERRUPT_CONTEXT_SIZE, TIMER_IST_INDEX,
};
use crate::elf::SnExecutable;
use crate::memory::{KERNEL_STACK_SIZE, USER_STACK_SIZE};
use crate::paging::{
    user_rw_flags, MemoryInfo, SLOT_SIZE, USER_HEAP_REGION_END, USER_HEAP_REGION_START, USER_STACK_REGION_END,
    USER_STACK_REGION_START,
};

verus! {

/// A process: the page table its threads share (zero for the kernel's).
#[derive(Clone, Copy, Debug, PartialEq, Eq, Structural)]
pub struct Process {
    pub id: u64,
    pub page_table_phys_addr: u64,
}

/// A thread and where its suspended state lies.
#[derive(Clone, Copy, Debug, PartialEq, Eq, Structural)]
pub struct Thread {
    pub id: u64,
    pub process: Process,
    pub kernel_stack_base: u64,
    /// The stack end the timer interrupt switches to.
    pub kernel_stack_end: u64,
    pub user_stack_end: u64,
    /// Address of the saved register snapshot on the kernel stack.
    pub context: u64,
    /// The saved register snapshot itself.
    pub saved: SnCpuContext,
    /// The level-4 table to switch to when the thread runs; zero keeps the current one.
    pub page_table_addr: u64,
}

impl Thread {
    /// The saved snapshot lies within the kernel stack.
    pub open spec fn wf(self) -> bool {
        &&& self.kernel_stack_base <= self.context
        &&& self.context + INTERRUPT_CONTEXT_SIZE <= self.kernel_stack_end
    }
}

/// One timer tick of the run queue, over thread ids: the running thread, if
/// any, goes to the back, and the front becomes the running one.
pub open spec fn tick(queue: Seq<u64>, current: Option<u64>) -> (Seq<u64>, Option<u64>) {
    let q = match current {
        Some(c) => queue.push(c),
        None => queue,
    };
    if q.len() == 0 {
        (q, None)
    } else {
        (q.drop_first(), Some(q[0]))
    }
}

/// The run queue and running thread after `k` ticks.
pub open spec fn ticks(queue: Seq<u64>, current: Option<u64>, k: nat) -> (Seq<u64>, Option<u64>)
    decreases k,
{
    if k == 0 {
        (queue, current)
    } else {
        let prev = ticks(queue, current, (k - 1) as nat);
        tick(prev.0, prev.1)
    }
}

/// Round robin: with `queue` ready and `c` running, and no thread created or
/// ended, the next `n` ticks (`n` the number of threads) run the queued threads
/// in order and then `c`, each exactly once, and leave the scheduler as it was.
pub proof fn lemma_round_robin(queue: Seq<u64>, c: u64)
    ensures
        forall|k: nat|
            1 <= k <= queue.len() + 1 ==> #[trigger] ticks(queue, Some(c), k).1 == Some(
                queue.push(c)[k - 1],
            ),
        ticks(queue, Some(c), (queue.len() + 1) as nat) == (queue, Some(c)),
{
    let ring = queue.push(c);
    let n = ring.len();
    assert forall|k: nat| 1 <= k <= n implies #[trigger] ticks(queue, Some(c), k) == (
    ring.subrange(k as int, n as int) + ring.subrange(0, k - 1), Some(ring[k - 1])) by {
        lemma_ticks_rotate(queue, c, k);
    }
    lemma_ticks_rotate(queue, c, n as nat);
    assert(ring.subrange(n as int, n as int) + ring.subrange(0, n - 1) =~= queue);
}

proof fn lemma_ticks_rotate(queue: Seq<u64>, c: u64, k: nat)
    requires
        1 <= k <= queue.len() + 1,
    ensures
        ticks(queue, Some(c), k) == (
            queue.push(c).subrange(k as int, (queue.len() + 1) as int) + queue.push(c).subrange(0, k - 1),
            Some(queue.push(c)[k - 1]),
        ),
    decreases k,
{
    let ring = queue.push(c);
    let n = ring.len() as int;
    if k == 1 {
        assert(ticks(queue, Some(c), 0) == (queue, Some(c)));
        assert(ring.drop_first() =~= ring.subrange(1, n) + ring.subrange(0, 0));
    } else {
        lemma_ticks_rotate(queue, c, (k - 1) as nat);
        let prev = ticks(queue, Some(c), (k - 1) as nat);
        let q = prev.0.push(ring[k - 2]);
        assert(q =~= ring.subrange(k - 1, n) + ring.subrange(0, k - 1));
        assert(q[0] == ring[k - 1]);
        assert(q.drop_first() =~= ring.subrange(k as int, n) + ring.subrange(0, k - 1));
    }
}

/// Putting `t` just before the last element keeps a sequence free of duplicates
/// when `t` was not in it.
proof fn lemma_insert_before_last(a: Seq<u64>, c: u64, t: u64)
    requires
        a.push(c).no_duplicates(),
        !a.push(c).contains(t),
    ensures
        a.push(t).push(c).no_duplicates(),
        forall|x: u64| #[trigger] a.push(t).push(c).contains(x) ==> x == t || a.push(c).contains(x),
{
    let old_s = a.push(c);
    let new_s = a.push(t).push(c);
    let n = a.len() as int;
    assert forall|i: int| 0 <= i < new_s.len() && i != n implies #[trigger] new_s[i] == old_s[if i < n { i } else { n }] by {}
    assert forall|i: int, j: int| 0 <= i < new_s.len() && 0 <= j < new_s.len() && i != j implies new_s[i] != new_s[j] by {
        if i != n && j != n {
            assert(new_s[i] == old_s[if i < n { i } else { n }]);
            assert(new_s[j] == old_s[if j < n { j } else { n }]);
        } else if i == n {
            assert(new_s[j] == old_s[if j < n { j } else { n }]);
            assert(old_s.contains(new_s[j]));
        } else {
            assert(new_s[i] == old_s[if i < n { i } else { n }]);
            assert(old_s.contains(new_s[i]));
        }
    }
    assert forall|x: u64| #[trigger] new_s.contains(x) implies x == t || old_s.contains(x) by {
        let i = choose|i: int| 0 <= i < new_s.len() && new_s[i] == x;
        if i != n {
            assert(old_s[if i < n { i } else { n }] == x);
        }
    }
}

pub struct Scheduler {
    running_queue: std::collections::VecDeque<Thread>,
    current: Option<Thread>,
    thread_counter: u64,
    process_counter: u64,
}

impl Scheduler {
    pub closed spec fn queue(self) -> Seq<Thread> {
        self.running_queue@
    }

    pub closed spec fn current(self) -> Option<Thread> {
        self.current
    }

    pub closed spec fn thread_counter(self) -> u64 {
        self.thread_counter
    }

    pub closed spec fn process_counter(self) -> u64 {
        self.process_counter
    }

    pub open spec fn queue_ids(self) -> Seq<u64> {
        self.queue().map_values(|t: Thread| t.id)
    }

    pub open spec fn current_id(self) -> Option<u64> {
        match self.current() {
            Some(t) => Some(t.id),
            None => None,
        }
    }

    /// All threads, the running one last.
    pub open spec fn all_ids(self) -> Seq<u64> {
        match self.current_id() {
            Some(c) => self.queue_ids().push(c),
            None => self.queue_ids(),
        }
    }

    /// Every thread's snapshot lies in its kernel stack, and thread ids are
    /// distinct and below the counter (so the running thread is not queued).
    pub open spec fn wf(self) -> bool {
        &&& forall|i: int| 0 <= i < self.queue().len() ==> (#[trigger] self.queue()[i]).wf()
        &&& self.current() matches Some(t) ==> t.wf()
        &&& self.all_ids().no_duplicates()
        &&& forall|i: int| 0 <= i < self.all_ids().len() ==> #[trigger] self.all_ids()[i] <= self.thread_counter()
    }

    pub fn new() -> (r: Self)
        ensures
            r.wf(),
            r.queue().len() == 0,
            r.current() is None,
            r.thread_counter() == 0,
            r.process_counter() == 0,
    {
        let r = Scheduler {
            running_queue: std::collections::VecDeque::new(),
            current: None,
            thread_counter: 0,
            process_counter: 0,
        };
        assert(r.all_ids() =~= Seq::<u64>::empty());
        r
    }

    /// Room is left to name one more thread and one more process.
    pub open spec fn can_spawn(self) -> bool {
        self.thread_counter() < u64::MAX && self.process_counter() < u64::MAX
    }

    pub fn has_room(&self) -> (r: bool)
        ensures
            r == self.can_spawn(),
    {
        self.thread_counter < u64::MAX && self.process_counter < u64::MAX
    }

    /// The id of the running thread, if any.
    pub fn current_thread_id(&self) -> (r: Option<u64>)
        ensures
            r == self.current_id(),
    {
        match &self.current {
            Some(t) => Some(t.id),
            None => None,
        }
    }

    /// The running thread, if any.
    pub fn current_thread(&self) -> (r: Option<Thread>)
        ensures
            r == self.current(),
    {
        self.current
    }

    /// The ids of the ready threads, front first.
    pub fn queued_ids(&self) -> (r: Vec<u64>)
        ensures
            r@ == self.queue_ids(),
    {
        let mut out: Vec<u64> = Vec::new();
        let mut i: usize = 0;
        while i < self.running_queue.len()
            invariant
                i <= self.queue().len(),
                out@ == self.queue_ids().subrange(0, i as int),
            decreases self.queue().len() - i,
        {
            out.push(self.running_queue[i].id);
            i = i + 1;
            assert(out@ =~= self.queue_ids().subrange(0, i as int));
        }
        assert(out@ =~= self.queue_ids());
        out
    }

    /// The ready thread at position `i` of the queue.
    pub fn queued_thread(&self, i: usize) -> (r: Thread)
        requires
            i < self.queue().len(),
        ensures
            r == self.queue()[i as int],
    {
        self.running_queue[i]
    }

    pub fn queue_len(&self) -> (r: usize)
        ensures
            r == self.queue().len(),
    {
        self.running_queue.len()
    }

    proof fn lemma_fresh_id(self, id: u64)
        requires
            self.wf(),
            id > self.thread_counter(),
        ensures
            !self.all_ids().contains(id),
    {
        if self.all_ids().contains(id) {
            let i = choose|i: int| 0 <= i < self.all_ids().len() && self.all_ids()[i] == id;
            assert(self.all_ids()[i] <= self.thread_counter());
        }
    }

    /// Names a new thread.
    pub fn new_thread_id(&mut self) -> (r: u64)
        requires
            old(self).thread_counter() < u64::MAX,
        ensures
            r == old(self).thread_counter() + 1,
            final(self).thread_counter() == r,
            final(self).process_counter() == old(self).process_counter(),
            final(self).queue() == old(self).queue(),
            final(self).current() == old(self).current(),
            old(self).wf() ==> final(self).wf(),
    {
        self.thread_counter = self.thread_counter + 1;
        proof {
            if old(self).wf() {
                assert(self.all_ids() == old(self).all_ids());
            }
        }
        self.thread_counter
    }

    /// Names a new process.
    pub fn new_process_id(&mut self) -> (r: u64)
        requires
            old(self).process_counter() < u64::MAX,
        ensures
            r == old(self).process_counter() + 1,
            final(self).process_counter() == r,
            final(self).thread_counter() == old(self).thread_counter(),
            final(self).queue() == old(self).queue(),
            final(self).current() == old(self).current(),
            old(self).wf() ==> final(self).wf(),
    {
        self.process_counter = self.process_counter + 1;
        proof {
            if old(self).wf() {
                assert(self.all_ids() == old(self).all_ids());
            }
        }
        self.process_counter
    }

    /// Queues a new thread at the back, with a fresh id greater than every other.
    fn enqueue_new(&mut self, t: Thread)
        requires
            old(self).wf(),
            t.wf(),
            t.id == old(self).thread_counter(),
            !old(self).all_ids().contains(t.id),
        ensures
            final(self).wf(),
            final(self).queue() == old(self).queue().push(t),
            final(self).current() == old(self).current(),
            final(self).thread_counter() == old(self).thread_counter(),
            final(self).process_counter() == old(self).process_counter(),
    {
        let ghost s0 = *self;
        self.running_queue.push_back(t);
        proof {
            assert(self.queue_ids() =~= s0.queue_ids().push(t.id));
            match s0.current_id() {
                Some(c) => {
                    assert(self.all_ids() =~= s0.queue_ids().push(t.id).push(c));
                    lemma_insert_before_last(s0.queue_ids(), c, t.id);
                },
                None => {
                    assert(self.all_ids() =~= s0.all_ids().push(t.id));
                    assert forall|x: u64| #[trigger] self.all_ids().contains(x) implies x == t.id || s0.all_ids().contains(x) by {
                        if self.all_ids().contains(x) {
                            let i = choose|i: int| 0 <= i < self.all_ids().len() && self.all_ids()[i] == x;
                            if i < s0.all_ids().len() {
                                assert(s0.all_ids()[i] == x);
                            }
                        }
                    }
                },
            }
            assert forall|i: int| 0 <= i < self.all_ids().len() implies #[trigger] self.all_ids()[i]
                <= self.thread_counter() by {
                let x = self.all_ids()[i];
                assert(self.all_ids().contains(x));
                if x != t.id {
                    assert(s0.all_ids().contains(x));
                    let j = choose|j: int| 0 <= j < s0.all_ids().len() && s0.all_ids()[j] == x;
                    assert(s0.all_ids()[j] <= s0.thread_counter());
                }
            }
            assert forall|i: int| 0 <= i < self.queue().len() implies (#[trigger] self.queue()[i]).wf() by {
                if i < s0.queue().len() {
                    assert(self.queue()[i] == s0.queue()[i]);
                }
            }
        }
    }

    /// Creates a kernel thread that runs `function`. Its 8 KiB kernel stack
    /// starts at `kernel_stack_base` and the stack its body runs on follows
    /// it; its snapshot sits at the top of the kernel stack.
    pub fn new_kernel_thread(&mut self, function: u64, kernel_stack_base: u64) -> (r: u64)
        requires
            old(self).wf(),
            old(self).can_spawn(),
            kernel_stack_base + KERNEL_STACK_SIZE + USER_STACK_SIZE <= u64::MAX,
        ensures
            final(self).wf(),
            final(self).current() == old(self).current(),
            final(self).queue_ids() == old(self).queue_ids().push(r),
            final(self).queue().drop_last() == old(self).queue(),
            !old(self).all_ids().contains(r),
            ({
                let t = final(self).queue().last();
                &&& t.id == r
                &&& t.kernel_stack_base == kernel_stack_base
                &&& t.kernel_stack_end == kernel_stack_base + KERNEL_STACK_SIZE
                &&& t.user_stack_end == kernel_stack_base + KERNEL_STACK_SIZE + USER_STACK_SIZE
                &&& t.context == t.kernel_stack_end - INTERRUPT_CONTEXT_SIZE
                &&& t.saved == start_context(SnCpuContext::zero(), function, t.user_stack_end, false)
                &&& t.page_table_addr == 0
                &&& t.process.page_table_phys_addr == 0
                &&& t.process.id == final(self).process_counter()
            }),
    {
        let ghost s0 = *self;
        let thread_id = self.new_thread_id();
        let process_id = self.new_process_id();
        let kernel_stack_end = kernel_stack_base + KERNEL_STACK_SIZE;
        let user_stack_end = kernel_stack_end + USER_STACK_SIZE;
        let mut saved = SnCpuContext::zeroed();
        set_context(&mut saved, function, user_stack_end, false);
        let t = Thread {
            id: thread_id,
            process: Process { id: process_id, page_table_phys_addr: 0 },
            kernel_stack_base,
            kernel_stack_end,
            user_stack_end,
            context: kernel_stack_end - INTERRUPT_CONTEXT_SIZE,
            saved,
            page_table_addr: 0,
        };
        proof {
            s0.lemma_fresh_id(thread_id);
            assert(self.all_ids() == s0.all_ids());
        }
        self.enqueue_new(t);
        proof {
            assert(self.queue().drop_last() =~= s0.queue());
            assert(self.queue_ids() =~= s0.queue_ids().push(thread_id));
        }
        thread_id
    }

    /// Creates a user thread for `executable`: maps a stack slot and a heap
    /// slot in its page table, starts it at its entry point in user mode on
    /// that stack, and hands it the heap bounds in rax and rcx. Its 8 KiB
    /// kernel stack starts at `kernel_stack_base`.
    #[verifier::rlimit(40)]
    pub fn new_user_thread<T: SnExecutable>(
        &mut self,
        mem: &mut MemoryInfo,
        executable: &T,
        kernel_stack_base: u64,
    ) -> (r: Result<u64, SnMapError>)
        requires
            old(self).wf(),
            old(self).can_spawn(),
            old(mem).wf(),
            old(mem).has_space(executable.spec_page_table_phys()),
            kernel_stack_base + KERNEL_STACK_SIZE <= u64::MAX,
        ensures
            final(self).wf(),
            final(mem).wf(),
            final(self).current() == old(self).current(),
            final(mem).active() == old(mem).active(),
            forall|x: u64| #[trigger] final(mem).has_space(x) == old(mem).has_space(x),
            r is Err ==> final(self).queue() == old(self).queue(),
            r is Err ==> r == Err::<u64, SnMapError>(SnMapError::NoFreeSlot) || (r == Err::<u64, SnMapError>(
                SnMapError::FrameAllocationFailed,
            ) && final(mem).allocator().free_frames().is_empty()),
            r == Err::<u64, SnMapError>(SnMapError::NoFreeSlot) ==> final(mem).slots_all_used(
                executable.spec_page_table_phys(),
                USER_STACK_REGION_START,
                USER_STACK_REGION_END,
                SLOT_SIZE,
            ) || final(mem).slots_all_used(
                executable.spec_page_table_phys(),
                USER_HEAP_REGION_START,
                USER_HEAP_REGION_END,
                (2 * SLOT_SIZE) as u64,
            ),
            r matches Ok(id) ==> {
                let t = final(self).queue().last();
                &&& final(self).queue_ids() == old(self).queue_ids().push(id)
                &&& final(self).queue().drop_last() == old(self).queue()
                &&& !old(self).all_ids().contains(id)
                &&& t.id == id
                &&& t.kernel_stack_end == kernel_stack_base + KERNEL_STACK_SIZE
                &&& t.context == t.kernel_stack_end - INTERRUPT_CONTEXT_SIZE
                &&& t.page_table_addr == executable.spec_page_table_phys()
                &&& t.process.page_table_phys_addr == executable.spec_page_table_phys()
                &&& t.saved.rip == executable.spec_entry_point()
                &&& t.saved.rsp == t.user_stack_end
                &&& t.saved.cs == 0x33 && t.saved.ss == 0x2b
                &&& t.saved.rflags == 0x200
                &&& t.saved.rcx == t.saved.rax + 0x20_0000
                &&& USER_STACK_REGION_START < t.user_stack_end <= USER_STACK_REGION_END
                &&& forall|x: u64|
                    x % 4096 == 0 && t.user_stack_end - SLOT_SIZE + 4096 <= x < t.user_stack_end
                        ==> (#[trigger] final(mem).space(executable.spec_page_table_phys()).mapping(x)) is Some
                        && final(mem).space(executable.spec_page_table_phys()).mapping(x)->0.flags == user_rw_flags()
                &&& USER_HEAP_REGION_START <= t.saved.rax < USER_HEAP_REGION_END
                &&& forall|x: u64|
                    x % 4096 == 0 && t.saved.rax <= x < t.saved.rcx
                        ==> (#[trigger] final(mem).space(executable.spec_page_table_phys()).mapping(x)) is Some
                        && final(mem).space(executable.spec_page_table_phys()).mapping(x)->0.flags == user_rw_flags()
            },
    {
        let pt = executable.page_table_phys().as_u64();
        let user_stack_end = match mem.map_user_stack_slot(pt) {
            Err(e) => {
                return Err(e);
            },
            Ok((_, top)) => top,
        };
        let ghost m1 = *mem;
        let (user_heap, user_heap_end) = match mem.map_user_heap_slot(pt) {
            Err(e) => {
                return Err(e);
            },
            Ok(h) => h,
        };
        proof {
            assert forall|x: u64| x % 4096 == 0 && user_stack_end - SLOT_SIZE + 4096 <= x < user_stack_end implies (
            #[trigger] mem.space(pt).mapping(x)) is Some && mem.space(pt).mapping(x)->0.flags == user_rw_flags() by {
                assert(!(user_heap <= x < user_heap_end));
                assert(mem.space(pt).mapping(x) == m1.space(pt).mapping(x));
            }
        }
        let ghost s0 = *self;
        let thread_id = self.new_thread_id();
        let process_id = self.new_process_id();
        let kernel_stack_end = kernel_stack_base + KERNEL_STACK_SIZE;
        let mut saved = SnCpuContext::zeroed();
        set_context(&mut saved, executable.entry_point().as_u64(), user_stack_end, true);
        saved.set_heap_addrs(user_heap, user_heap_end);
        let t = Thread {
            id: thread_id,
            process: Process { id: process_id, page_table_phys_addr: pt },
            kernel_stack_base,
            kernel_stack_end,
            user_stack_end,
            context: kernel_stack_end - INTERRUPT_CONTEXT_SIZE,
            saved,
            page_table_addr: pt,
        };
        proof {
            s0.lemma_fresh_id(thread_id);
            assert(self.all_ids() == s0.all_ids());
        }
        self.enqueue_new(t);
        proof {
            assert(self.queue().drop_last() =~= s0.queue());
            assert(self.queue_ids() =~= s0.queue_ids().push(thread_id));
        }
        Ok(thread_id)
    }

    /// Puts `thread` at the front of the queue, so that it runs on the next tick.
    pub fn schedule_thread(&mut self, thread: Thread)
        requires
            old(self).wf(),
            thread.wf(),
            !old(self).all_ids().contains(thread.id),
            thread.id <= old(self).thread_counter(),
        ensures
            final(self).wf(),
            final(self).queue() == seq![thread] + old(self).queue(),
            final(self).current() == old(self).current(),
            final(self).thread_counter() == old(self).thread_counter(),
            final(self).process_counter() == old(self).process_counter(),
    {
        let ghost s0 = *self;
        self.running_queue.push_front(thread);
        proof {
            assert(self.queue_ids() =~= seq![thread.id] + s0.queue_ids());
            assert(self.all_ids() =~= seq![thread.id] + s0.all_ids());
            assert forall|i: int, j: int|
                0 <= i < self.all_ids().len() && 0 <= j < self.all_ids().len() && i != j implies self.all_ids()[i]
                != self.all_ids()[j] by {
                if i == 0 {
                    assert(s0.all_ids().contains(self.all_ids()[j]));
                } else if j == 0 {
                    assert(s0.all_ids().contains(self.all_ids()[i]));
                } else {
                    assert(self.all_ids()[i] == s0.all_ids()[i - 1]);
                    assert(self.all_ids()[j] == s0.all_ids()[j - 1]);
                }
            }
            assert forall|i: int| 0 <= i < self.all_ids().len() implies #[trigger] self.all_ids()[i]
                <= self.thread_counter() by {
                if i > 0 {
                    assert(self.all_ids()[i] == s0.all_ids()[i - 1]);
                }
            }
            assert forall|i: int| 0 <= i < self.queue().len() implies (#[trigger] self.queue()[i]).wf() by {
                if i > 0 {
                    assert(self.queue()[i] == s0.queue()[i - 1]);
                }
            }
        }
    }

    /// The running thread as the timer found it: its snapshot at
    /// `context_addr`, holding `saved`, with `current_l4` active.
    pub open spec fn suspended(self, context_addr: u64, saved: SnCpuContext, current_l4: u64) -> Seq<Thread> {
        match self.current() {
            Some(t) => self.queue().push(
                Thread { context: context_addr, saved, page_table_addr: current_l4, ..t },
            ),
            None => self.queue(),
        }
    }

    /// The timer's scheduling decision. The running thread, recorded with the
    /// snapshot the timer pushed at `context_addr` and the active table
    /// `current_l4`, goes to the back of the queue; the front of the queue
    /// becomes the running thread, its kernel stack end goes into the timer's
    /// interrupt-stack slot, and the address of its snapshot is returned. With
    /// no thread at all, returns zero and changes nothing.
    pub fn schedule_next(
        &mut self,
        tss: &mut SnTaskStateSegment,
        context_addr: u64,
        saved: SnCpuContext,
        current_l4: u64,
    ) -> (r: u64)
        requires
            old(self).wf(),
            old(tss).wf(),
            old(self).current() matches Some(t) ==> t.kernel_stack_base <= context_addr
                && context_addr + INTERRUPT_CONTEXT_SIZE <= t.kernel_stack_end,
        ensures
            final(self).wf(),
            final(tss).wf(),
            final(self).thread_counter() == old(self).thread_counter(),
            final(self).process_counter() == old(self).process_counter(),
            (final(self).queue_ids(), final(self).current_id()) == tick(
                old(self).queue_ids(),
                old(self).current_id(),
            ),
            ({
                let q = old(self).suspended(context_addr, saved, current_l4);
                if q.len() == 0 {
                    &&& r == 0
                    &&& final(self).current() is None
                    &&& final(self).queue().len() == 0
                    &&& final(tss).ist() == old(tss).ist()
                } else {
                    &&& final(self).current() == Some(q[0])
                    &&& final(self).queue() == q.drop_first()
                    &&& r == q[0].context
                    &&& final(tss).ist() == old(tss).ist().update(TIMER_IST_INDEX as int, q[0].kernel_stack_end)
                }
            }),
    {
        let ghost s0 = *self;
        let ghost q = s0.suspended(context_addr, saved, current_l4);
        match self.current.take() {
            Some(t) => {
                let mut t = t;
                t.context = context_addr;
                t.saved = saved;
                t.page_table_addr = current_l4;
                self.running_queue.push_back(t);
            },
            None => {},
        }
        proof {
            assert(self.running_queue@ == q);
        }
        let next = self.running_queue.pop_front();
        self.current = next;
        proof {
            let qi = match s0.current_id() {
                Some(c) => s0.queue_ids().push(c),
                None => s0.queue_ids(),
            };
            assert(q.map_values(|t: Thread| t.id) =~= qi);
            assert(qi == s0.all_ids());
            if q.len() > 0 {
                assert(self.queue() =~= q.drop_first());
                assert(self.queue_ids() =~= qi.drop_first());
                assert(self.all_ids() =~= qi.drop_first().push(qi[0]));
                assert forall|i: int, j: int|
                    0 <= i < self.all_ids().len() && 0 <= j < self.all_ids().len() && i != j implies self.all_ids()[i]
                    != self.all_ids()[j] by {
                    let n = qi.len() as int;
                    let m = |x: int| if x < n - 1 { x + 1 } else { 0 };
                    assert(self.all_ids()[i] == qi[m(i)]);
                    assert(self.all_ids()[j] == qi[m(j)]);
                }
                assert forall|i: int| 0 <= i < self.all_ids().len() implies #[trigger] self.all_ids()[i]
                    <= self.thread_counter() by {
                    let n = qi.len() as int;
                    assert(self.all_ids()[i] == qi[if i < n - 1 { i + 1 } else { 0 }]);
                }
                assert forall|i: int| 0 <= i < q.len() implies (#[trigger] q[i]).wf() by {
                    if i < s0.queue().len() {
                        assert(q[i] == s0.queue()[i]);
                    }
                }
                assert forall|i: int| 0 <= i < self.queue().len() implies (#[trigger] self.queue()[i]).wf() by {
                    assert(self.queue()[i] == q[i + 1]);
                }
                assert(q[0].wf());
            } else {
                assert(self.all_ids() =~= Seq::<u64>::empty());
            }
        }
        match &self.current {
            Some(t) => {
                set_interrupt_stack_table(tss, TIMER_IST_INDEX as usize, t.kernel_stack_end);
                t.context
            },
            None => 0,
        }
    }

    /// Forks the running thread. The child joins the same process and page
    /// table (the active one), gets a stack slot of its own mapped there and a
    /// kernel stack at `kernel_stack_base`, and starts from a copy of the
    /// caller's snapshot with rax and rdi zero; the caller gets rax zero and
    /// the child's id in rdi. Without a running thread, or when the child's
    /// stack or id cannot be had, the caller gets rax one and nothing else changes.
    pub fn fork_current_thread(
        &mut self,
        mem: &mut MemoryInfo,
        current_context: &mut SnCpuContext,
        kernel_stack_base: u64,
    )
        requires
            old(self).wf(),
            old(mem).wf(),
            kernel_stack_base + KERNEL_STACK_SIZE <= u64::MAX,
        ensures
            final(self).wf(),
            final(mem).wf(),
            final(self).current() == old(self).current(),
            final(mem).active() == old(mem).active(),
            forall|x: u64| #[trigger] final(mem).has_space(x) == old(mem).has_space(x),
            old(self).current() is None ==> *final(current_context) == (SnCpuContext {
                rax: 1,
                ..*old(current_context)
            }) && final(self).queue() == old(self).queue(),
            final(current_context).rax == 1 ==> final(self).thread_counter() == old(self).thread_counter(),
            final(current_context).rax == 1 ==> final(self).queue() == old(self).queue()
                && *final(current_context) == (SnCpuContext { rax: 1, ..*old(current_context) }),
            old(self).current() is Some && old(self).can_spawn() && final(current_context).rax == 1
                ==> final(mem).allocator().free_frames().is_empty() || old(mem).slots_all_used(
                old(mem).active(),
                USER_STACK_REGION_START,
                USER_STACK_REGION_END,
                SLOT_SIZE,
            ),
            final(current_context).rax != 1 ==> {
                let child = final(self).queue().last();
                &&& old(self).current() is Some
                &&& final(self).queue().drop_last() == old(self).queue()
                &&& final(self).queue_ids() == old(self).queue_ids().push(child.id)
                &&& !old(self).all_ids().contains(child.id)
                &&& child.id != 0
                &&& child.process == old(self).current()->0.process
                &&& child.page_table_addr == old(mem).active()
                &&& child.saved == (SnCpuContext { rax: 0, rdi: 0, ..*old(current_context) })
                &&& *final(current_context) == (SnCpuContext {
                    rax: 0,
                    rdi: child.id,
                    ..*old(current_context)
                })
            },
    {
        let cur = match &self.current {
            None => {
                current_context.set_ret_val_1(1);
                return;
            },
            Some(t) => *t,
        };
        if !self.has_room() {
            current_context.set_ret_val_1(1);
            return;
        }
        let page_table_phys_addr = mem.get_current_page_table_phys_addr();
        proof {
            mem.lemma_active_space();
        }
        let user_stack_end = match mem.map_user_stack_slot(page_table_phys_addr) {
            Err(e) => {
                current_context.set_ret_val_1(1);
                return;
            },
            Ok((_, top)) => top,
        };
        let ghost s0 = *self;
        let thread_id = self.new_thread_id();
        let kernel_stack_end = kernel_stack_base + KERNEL_STACK_SIZE;
        let mut saved = *current_context;
        saved.set_ret_val_1(0);
        saved.set_arg_val_1(0);
        let t = Thread {
            id: thread_id,
            process: cur.process,
            kernel_stack_base,
            kernel_stack_end,
            user_stack_end,
            context: kernel_stack_end - INTERRUPT_CONTEXT_SIZE,
            saved,
            page_table_addr: page_table_phys_addr,
        };
        proof {
            s0.lemma_fresh_id(thread_id);
            assert(self.all_ids() == s0.all_ids());
        }
        self.enqueue_new(t);
        proof {
            assert(self.queue().drop_last() =~= s0.queue());
            assert(self.queue_ids() =~= s0.queue_ids().push(thread_id));
        }
        current_context.set_ret_val_1(0);
        current_context.set_arg_val_1(thread_id);
    }

    /// Tells whether a queued thread belongs to process `process_id`.
    fn process_has_queued_thread(&self, process_id: u64) -> (r: bool)
        ensures
            r == exists|i: int| 0 <= i < self.queue().len() && (#[trigger] self.queue()[i]).process.id == process_id,
    {
        let mut i: usize = 0;
        while i < self.running_queue.len()
            invariant
                i <= self.queue().len(),
                forall|j: int| 0 <= j < i ==> (#[trigger] self.queue()[j]).process.id != process_id,
            decreases self.queue().len() - i,
        {
            if self.running_queue[i].process.id == process_id {
                return true;
            }
            i = i + 1;
        }
        false
    }

    /// Ends the running thread. When it was the last thread of its process
    /// and that process has a user page table, the page table is freed, after
    /// the kernel's table is made active if that one was.
    pub fn exit_current_thread(&mut self, mem: &mut MemoryInfo)
        requires
            old(self).wf(),
            old(mem).wf(),
        ensures
            final(self).wf(),
            final(mem).wf(),
            final(self).current() is None,
            final(self).queue() == old(self).queue(),
            final(self).thread_counter() == old(self).thread_counter(),
            final(self).process_counter() == old(self).process_counter(),
            final(mem).kernel() == old(mem).kernel(),
            final(mem).has_space(final(mem).active()),
            ({
                let pt = match old(self).current() {
                    Some(t) => t.process.page_table_phys_addr,
                    None => 0,
                };
                let last = old(self).current() matches Some(t) && !(exists|i: int|
                    0 <= i < old(self).queue().len() && (#[trigger] old(self).queue()[i]).process.id
                        == t.process.id);
                if last && pt != 0 && old(mem).has_user_space(pt) {
                    &&& !final(mem).has_space(pt)
                    &&& final(mem).allocator().free_frames() == old(mem).allocator().free_frames().union(
                        old(mem).space(pt).released(old(mem).kernel(), old(mem).allocator()),
                    )
                    &&& forall|x: u64|
                        x != pt && old(mem).has_space(x) ==> #[trigger] final(mem).has_space(x)
                            && final(mem).space(x) == old(mem).space(x)
                } else {
                    &&& final(mem).allocator() == old(mem).allocator()
                    &&& final(mem).user_spaces() == old(mem).user_spaces()
                }
            }),
    {
        let ghost s0 = *self;
        let taken = self.current.take();
        proof {
            assert(self.queue_ids() == s0.queue_ids());
            assert(s0.all_ids() == s0.queue_ids() || s0.all_ids() == s0.queue_ids().push(s0.current_id()->0));
            assert forall|i: int, j: int|
                0 <= i < self.all_ids().len() && 0 <= j < self.all_ids().len() && i != j implies self.all_ids()[i]
                != self.all_ids()[j] by {
                assert(self.all_ids()[i] == s0.all_ids()[i]);
                assert(self.all_ids()[j] == s0.all_ids()[j]);
            }
            assert forall|i: int| 0 <= i < self.all_ids().len() implies #[trigger] self.all_ids()[i]
                <= self.thread_counter() by {
                assert(self.all_ids()[i] == s0.all_ids()[i]);
            }
        }
        let ghost m0 = *mem;
        proof {
            mem.lemma_active_space();
            mem.lemma_kernel_not_user();
        }
        if let Some(t) = taken {
            let pt = t.process.page_table_phys_addr;
            if pt != 0 && !self.process_has_queued_thread(t.process.id) && pt != mem.kernel_page_table_phys_addr()
                && mem.has_page_table(pt) {
                if mem.get_current_page_table_phys_addr() == pt {
                    let k = mem.kernel_page_table_phys_addr();
                    mem.switch_page_table(crate::memory::SnPhysAddr::new(k));
                }
                let ghost m1 = *mem;
                proof {
                    m1.lemma_same_trees(m0);
                }
                mem.free_user_pagetables(pt);
                proof {
                    mem.lemma_active_space();
                }
            }
        }
    }
}

} // verus!
