//! The platform interrupt table: which driver callback each of the 32
//! platform IRQs runs.
use vstd::prelude::*;

verus! {

/// First interrupt vector of the platform IRQs; the IO APIC is programmed with this base.
pub const FREE_VECTORS_START: u8 = 0x40;

/// Number of platform IRQs.
pub const FREE_VECTORS: usize = 0x20;

/// An entry of the interrupt table: the callback a driver registered, by the
/// number the driver gave it.
#[derive(Clone, Copy, Debug, PartialEq, Eq, Structural)]
pub struct InterruptHandler {
    pub handler: u64,
}

pub struct InterruptController {
    handlers: Vec<Option<InterruptHandler>>,
}

impl InterruptController {
    /// The table, indexed by platform IRQ.
    pub closed spec fn table(self) -> Seq<Option<InterruptHandler>> {
        self.handlers@
    }

    pub open spec fn wf(self) -> bool {
        self.table().len() == FREE_VECTORS
    }

    /// An empty table.
    pub fn new() -> (r: InterruptController)
        ensures
            r.wf(),
            forall|i: int| 0 <= i < FREE_VECTORS ==> #[trigger] r.table()[i] is None,
    {
        let mut handlers: Vec<Option<InterruptHandler>> = Vec::new();
        let mut i: usize = 0;
        while i < FREE_VECTORS
            invariant
                i <= FREE_VECTORS,
                handlers@.len() == i,
                forall|j: int| 0 <= j < i ==> #[trigger] handlers@[j] is None,
            decreases FREE_VECTORS - i,
        {
            handlers.push(None);
            i = i + 1;
        }
        InterruptController { handlers }
    }

    /// Makes platform IRQ `idx` run callback `handler`.
    pub fn set_handler(&mut self, idx: usize, handler: u64)
        requires
            old(self).wf(),
            idx < FREE_VECTORS,
        ensures
            final(self).wf(),
            final(self).table() == old(self).table().update(idx as int, Some(InterruptHandler { handler })),
    {
        self.handlers.set(idx, Some(InterruptHandler { handler }));
    }

    /// The callback platform IRQ `idx` runs, if any.
    pub fn run_handler(&self, idx: usize) -> (r: Option<u64>)
        requires
            self.wf(),
        ensures
            r == (if idx < FREE_VECTORS {
                match self.table()[idx as int] {
                    Some(h) => Some(h.handler),
                    None => None,
                }
            } else {
                None
            }),
    {
        if idx >= FREE_VECTORS {
            return None;
        }
        match self.handlers[idx] {
            Some(h) => Some(h.handler),
            None => None,
        }
    }
}

/// The platform IRQ that interrupt vector `vector` carries, if it is one.
pub fn platform_irq(vector: u8) -> (r: Option<usize>)
    ensures
        r == (if FREE_VECTORS_START <= vector < FREE_VECTORS_START + FREE_VECTORS {
            Some((vector - FREE_VECTORS_START) as usize)
        } else {
            None
        }),
{
    if FREE_VECTORS_START <= vector && vector < FREE_VECTORS_START + FREE_VECTORS as u8 {
        Some((vector - FREE_VECTORS_START) as usize)
    } else {
        None
    }
}

} // verus!
