//! The allocatable ISR table: binding a callback to an interrupt vector,
//! looking up which callback a raised vector should run, and the
//! frame-pointer walk used when an unexpected fault is reported.
//!
//! Invoking the bound callback, reading fault registers, and printing belong
//! to the architecture layer; here the table itself is explicit state and
//! every decision about it is verified. A callback is carried as a nonzero
//! token naming the registered routine, with its opaque context word and
//! index, exactly the triple the dispatcher hands to the routine.

use vstd::prelude::*;

verus! {

/// The registers pushed for an interrupt or fault, in stack order.
#[derive(Clone, Copy, PartialEq, Eq, Structural, Debug)]
pub struct InterruptRegs {
    pub gs: u64,
    pub rax: u64,
    pub rcx: u64,
    pub rdx: u64,
    pub rbx: u64,
    pub rbp: u64,
    pub rsi: u64,
    pub rdi: u64,
    pub r8: u64,
    pub r9: u64,
    pub r10: u64,
    pub r11: u64,
    pub r12: u64,
    pub r13: u64,
    pub r14: u64,
    pub r15: u64,
    pub intnum: u64,
    pub errorcode: u64,
    pub rip: u64,
    pub cs: u64,
    pub rflags: u64,
    pub rsp: u64,
    pub ss: u64,
}

/// One slot of the ISR table: the bound callback token (`None` when the slot
/// is free), its context word, and its index argument.
#[derive(Clone, Copy, PartialEq, Eq, Structural, Debug)]
pub struct IRQHandlersEnt {
    pub handler: Option<u64>,
    pub info: u64,
    pub idx: usize,
}

/// The number of interrupt vectors the table covers.
pub const NUM_VECTORS: usize = 256;

/// The table of bound interrupt handlers, one slot per vector.
pub struct IsrTable {
    entries: Vec<IRQHandlersEnt>,
}

/// Registration handle for a bound ISR slot; surrendering it frees the slot.
pub struct ISRHandle {
    idx: usize,
}

impl ISRHandle {
    /// The vector this handle owns, for contracts.
    pub closed spec fn idx_spec(self) -> usize {
        self.idx
    }

    /// The vector this handle owns.
    pub fn idx(&self) -> (r: usize)
        ensures
            r == self.idx_spec(),
    {
        self.idx
    }
}

impl Default for ISRHandle {
    /// A handle owning vector zero, the conventional "unbound" placeholder.
    fn default() -> (h: ISRHandle)
        ensures
            h.idx_spec() == 0,
    {
        ISRHandle { idx: 0 }
    }
}

impl IsrTable {
    /// The table's slots, for contracts.
    pub closed spec fn slots(self) -> Seq<IRQHandlersEnt> {
        self.entries@
    }

    /// Every vector has a slot.
    pub open spec fn wf(self) -> bool {
        self.slots().len() == NUM_VECTORS
    }

    /// A table with every slot free.
    pub fn new() -> (t: IsrTable)
        ensures
            t.wf(),
            forall|i: int| 0 <= i < NUM_VECTORS ==> (#[trigger] t.slots()[i]).handler.is_none(),
    {
        let mut entries: Vec<IRQHandlersEnt> = Vec::new();
        let empty = IRQHandlersEnt { handler: None, info: 0, idx: 0 };
        let mut i: usize = 0;
        while i < NUM_VECTORS
            invariant
                i <= NUM_VECTORS,
                entries@.len() == i,
                forall|k: int| 0 <= k < i ==> entries@[k] == empty,
            decreases NUM_VECTORS - i,
        {
            entries.push(empty);
            i += 1;
        }
        IsrTable { entries }
    }

    /// The call a raised vector should make: the bound callback token with
    /// its context word and index, or nothing if the slot is free. The
    /// dispatcher performs the actual call.
    pub fn dispatch(&self, index: usize) -> (r: Option<(u64, u64, usize)>)
        requires
            self.wf(),
            index < NUM_VECTORS,
        ensures
            r.is_some() <==> self.slots()[index as int].handler.is_some(),
            r.is_some() ==> r == Some(
                (
                    self.slots()[index as int].handler.unwrap(),
                    self.slots()[index as int].info,
                    self.slots()[index as int].idx,
                ),
            ),
    {
        let ent = self.entries[index];
        match ent.handler {
            Some(h) => Some((h, ent.info, ent.idx)),
            None => None,
        }
    }

    /// Bind a callback (and its parameters) to an allocatable ISR vector.
    /// Fails, changing nothing, when the slot is already taken; otherwise
    /// fills exactly that slot and hands back the handle that owns it.
    pub fn bind_isr(&mut self, isr: u8, callback: u64, info: u64, idx: usize) -> (r: Result<
        ISRHandle,
        (),
    >)
        requires
            old(self).wf(),
        ensures
            final(self).wf(),
            old(self).slots()[isr as int].handler.is_some() ==> r.is_err()
                && final(self).slots() == old(self).slots(),
            old(self).slots()[isr as int].handler.is_none() ==> {
                &&& r.is_ok()
                &&& r.unwrap().idx_spec() == isr as usize
                &&& final(self).slots() == old(self).slots().update(
                    isr as int,
                    IRQHandlersEnt { handler: Some(callback), info, idx },
                )
            },
    {
        let slot: usize = isr as usize;
        if self.entries[slot].handler.is_some() {
            return Err(());
        }
        self.entries.set(slot, IRQHandlersEnt { handler: Some(callback), info, idx });
        Ok(ISRHandle { idx: slot })
    }

    /// Release the slot a handle owns, consuming the handle (the original
    /// freed the slot when the handle was dropped).
    pub fn unbind_isr(&mut self, handle: ISRHandle)
        requires
            old(self).wf(),
            handle.idx_spec() < NUM_VECTORS,
        ensures
            final(self).wf(),
            final(self).slots() == old(self).slots().update(
                handle.idx_spec() as int,
                IRQHandlersEnt {
                    handler: None,
                    info: old(self).slots()[handle.idx_spec() as int].info,
                    idx: old(self).slots()[handle.idx_spec() as int].idx,
                },
            ),
    {
        let i = handle.idx;
        let old_ent = self.entries[i];
        self.entries.set(i, IRQHandlersEnt { handler: None, info: old_ent.info, idx: old_ent.idx });
    }
}

/// One step of the frame-pointer walk taken while reporting a fault. The
/// caller checks that `bp` points at sixteen mapped bytes and reads the saved
/// frame pointer and return address from there; this step rejects a null,
/// misaligned, or unmapped frame, and turns a saved pointer that fails to
/// move up the stack into a terminator for the following step.
pub fn backtrace(bp: u64, mem_valid: bool, saved_bp: u64, saved_ip: u64) -> (r: Option<
    (u64, u64),
>)
    ensures
        (bp == 0 || bp % 8 != 0 || !mem_valid) ==> r.is_none(),
        (bp != 0 && bp % 8 == 0 && mem_valid) ==> r == Some(
            (if saved_bp <= bp { 0u64 } else { saved_bp }, saved_ip),
        ),
{
    if bp == 0 {
        return None;
    }
    if bp % 8 != 0 {
        return None;
    }
    if !mem_valid {
        return None;
    }
    if saved_bp <= bp {
        Some((0, saved_ip))
    } else {
        Some((saved_bp, saved_ip))
    }
}

} // verus!
