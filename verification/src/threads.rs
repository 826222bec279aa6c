//! Per-CPU thread bookkeeping: the saved CPU state of an execution context
//! and the slot that holds the current thread's control block.
//!
//! The actual context switch is an architecture routine; this module carries
//! the state it needs and the single-owner discipline of the thread-pointer
//! slot (a control block is lent out at most once before being put back).

use vstd::prelude::*;

verus! {

/// Saved CPU state of a suspended execution context: page-table root, stack
/// pointer, and TLS base.
#[derive(Clone, Copy, PartialEq, Eq, Structural, Debug)]
pub struct State {
    pub cr3: u64,
    pub rsp: u64,
    pub tlsbase: u64,
}

impl Default for State {
    /// An empty state; not a valid switch target until filled in.
    fn default() -> (s: State)
        ensures
            s.cr3 == 0,
            s.rsp == 0,
            s.tlsbase == 0,
    {
        State { cr3: 0, rsp: 0, tlsbase: 0 }
    }
}

/// CPU state for the boot thread. The page-table root and TLS base are
/// link-time platform addresses handed in by the caller; the stack pointer is
/// filled in by the first context switch away from this thread.
pub fn init_tid0_state(pml4_base: u64, tls_base: u64) -> (s: State)
    ensures
        s.cr3 == pml4_base,
        s.rsp == 0,
        s.tlsbase == tls_base,
{
    State { cr3: pml4_base, rsp: 0, tlsbase: tls_base }
}

/// Whether `s` may be switched to: the page-table root and the TLS base must
/// both be set. Switching to a state that fails this is a kernel bug.
pub fn switch_target_valid(s: &State) -> (r: bool)
    ensures
        r == (s.cr3 != 0 && s.tlsbase != 0),
{
    s.cr3 != 0 && s.tlsbase != 0
}

/// The per-CPU slot holding the current thread's control block, identified by
/// a nonzero token. The block is lent out (`take`) at most once before being
/// returned (`put`) or before the next context switch completes
/// (`finish_switch`); violating that discipline was fatal in the original
/// design and is excluded by contract here.
pub struct ThreadPtrSlot {
    ptr: u64,
    sent: bool,
}

impl ThreadPtrSlot {
    /// The installed control-block token; zero while the slot is empty.
    pub closed spec fn ptr_spec(self) -> u64 {
        self.ptr
    }

    /// Whether the control block is currently lent out.
    pub closed spec fn sent_spec(self) -> bool {
        self.sent
    }

    pub fn new() -> (s: ThreadPtrSlot)
        ensures
            s.ptr_spec() == 0,
            !s.sent_spec(),
    {
        ThreadPtrSlot { ptr: 0, sent: false }
    }

    /// Lend out the current thread's control block. The slot must be
    /// populated and the block must not already be lent out.
    pub fn take(&mut self) -> (r: u64)
        requires
            old(self).ptr_spec() != 0,
            !old(self).sent_spec(),
        ensures
            r == old(self).ptr_spec(),
            final(self).ptr_spec() == old(self).ptr_spec(),
            final(self).sent_spec(),
    {
        self.sent = true;
        self.ptr
    }

    /// Re-register the current control block after a switch, or install one
    /// into an empty slot. Re-registering is only legal once the block is no
    /// longer lent out (the completed switch cleared that mark).
    pub fn put(&mut self, p: u64)
        requires
            p != 0,
            old(self).ptr_spec() == p ==> !old(self).sent_spec(),
            old(self).ptr_spec() != p ==> old(self).ptr_spec() == 0,
        ensures
            final(self).ptr_spec() == p,
            !final(self).sent_spec(),
    {
        self.ptr = p;
        self.sent = false;
    }

    /// A context switch completed: the new thread's control block token is
    /// installed and is no longer considered lent out.
    pub fn finish_switch(&mut self, p: u64)
        requires
            p != 0,
        ensures
            final(self).ptr_spec() == p,
            !final(self).sent_spec(),
    {
        self.ptr = p;
        self.sent = false;
    }
}

} // verus!
