use kernel_core::interrupts::{backtrace, IsrTable, NUM_VECTORS};
use kernel_core::threads::{init_tid0_state, switch_target_valid, State, ThreadPtrSlot};

#[test]
fn bind_and_dispatch() {
    let mut t = IsrTable::new();
    let h = t.bind_isr(33, 0xbeef, 7, 2).expect("free slot");
    assert_eq!(h.idx(), 33);
    assert_eq!(t.dispatch(33), Some((0xbeef, 7, 2)));
    assert_eq!(t.dispatch(34), None);
    // a taken slot refuses a second binding
    assert!(t.bind_isr(33, 0xf00d, 0, 0).is_err());
    t.unbind_isr(h);
    assert_eq!(t.dispatch(33), None);
    assert!(NUM_VECTORS == 256);
}

#[test]
fn backtrace_steps() {
    assert_eq!(backtrace(0, true, 1, 2), None);
    assert_eq!(backtrace(12, true, 1, 2), None);
    assert_eq!(backtrace(16, false, 1, 2), None);
    // a frame pointer that fails to move up the stack terminates the walk
    assert_eq!(backtrace(16, true, 8, 0x99), Some((0, 0x99)));
    assert_eq!(backtrace(16, true, 64, 0x99), Some((64, 0x99)));
}

#[test]
fn boot_thread_state() {
    let s = init_tid0_state(0x1000, 0x2000);
    assert_eq!(s.cr3, 0x1000);
    assert_eq!(s.rsp, 0);
    assert_eq!(s.tlsbase, 0x2000);
    assert!(switch_target_valid(&s));
    let empty = State::default();
    assert!(!switch_target_valid(&empty));
}

#[test]
fn thread_ptr_slot_discipline() {
    let mut slot = ThreadPtrSlot::new();
    slot.put(0x77);
    let p = slot.take();
    assert_eq!(p, 0x77);
    slot.finish_switch(0x88);
    slot.put(0x88);
    assert_eq!(slot.take(), 0x88);
}
