use kernel_core::heap::{self, HeapDef, HeapId};
use kernel_core::num::round_up;

#[test]
fn round_up_multiples() {
    assert_eq!(round_up(50, 32), 64);
    assert_eq!(round_up(0, 32), 0);
    assert_eq!(round_up(40, 32), 64);
    assert_eq!(round_up(64, 32), 64);
    // idempotent, a multiple of 32, and at least size + overhead
    let r = round_up(10 + heap::OVERHEAD, 32);
    assert_eq!(round_up(r, 32), r);
    assert_eq!(r % 32, 0);
    assert!(r >= 10 + heap::OVERHEAD);
}

#[test]
fn first_fit_reuse_scenario() {
    let mut h = HeapDef::new(1 << 20);
    let p1 = h.allocate(10).expect("first allocation");
    let p2 = h.allocate(20).expect("second allocation");
    assert_ne!(p1, p2);
    assert!(p2 >= p1 + 10 + heap::OVERHEAD);
    h.deallocate(p1);
    let p3 = h.allocate(8).expect("reuse allocation");
    assert_eq!(p3, p1);
}

#[test]
fn first_expansion_scenario() {
    let mut h = HeapDef::new(1 << 20);
    assert!(!h.is_started());
    assert_eq!(h.arena_len(), 0);
    let p = h.allocate(4).expect("allocation triggers growth");
    assert!(h.is_started());
    assert!(h.arena_len() >= heap::PAGE_SIZE);
    assert_eq!(h.arena_len(), heap::PAGE_SIZE);
    assert_eq!(p, heap::HEADER_SIZE);
    // the tail block is the free remainder of the split
    let tail = h.last_block();
    let (tail_size, tail_free) = h.probe_block(tail).expect("tail block probe");
    assert!(tail_free);
    assert_eq!(tail, 64);
    assert_eq!(tail_size, heap::PAGE_SIZE - 64);
}

#[test]
fn split_sizes_add_up_exactly() {
    let mut h = HeapDef::new(1 << 20);
    h.allocate(10).expect("allocation");
    let (used_size, used_free) = h.probe_block(0).expect("used block");
    assert!(!used_free);
    let (rem_size, rem_free) = h.probe_block(used_size).expect("remainder block");
    assert!(rem_free);
    assert_eq!(used_size + rem_size, heap::PAGE_SIZE);
}

#[test]
fn realloc_same_size_never_grows_arena() {
    let mut h = HeapDef::new(1 << 20);
    let first = h.allocate(100).expect("allocation");
    h.deallocate(first);
    let high = h.arena_len();
    for _ in 0..50 {
        let p = h.allocate(100).expect("allocation");
        assert_eq!(p, first);
        assert_eq!(h.arena_len(), high);
        h.deallocate(p);
    }
    assert_eq!(h.arena_len(), high);
}

#[test]
fn live_regions_do_not_overlap() {
    let mut h = HeapDef::new(1 << 20);
    let sizes = [10usize, 200, 8, 4000, 33];
    let mut live: Vec<(usize, usize)> = Vec::new();
    for s in sizes {
        let p = h.allocate(s).expect("allocation");
        live.push((p, s));
    }
    for i in 0..live.len() {
        for k in 0..live.len() {
            if i != k {
                let (p1, s1) = live[i];
                let (p2, _s2) = live[k];
                assert!(p1 + s1 <= p2 || p2 < p1);
            }
        }
    }
}

#[test]
fn exhaustion_is_reported_not_fatal() {
    let mut h = HeapDef::new(heap::PAGE_SIZE);
    assert!(h.allocate(10).is_some());
    assert!(h.allocate(8000).is_none());
    // the heap is untouched and still usable
    assert_eq!(h.arena_len(), heap::PAGE_SIZE);
    assert!(h.allocate(10).is_some());
}

#[test]
fn top_level_entry_points() {
    let mut h = HeapDef::new(1 << 20);
    heap::init();
    let p = heap::allocate(HeapId::GlobalHeap, &mut h, 16).expect("allocation");
    heap::deallocate(&mut h, p);
    let v = heap::alloc_value(&mut h, 24);
    let a = heap::alloc_array(&mut h, 4, 8);
    assert_ne!(v, a);
}
