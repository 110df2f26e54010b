use abfall::{AtomicColor, Color, GcOptions, GcVTable, Heap};

fn leaf(size: usize) -> GcVTable {
    GcVTable { layout_size: size, no_trace: true }
}

fn node(size: usize) -> GcVTable {
    GcVTable { layout_size: size, no_trace: false }
}

#[test]
fn color_byte_decoding() {
    assert_eq!(Color::from(0u8), Color::White);
    assert_eq!(Color::from(1u8), Color::Gray);
    assert_eq!(Color::from(2u8), Color::Black);
    assert_eq!(Color::from(7u8), Color::White);
}

#[test]
fn atomic_color_transitions() {
    let mut c = AtomicColor::new(Color::White);
    assert!(c.is_white());
    assert!(c.mark_white_to_gray());
    assert_eq!(c.load(), Color::Gray);
    assert!(!c.mark_white_to_gray());
    c.mark_black();
    assert_eq!(c.load(), Color::Black);
    c.reset_white();
    assert!(c.is_white());
    assert_eq!(c.compare_exchange(Color::White, Color::Gray), Ok(Color::White));
    assert_eq!(c.compare_exchange(Color::White, Color::Black), Err(Color::Gray));
    c.store(Color::Black);
    assert_eq!(c.load(), Color::Black);
}

#[test]
fn options_profiles() {
    let on = GcOptions::new();
    assert_eq!(on.threshold_percent, 30);
    assert_eq!(on.assist_work_budget, 5);
    assert_eq!(on.min_threshold_bytes, 1048576);
    assert!(!on.is_background_collection_off());
    let off = GcOptions::off();
    assert_eq!(off.assist_work_budget, 0);
    assert_eq!(off.collection_interval_millis, 0);
    assert!(off.is_background_collection_off());
}

#[test]
fn phase_is_idle_after_force_collect() {
    let mut heap: Heap<u64> = Heap::new();
    let _r = heap.allocate(7, leaf(16));
    assert!(!heap.is_marking());
    heap.force_collect();
    assert!(!heap.is_marking());
}

#[test]
fn force_collect_is_noop_while_marking() {
    let mut heap: Heap<u64> = Heap::off();
    let _r = heap.allocate(7, leaf(16));
    let before = heap.bytes_allocated();
    assert!(heap.try_start_marking());
    assert!(heap.is_marking());
    let reported = heap.force_collect();
    assert_eq!(reported, before);
    assert!(heap.is_marking());
    while !heap.do_mark_incremental(8) {}
    heap.sweep_and_finish();
    assert!(!heap.is_marking());
    assert_eq!(heap.bytes_allocated(), before);
}

#[test]
fn root_count_discipline() {
    let mut heap: Heap<u32> = Heap::off();
    let r = heap.allocate(5, leaf(16));
    let p = r.as_ptr();
    assert!(heap.header(p).is_root());
    let r2 = heap.clone_root(&r);
    heap.drop_root(r);
    assert!(heap.header(p).is_root());
    heap.drop_root(r2);
    assert!(!heap.header(p).is_root());
    heap.force_collect();
    assert_eq!(heap.allocation_count(), 0);
}

#[test]
fn allocation_count_matches_survivors() {
    let mut heap: Heap<u32> = Heap::off();
    let kept: Vec<_> = (0..3).map(|i| heap.allocate(i, node(16))).collect();
    // one unrooted object hanging off a kept root survives; two garbage
    // objects do not
    let child = heap.allocate(99, leaf(16));
    heap.add_cell(kept[0].as_ptr(), child.as_ptr());
    heap.drop_root(child);
    for i in 0..2 {
        let g = heap.allocate(i, leaf(16));
        heap.drop_root(g);
    }
    assert_eq!(heap.allocation_count(), 6);
    heap.force_collect();
    assert_eq!(heap.allocation_count(), 4);
    assert_eq!(*heap.get(heap.cell_get(kept[0].as_ptr(), 0)), 99);
}

#[test]
fn barrier_keeps_cell_target_alive() {
    let mut heap: Heap<usize> = Heap::off();
    let ptrs: Vec<_> = (0..1000)
        .map(|i| {
            let r = heap.allocate(i, leaf(16));
            let p = r.as_ptr();
            heap.drop_root(r);
            p
        })
        .collect();
    let owner = heap.allocate(0, node(16));
    heap.add_cell(owner.as_ptr(), ptrs[0]);
    assert!(heap.try_start_marking());
    for &p in &ptrs {
        heap.set_cell(owner.as_ptr(), 0, p);
    }
    while !heap.do_mark_incremental(64) {}
    heap.sweep_and_finish();
    let last = heap.cell_get(owner.as_ptr(), 0);
    assert_eq!(*heap.get(last), 999);
}

#[test]
fn pacing_triggers_collection() {
    let opts = GcOptions {
        collection_interval_millis: 0,
        incremental_work_budget: 100,
        assist_work_budget: 5,
        threshold_percent: 10,
        threshold_shrink_percent: 30,
        min_threshold_bytes: 4096,
        limit_bytes: usize::MAX,
    };
    let mut heap: Heap<u8> = Heap::with_options(opts);
    assert!(!heap.should_collect());
    let keep = heap.allocate(1, leaf(64));
    for _ in 0..200 {
        let t = heap.allocate(0, leaf(64));
        heap.drop_root(t);
    }
    assert!(heap.should_collect());
    heap.collect();
    assert!(!heap.should_collect());
    assert_eq!(*heap.get(keep.as_ptr()), 1);
    assert_eq!(heap.allocation_count(), 1);
}

#[test]
fn liveness_observers() {
    let mut heap: Heap<u8> = Heap::off();
    assert_eq!(heap.slot_count(), 0);
    let a = heap.allocate(1, leaf(16));
    let b = heap.allocate(2, leaf(16));
    let bp = b.as_ptr();
    assert_eq!(heap.slot_count(), 2);
    assert!(heap.is_live(a.as_ptr()));
    assert!(heap.is_live(bp));
    heap.drop_root(b);
    heap.force_collect();
    // slots are never reused: the swept object's pointer stays dead
    assert!(!heap.is_live(bp));
    assert!(heap.is_live(a.as_ptr()));
    assert_eq!(heap.slot_count(), 2);
    let c = heap.allocate(3, leaf(16));
    assert_eq!(heap.slot_count(), 3);
    assert!(heap.is_live(c.as_ptr()));
}

#[test]
fn bytes_track_layout_sizes() {
    let mut heap: Heap<u8> = Heap::off();
    assert_eq!(heap.bytes_allocated(), 0);
    let a = heap.allocate(0, leaf(48));
    let _b = heap.allocate(0, leaf(16));
    assert_eq!(heap.bytes_allocated(), 64);
    heap.drop_root(a);
    heap.force_collect();
    assert_eq!(heap.bytes_allocated(), 16);
}
