use abfall::{GcCell, GcVTable, Heap};

fn leaf(size: usize) -> GcVTable {
    GcVTable { layout_size: size, no_trace: true }
}

fn node(size: usize) -> GcVTable {
    GcVTable { layout_size: size, no_trace: false }
}

#[test]
fn basic_allocation() {
    let mut heap: Heap<i32> = Heap::new();
    let ptr = heap.allocate(42, leaf(16));
    assert_eq!(*heap.get(ptr.as_ptr()), 42);
}

#[test]
fn allocation_and_collection() {
    let mut heap: Heap<i32> = Heap::new();
    let ptr1 = heap.allocate(100, leaf(16));
    let ptr2 = heap.allocate(200, leaf(16));
    heap.drop_root(ptr2);
    heap.collect();
    assert_eq!(*heap.get(ptr1.as_ptr()), 100);
}

#[test]
fn incremental_marking() {
    let mut heap: Heap<Vec<i32>> = Heap::new();
    let root = heap.allocate(vec![1, 2, 3], leaf(32));
    let _temp = heap.allocate(vec![4, 5, 6], leaf(32));
    heap.force_collect();
    assert_eq!(heap.get(root.as_ptr()).len(), 3);
}

#[test]
fn root_preservation_after_collection() {
    let mut heap: Heap<i64> = Heap::new();
    let keep = heap.allocate(1234, leaf(16));
    for _ in 0..1000 {
        let tmp = heap.allocate(0, leaf(16));
        heap.drop_root(tmp);
    }
    heap.force_collect();
    assert_eq!(*heap.get(keep.as_ptr()), 1234);
}

#[test]
fn sweep_frees_memory() {
    let mut heap: Heap<usize> = Heap::new();
    let roots: Vec<_> = (0..10).map(|i| heap.allocate(i, leaf(8))).collect();
    for _ in 0..500 {
        let t = heap.allocate(0, leaf(256));
        heap.drop_root(t);
    }
    let peak = heap.bytes_allocated();
    for r in roots {
        heap.drop_root(r);
    }
    heap.force_collect();
    let after = heap.bytes_allocated();
    assert!(after < peak / 2, "expected significant reclaim: after={}, peak={}", after, peak);
}

#[test]
fn tracing_chain_keeps_all_nodes() {
    let mut heap: Heap<usize> = Heap::new();
    let mut prev = heap.allocate(0, node(16));
    for i in 1..100 {
        let n = heap.allocate(i, node(16));
        heap.add_cell(n.as_ptr(), prev.as_ptr());
        heap.drop_root(prev);
        prev = n;
    }
    heap.force_collect();
    let mut count = 0;
    let mut cur = prev.as_ptr();
    loop {
        count += 1;
        if heap.cells_len(cur) > 0 {
            cur = heap.cell_get(cur, 0);
        } else {
            break;
        }
    }
    assert_eq!(count, 100);
}

#[test]
fn large_object_graph_survives_multiple_cycles() {
    let mut heap: Heap<Vec<usize>> = Heap::new();
    let roots: Vec<_> = (0..100).map(|i| heap.allocate(vec![i; 32], leaf(256))).collect();
    for cycle in 0..5 {
        for _ in 0..500 {
            let t = heap.allocate(Vec::new(), leaf(64));
            heap.drop_root(t);
        }
        heap.force_collect();
        for (i, r) in roots.iter().enumerate() {
            assert_eq!(heap.get(r.as_ptr())[0], i);
        }
        println!("cycle {} ok", cycle);
    }
}

#[test]
fn test_gcptrcell_basic() {
    let mut heap: Heap<i32> = Heap::new();
    let value1 = heap.allocate(10, leaf(16));
    let value2 = heap.allocate(20, leaf(16));

    let mut cell = GcCell::new(value1.as_ptr());
    let retrieved = heap.root(cell.get());
    assert_eq!(*heap.get(retrieved.as_ptr()), 10);

    heap.cell_store(&mut cell, value2.as_ptr());
    let retrieved = heap.root(cell.get());
    assert_eq!(*heap.get(retrieved.as_ptr()), 20);
}

#[test]
fn test_gcptrcell_write_barrier() {
    let mut heap: Heap<i32> = Heap::off();
    let value1 = heap.allocate(10, leaf(16));
    let value2 = heap.allocate(20, leaf(16));
    let value2_unrooted = value2.as_ptr();
    heap.drop_root(value2);

    let cell_owner = heap.allocate(0, node(16));
    heap.add_cell(cell_owner.as_ptr(), value1.as_ptr());

    let old_allocated = heap.bytes_allocated();

    // marking (partial marking step for test)
    heap.try_mark_full();

    assert!(heap.header(value2_unrooted).is_white(), "Value2 should still be white here");

    // Mutation during marking - write barrier should shade value2
    heap.set_cell(cell_owner.as_ptr(), 0, value2_unrooted);

    assert!(!heap.header(value2_unrooted).is_white(), "Value2 is now gray after write barrier");

    // Finish with sweeping
    heap.sweep_and_finish();

    let new_allocated = heap.bytes_allocated();
    assert_eq!(new_allocated, old_allocated, "No allocations should be freed");

    assert_eq!(*heap.get(value2_unrooted), 20);
}
