// The collector scenarios, run against one explicit heap. What a concurrent
// setting spreads over mutator threads is played out here as one sequential
// interleaving: every thread-local step becomes a call on the same heap.

use rust_cc::cc::Cc;
use rust_cc::collector::{collect_and_stop, collect_cycles, Heap, STATES};

fn initial_test(heap: &Heap<u64>) {
    assert!(!heap.spawned);
    assert!(!heap.running);
    assert_eq!(heap.collector_state, STATES::SLEEPING);
    assert_eq!(heap.collector_version, 0);
}

/// Three blocks linked 1 -> 2 -> 3 -> 1 through their logged-mutex edges,
/// with every directly held handle dropped: pure cyclic garbage.
fn build_three_cycle(heap: &mut Heap<u64>) {
    let c1 = Cc::new(heap, 0);
    let c2 = Cc::new(heap, 0);
    let c3 = Cc::new(heap, 0);
    let e2 = c2.clone(heap);
    heap.lock_store(&c1, vec![e2]);
    let e3 = c3.clone(heap);
    heap.lock_store(&c2, vec![e3]);
    let e1 = c1.clone(heap);
    heap.lock_store(&c3, vec![e1]);
    c1.drop_handle(heap);
    c2.drop_handle(heap);
    c3.drop_handle(heap);
}

#[test]
fn collect_acyclic() {
    let mut heap: Heap<u64> = Heap::new();
    initial_test(&heap);

    let a = Cc::new(&mut heap, 4);
    a.drop_handle(&mut heap);
    let b = Cc::new(&mut heap, 4);
    b.drop_handle(&mut heap);

    collect_and_stop(&mut heap).unwrap();

    assert_eq!(heap.n_acyclic_dropped, 2);
    assert_eq!(heap.n_cyclic_dropped, 0);
}

#[test]
fn collect_cyclic() {
    let mut heap: Heap<u64> = Heap::new();
    initial_test(&heap);

    build_three_cycle(&mut heap);
    build_three_cycle(&mut heap);

    collect_and_stop(&mut heap).unwrap();

    assert_eq!(heap.n_acyclic_dropped, 0);
    assert_eq!(heap.n_cyclic_dropped, 6);
}

#[test]
fn collect_cyclic_move() {
    let mut heap: Heap<u64> = Heap::new();
    initial_test(&heap);

    build_three_cycle(&mut heap);

    collect_and_stop(&mut heap).unwrap();

    assert_eq!(heap.n_acyclic_dropped, 0);
    assert_eq!(heap.n_cyclic_dropped, 3);
}

#[test]
fn more_thread() {
    let mut heap: Heap<u64> = Heap::new();
    initial_test(&heap);

    for _ in 0..100 {
        build_three_cycle(&mut heap);
    }

    collect_and_stop(&mut heap).unwrap();

    assert_eq!(heap.n_acyclic_dropped, 0);
    assert_eq!(heap.n_cyclic_dropped, 3 * 100);
}

#[test]
fn no_dealloc() {
    let mut heap: Heap<u64> = Heap::new();
    initial_test(&heap);

    let a = Cc::new(&mut heap, 4);
    a.drop_handle(&mut heap);

    // A long-lived mutator keeps this block's handle and relocks its logged
    // mutex while the collector runs its cycle: the block is never reclaimed.
    let held = Cc::new(&mut heap, 0);
    heap.start_collecting();
    let _guard = heap.lock(&held);
    let _guard2 = heap.lock(&held);
    heap.apply_changes().unwrap();
    heap.collect();
    heap.clean_logs();
    heap.finish_collection();

    collect_and_stop(&mut heap).unwrap();

    assert_eq!(heap.n_acyclic_dropped, 1);
    assert_eq!(heap.n_cyclic_dropped, 0);

    // The mutator still holds its handle when the collector is retired: the
    // relocked block outlives the collection.
    assert!(heap.blocks[held.idx].is_some());
}

#[test]
fn collector_version_check() {
    let mut heap: Heap<u64> = Heap::new();
    initial_test(&heap);

    let a = Cc::new(&mut heap, 4);
    a.drop_handle(&mut heap);

    assert_eq!(heap.collector_version, 0);
    collect_and_stop(&mut heap).unwrap();
    assert_eq!(heap.collector_version, 1);
}

#[test]
fn log_version_check() {
    let mut heap: Heap<u64> = Heap::new();
    initial_test(&heap);

    let a = Cc::new(&mut heap, 4);
    a.drop_handle(&mut heap);

    let l = Cc::new(&mut heap, 0);
    assert_eq!(heap.blocks[l.idx].as_ref().unwrap().lm.log_pointer.version, 0);

    // Lock while the collector is collecting: the logged mutex publishes a
    // snapshot stamped with the collector's version.
    heap.start_collecting();
    let _guard = heap.lock(&l);
    assert!(heap.blocks[l.idx].as_ref().unwrap().lm.log_pointer.version > 0);
    heap.apply_changes().unwrap();
    heap.collect();
    heap.clean_logs();
    heap.finish_collection();

    l.drop_handle(&mut heap);
    collect_and_stop(&mut heap).unwrap();
}

#[test]
fn check_thread_actions() {
    let mut heap: Heap<u64> = Heap::new();
    initial_test(&heap);

    {
        let a = Cc::new(&mut heap, 4);
        a.drop_handle(&mut heap); // just one REMOVE is counted
    }

    assert_eq!(heap.thread_actions.len(), 1);

    {
        let g = Cc::new(&mut heap, 4);
        let g2 = g.clone(&mut heap); // ADD
        g2.drop_handle(&mut heap); // REMOVE
        g.drop_handle(&mut heap); // REMOVE
    }

    assert_eq!(heap.thread_actions.len(), 4);

    collect_and_stop(&mut heap).unwrap();
}

#[test]
fn collect_cycles_without_collector_is_a_no_op() {
    let mut heap: Heap<u64> = Heap::new();
    initial_test(&heap);
    collect_cycles(&mut heap).unwrap();
    assert_eq!(heap.collector_version, 0);
    assert!(!heap.spawned);
}
