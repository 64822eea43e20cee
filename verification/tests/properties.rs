// Properties of the counter word, the logged-mutex snapshots, the deferred
// inbox and the collector's boundary behaviors, checked on concrete values.

use rust_cc::cc::Cc;
use rust_cc::collector::{collect_and_stop, collect_cycles, is_collecting, Heap, STATES};
use rust_cc::counter_marker::{CounterError, CounterMarker, MAX_COUNTER};

#[test]
fn counter_overflow_is_fatal() {
    let mut cm = CounterMarker::new_with_counter_to_one(false);
    let mut n: u64 = 1;
    while n < MAX_COUNTER {
        cm.increment_counter().unwrap();
        n += 1;
    }
    assert_eq!(u64::from(cm.counter()), MAX_COUNTER);
    assert_eq!(cm.increment_counter(), Err(CounterError::Overflow));
    assert_eq!(u64::from(cm.counter()), MAX_COUNTER);
}

#[test]
fn counter_underflow_is_fatal() {
    let mut cm = CounterMarker::new_with_counter_to_one(false);
    cm.decrement_counter().unwrap();
    assert_eq!(cm.counter(), 0);
    assert_eq!(cm.decrement_counter(), Err(CounterError::Underflow));
}

#[test]
fn counter_word_projections() {
    let mut cm = CounterMarker::new_with_counter_to_one(true);
    assert_eq!(cm.counter(), 1);
    assert_eq!(cm.tracing_counter(), 0);
    assert!(cm.is_not_marked());
    assert!(!cm.needs_finalization());

    cm.increment_counter().unwrap();
    cm.increment_tracing_counter().unwrap();
    cm.increment_tracing_counter().unwrap();
    assert_eq!(cm.counter(), 2);
    assert_eq!(cm.tracing_counter(), 2);

    cm.mark(rust_cc::counter_marker::Mark::PossibleCycles);
    assert!(cm.is_in_possible_cycles());
    assert!(!cm.is_traced());
    cm.mark(rust_cc::counter_marker::Mark::Traced);
    assert!(cm.is_traced());
    assert_eq!(cm.counter(), 2);
    assert_eq!(cm.tracing_counter(), 2);

    cm.reset_tracing_counter();
    assert_eq!(cm.tracing_counter(), 0);
    assert_eq!(cm.counter(), 2);
    assert!(cm.is_traced());

    cm.set_finalized(false);
    assert!(cm.needs_finalization());
    cm.set_finalized(true);
    assert!(!cm.needs_finalization());
}

#[test]
fn too_many_references_is_fatal() {
    let mut heap: Heap<u64> = Heap::new();
    let a = Cc::new(&mut heap, 0);
    let mut n: u64 = 0;
    while n < MAX_COUNTER {
        // Each clone defers one Add; the handles themselves are plain values.
        let _ = a.clone(&mut heap);
        n += 1;
    }
    let r = collect_cycles(&mut heap);
    assert_eq!(r, Err(CounterError::Overflow));
    // The fatal failure kills the collector mid-cycle.
    assert_eq!(heap.collector_state, STATES::COLLECTING);
}

#[test]
fn handle_queries() {
    let mut heap: Heap<u64> = Heap::new();
    let a = Cc::new(&mut heap, 5);
    let b = a.clone(&mut heap);
    assert!(Cc::ptr_eq(&a, &b));
    let c = Cc::new(&mut heap, 6);
    assert!(!Cc::ptr_eq(&a, &c));

    // Deltas are deferred: the applied count is still one.
    assert_eq!(a.strong_count(&heap), 1);
    assert!(a.is_unique(&heap));
    assert_eq!(*a.deref(&heap), 5);
    assert_eq!(*c.deref(&heap), 6);
    a.mark_alive();

    assert!(!a.already_finalized(&heap));
    a.finalize_again(&mut heap);
    assert!(!a.already_finalized(&heap));

    // After one cycle the Add from the clone has been applied.
    collect_cycles(&mut heap).unwrap();
    assert_eq!(a.strong_count(&heap), 2);
    assert!(!a.is_unique(&heap));

    b.drop_handle(&mut heap);
    a.drop_handle(&mut heap);
    c.drop_handle(&mut heap);
    collect_and_stop(&mut heap).unwrap();
    assert_eq!(heap.n_acyclic_dropped, 2);
}

#[test]
fn stop_is_idempotent() {
    let mut heap: Heap<u64> = Heap::new();
    let a = Cc::new(&mut heap, 1);
    a.drop_handle(&mut heap);
    collect_and_stop(&mut heap).unwrap();
    let version = heap.collector_version;
    let acyclic = heap.n_acyclic_dropped;
    let cyclic = heap.n_cyclic_dropped;
    collect_and_stop(&mut heap).unwrap();
    assert_eq!(heap.collector_version, version);
    assert_eq!(heap.n_acyclic_dropped, acyclic);
    assert_eq!(heap.n_cyclic_dropped, cyclic);
}

#[test]
fn stop_without_allocations_spawns_nothing() {
    let mut heap: Heap<u64> = Heap::new();
    collect_and_stop(&mut heap).unwrap();
    assert!(!heap.spawned);
    assert_eq!(heap.collector_version, 0);
    assert_eq!(heap.n_acyclic_dropped, 0);
    assert_eq!(heap.n_cyclic_dropped, 0);
}

#[test]
fn snapshot_taken_once_per_cycle() {
    let mut heap: Heap<u64> = Heap::new();
    let a = Cc::new(&mut heap, 7);
    let b = Cc::new(&mut heap, 8);
    let eb = b.clone(&mut heap);
    heap.lock_store(&a, vec![eb]);

    // Outside a cycle a lock publishes nothing.
    let guard = heap.lock(&a);
    assert_eq!(guard, vec![b.idx]);
    assert!(heap.blocks[a.idx].as_ref().unwrap().lm.log_pointer.snapshot.is_none());

    heap.start_collecting();
    let _guard = heap.lock(&a);
    let lp = &heap.blocks[a.idx].as_ref().unwrap().lm.log_pointer;
    assert_eq!(lp.version, heap.collector_version);
    assert_eq!(lp.snapshot.as_deref(), Some(&[b.idx][..]));

    // A write through a later lock in the same cycle leaves the snapshot of
    // the earlier edges in place.
    heap.lock_store(&a, vec![]);
    let lp = &heap.blocks[a.idx].as_ref().unwrap().lm.log_pointer;
    assert_eq!(lp.snapshot.as_deref(), Some(&[b.idx][..]));
    assert!(heap.blocks[a.idx].as_ref().unwrap().lm.edges.is_empty());

    heap.apply_changes().unwrap();
    heap.collect();
    heap.clean_logs();
    // The cleaning phase destroys the published snapshot.
    assert!(heap.blocks[a.idx].as_ref().unwrap().lm.log_pointer.snapshot.is_none());
    heap.finish_collection();

    a.drop_handle(&mut heap);
    b.drop_handle(&mut heap);
    collect_and_stop(&mut heap).unwrap();
}

#[test]
fn try_lock_and_get_mut() {
    let mut heap: Heap<u64> = Heap::new();
    let a = Cc::new(&mut heap, 1);
    let b = Cc::new(&mut heap, 2);
    let eb = b.clone(&mut heap);
    heap.lock_store(&a, vec![eb]);

    let guard = heap.try_lock(&a).unwrap();
    assert_eq!(guard, vec![b.idx]);

    heap.start_collecting();
    let _ = heap.try_lock(&a);
    assert!(heap.blocks[a.idx].as_ref().unwrap().lm.log_pointer.snapshot.is_some());
    // An exclusive borrow clears the snapshot slot.
    heap.get_mut(&a);
    assert!(heap.blocks[a.idx].as_ref().unwrap().lm.log_pointer.snapshot.is_none());
    heap.apply_changes().unwrap();
    heap.collect();
    heap.clean_logs();
    heap.finish_collection();

    a.drop_handle(&mut heap);
    b.drop_handle(&mut heap);
    collect_and_stop(&mut heap).unwrap();
}

#[test]
fn collector_state_machine() {
    let mut heap: Heap<u64> = Heap::new();
    let a = Cc::new(&mut heap, 1);
    assert!(!is_collecting(&heap));
    heap.start_collecting();
    assert!(is_collecting(&heap));
    assert_eq!(heap.collector_state, STATES::COLLECTING);
    heap.apply_changes().unwrap();
    heap.collect();
    heap.clean_logs();
    assert_eq!(heap.collector_state, STATES::CLEANING);
    assert!(!is_collecting(&heap));
    heap.finish_collection();
    assert_eq!(heap.collector_state, STATES::SLEEPING);
    a.drop_handle(&mut heap);
    collect_and_stop(&mut heap).unwrap();
}

#[test]
fn acyclic_garbage_needs_no_tracing() {
    let mut heap: Heap<u64> = Heap::new();
    // One acyclic block and one two-cycle die in the same collection.
    let x = Cc::new(&mut heap, 1);
    x.drop_handle(&mut heap);

    let c1 = Cc::new(&mut heap, 0);
    let c2 = Cc::new(&mut heap, 0);
    let e2 = c2.clone(&mut heap);
    heap.lock_store(&c1, vec![e2]);
    let e1 = c1.clone(&mut heap);
    heap.lock_store(&c2, vec![e1]);
    c1.drop_handle(&mut heap);
    c2.drop_handle(&mut heap);

    collect_and_stop(&mut heap).unwrap();
    assert_eq!(heap.n_acyclic_dropped, 1);
    assert_eq!(heap.n_cyclic_dropped, 2);
}

#[test]
fn collector_side_drops_push_no_deltas() {
    let mut heap: Heap<u64> = Heap::new();
    // parent -> child; the parent dies acyclically. Its edge to the child is
    // released on the collector's side, so no Remove is deferred for it and
    // the child's count keeps the edge's contribution.
    let parent = Cc::new(&mut heap, 0);
    let child = Cc::new(&mut heap, 0);
    let e = child.clone(&mut heap);
    heap.lock_store(&parent, vec![e]);
    let child_idx = child.idx;
    child.drop_handle(&mut heap);
    parent.drop_handle(&mut heap);

    collect_and_stop(&mut heap).unwrap();
    assert_eq!(heap.n_acyclic_dropped, 1);
    assert!(heap.thread_actions.is_empty());
    assert!(heap.blocks[child_idx].is_some());
}

#[test]
fn survivor_is_never_reclaimed() {
    let mut heap: Heap<u64> = Heap::new();
    // A cycle that is still reachable from an external handle survives a
    // collection; once the handle is gone it is reclaimed in full.
    let c1 = Cc::new(&mut heap, 0);
    let c2 = Cc::new(&mut heap, 0);
    let e2 = c2.clone(&mut heap);
    heap.lock_store(&c1, vec![e2]);
    let e1 = c1.clone(&mut heap);
    heap.lock_store(&c2, vec![e1]);
    let external = c1.clone(&mut heap);
    c1.drop_handle(&mut heap);
    c2.drop_handle(&mut heap);

    collect_cycles(&mut heap).unwrap();
    assert_eq!(heap.n_cyclic_dropped, 0);
    assert_eq!(external.strong_count(&heap), 2);

    external.drop_handle(&mut heap);
    collect_and_stop(&mut heap).unwrap();
    assert_eq!(heap.n_cyclic_dropped, 2);
    assert_eq!(heap.n_acyclic_dropped, 0);
}

#[test]
fn balanced_deltas_never_free_a_block() {
    let mut heap: Heap<u64> = Heap::new();
    // A clone and its drop balance out within one cycle. Adds are applied
    // before Removes, so the count dips to one, never to zero.
    let g = Cc::new(&mut heap, 9);
    let c = g.clone(&mut heap);
    c.drop_handle(&mut heap);
    collect_cycles(&mut heap).unwrap();
    assert_eq!(g.strong_count(&heap), 1);
    assert!(heap.blocks[g.idx].is_some());
    assert_eq!(heap.n_acyclic_dropped, 0);
    g.drop_handle(&mut heap);
    collect_and_stop(&mut heap).unwrap();
    assert_eq!(heap.n_acyclic_dropped, 1);
}

#[test]
fn acyclic_on_main_thread() {
    let mut heap: Heap<u64> = Heap::new();
    {
        let value = Cc::new(&mut heap, 4);
        value.drop_handle(&mut heap);
    }
    collect_and_stop(&mut heap).unwrap();
    assert_eq!(heap.n_acyclic_dropped, 1);
    assert_eq!(heap.n_cyclic_dropped, 0);
}
