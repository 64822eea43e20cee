//! The collector state and its cycle.
//!
//! A concurrent runtime keeps this state in process-wide statics owned by a
//! background collector thread; here it is one explicit [`Heap`] value, and
//! one collection cycle is the sequence
//! [`Heap::start_collecting`] → [`Heap::apply_changes`] → [`Heap::collect`] →
//! [`Heap::clean_logs`] → [`Heap::finish_collection`],
//! which the driver loop around the crate runs whenever it is signalled.
//! [`collect_cycles`] runs one whole cycle; [`collect_and_stop`] additionally
//! retires the collector.

use vstd::prelude::*;

use crate::cc::{ActionEntry, CcBox};
use crate::counter_marker::{CounterError, CounterMarker, Mark, MAX_COUNTER};
use crate::list::count_true;
use vstd::pervasive::VecAdditionalExecFns;

verus! {

/// The collector's phase, published to mutators.
#[allow(non_camel_case_types)]
#[derive(Clone, Copy, Debug, PartialEq, Eq, Structural)]
pub enum STATES {
    SLEEPING,
    COLLECTING,
    CLEANING,
}

/// The whole process-wide state of the collector: the arena of control
/// blocks, the deferred-action inbox, the collector's phase and version, the
/// candidate list, the snapshot registry, and the observability counters.
pub struct Heap<T> {
    /// The arena. A block keeps its index for its whole life; a reclaimed
    /// block leaves a `None` slot behind and indices are never reused.
    pub blocks: Vec<Option<CcBox<T>>>,
    /// The mutation inbox: deferred count deltas pushed by mutators.
    pub thread_actions: Vec<ActionEntry>,
    /// The phase of the collector.
    pub collector_state: STATES,
    /// Bumped once at the start of every collection cycle.
    pub collector_version: u64,
    /// Candidate roots for cycle collection; the head is the vector's end.
    pub possible_cycles: Vec<usize>,
    /// The snapshot registry: blocks whose logged mutex published a snapshot
    /// this cycle.
    pub logs: Vec<usize>,
    /// Set by `collect_and_stop`; the driver loop exits at the cycle boundary.
    pub stop: bool,
    /// Whether the collector was ever started (the once-cell is filled).
    pub spawned: bool,
    /// Whether the collector is still there to join (the handle slot is
    /// occupied).
    pub running: bool,
    /// Blocks reclaimed because their count reached zero.
    pub n_acyclic_dropped: u64,
    /// Blocks reclaimed by trial deletion.
    pub n_cyclic_dropped: u64,
}

/// Pointwise: which slots are free.
pub open spec fn none_seq<T>(s: Seq<Option<CcBox<T>>>) -> Seq<bool> {
    Seq::new(s.len(), |i: int| s[i] is None)
}

/// Pointwise: which slots hold a block marked `Traced`.
pub open spec fn traced_seq<T>(s: Seq<Option<CcBox<T>>>) -> Seq<bool> {
    Seq::new(s.len(), |i: int| s[i] is Some && (s[i]->Some_0).counter_marker.mark_spec() == Mark::Traced)
}

/// Pointwise: which slots hold a block.
pub open spec fn live_seq<T>(s: Seq<Option<CcBox<T>>>) -> Seq<bool> {
    Seq::new(s.len(), |i: int| s[i] is Some)
}

impl<T> Heap<T> {
    /// Number of slots ever allocated.
    pub open spec fn n_blocks(self) -> int {
        self.blocks@.len() as int
    }

    /// `i` names a slot.
    pub open spec fn valid(self, i: int) -> bool {
        0 <= i < self.n_blocks()
    }

    /// `i` names a slot that still holds a block.
    pub open spec fn live(self, i: int) -> bool {
        self.valid(i) && self.blocks@[i] is Some
    }

    /// The block in slot `i`.
    pub open spec fn block(self, i: int) -> CcBox<T>
        recommends
            self.live(i),
    {
        self.blocks@[i]->Some_0
    }

    /// The strong count of block `i`.
    pub open spec fn counter(self, i: int) -> u64 {
        self.block(i).counter_marker.counter_spec()
    }

    /// The tracing count of block `i`.
    pub open spec fn tracing(self, i: int) -> u64 {
        self.block(i).counter_marker.tracing_spec()
    }

    /// The mark of block `i`.
    pub open spec fn mark_of(self, i: int) -> Mark {
        self.block(i).counter_marker.mark_spec()
    }

    /// Whether block `i` was already finalized.
    pub open spec fn finalized(self, i: int) -> bool {
        self.block(i).counter_marker.finalized_spec()
    }

    /// The live outgoing edges of block `i`.
    pub open spec fn edges_of(self, i: int) -> Seq<usize> {
        self.block(i).lm.edges@
    }

    /// The version recorded in block `i`'s log pointer.
    pub open spec fn log_version(self, i: int) -> u64 {
        self.block(i).lm.log_pointer.version
    }

    /// Whether block `i` currently publishes an edge snapshot.
    pub open spec fn has_snapshot(self, i: int) -> bool {
        self.block(i).lm.log_pointer.snapshot is Some
    }

    /// The published snapshot of block `i`.
    pub open spec fn snapshot(self, i: int) -> Seq<usize>
        recommends
            self.live(i) && self.has_snapshot(i),
    {
        self.block(i).lm.log_pointer.snapshot->Some_0@
    }

    /// Everything but the arena and the candidate list is as in `other`.
    pub open spec fn same_admin_except_pc(self, other: Heap<T>) -> bool {
        &&& self.thread_actions@ == other.thread_actions@
        &&& self.collector_state == other.collector_state
        &&& self.collector_version == other.collector_version
        &&& self.logs@ == other.logs@
        &&& self.stop == other.stop
        &&& self.spawned == other.spawned
        &&& self.running == other.running
        &&& self.n_acyclic_dropped == other.n_acyclic_dropped
        &&& self.n_cyclic_dropped == other.n_cyclic_dropped
    }

    /// Everything but the arena is as in `other`.
    pub open spec fn same_admin(self, other: Heap<T>) -> bool {
        &&& self.same_admin_except_pc(other)
        &&& self.possible_cycles@ == other.possible_cycles@
    }

    /// Every entry of `possible_cycles` names a live block marked
    /// `PossibleCycles`, and no block is listed twice.
    pub open spec fn pc_entries_ok(self) -> bool {
        &&& self.possible_cycles@.no_duplicates()
        &&& forall|k: int|
            0 <= k < self.possible_cycles@.len() ==> self.live(
                #[trigger] self.possible_cycles@[k] as int,
            ) && self.mark_of(self.possible_cycles@[k] as int) == Mark::PossibleCycles
    }

    /// Every live block marked `PossibleCycles` is in the list: together with
    /// `pc_entries_ok` this is the mark/list agreement invariant.
    pub open spec fn pc_complete(self) -> bool {
        forall|i: int|
            #![trigger self.mark_of(i)]
            self.live(i) && self.mark_of(i) == Mark::PossibleCycles
                ==> self.possible_cycles@.contains(i as usize)
    }

    /// Every live block has a strong count of at least one, and a tracing
    /// count no larger than its strong count.
    pub open spec fn counters_ok(self) -> bool {
        forall|i: int|
            #[trigger] self.live(i) ==> 1 <= self.counter(i) && self.tracing(i) <= self.counter(i)
    }

    /// Between cycles no live block carries a tracing mark.
    pub open spec fn marks_ok(self) -> bool {
        forall|i: int|
            #![trigger self.mark_of(i)]
            self.live(i) ==> (self.mark_of(i) == Mark::NonMarked || self.mark_of(i)
                == Mark::PossibleCycles)
    }

    /// The two reclamation counters account exactly for the freed slots.
    pub open spec fn accounting_ok(self) -> bool {
        self.n_acyclic_dropped + self.n_cyclic_dropped == count_true(none_seq(self.blocks@))
    }

    /// Every live snapshot is registered, so the cleaning phase finds it.
    pub open spec fn logged_ok(self) -> bool {
        forall|i: int|
            #![trigger self.has_snapshot(i)]
            self.live(i) && self.has_snapshot(i) ==> self.logs@.contains(i as usize)
    }

    /// Well-formedness at the public boundary.
    pub open spec fn wf(self) -> bool {
        &&& self.pc_entries_ok()
        &&& self.pc_complete()
        &&& self.counters_ok()
        &&& self.marks_ok()
        &&& self.accounting_ok()
        &&& self.logged_ok()
    }

    /// A fresh process: no blocks, no deferred actions, collector asleep and
    /// not yet started.
    pub fn new() -> (heap: Heap<T>)
        ensures
            heap.wf(),
            heap.n_blocks() == 0,
            heap.thread_actions@.len() == 0,
            heap.collector_state == STATES::SLEEPING,
            heap.collector_version == 0,
            heap.possible_cycles@.len() == 0,
            heap.logs@.len() == 0,
            !heap.stop,
            !heap.spawned,
            !heap.running,
            heap.n_acyclic_dropped == 0,
            heap.n_cyclic_dropped == 0,
    {
        let heap = Heap {
            blocks: Vec::new(),
            thread_actions: Vec::new(),
            collector_state: STATES::SLEEPING,
            collector_version: 0,
            possible_cycles: Vec::new(),
            logs: Vec::new(),
            stop: false,
            spawned: false,
            running: false,
            n_acyclic_dropped: 0,
            n_cyclic_dropped: 0,
        };
        proof {
            assert(none_seq(heap.blocks@).len() == 0);
        }
        heap
    }

    /// Whether slot `i` still holds a block.
    pub fn is_live(&self, i: usize) -> (r: bool)
        ensures
            r == self.live(i as int),
    {
        i < self.blocks.len() && self.blocks[i].is_some()
    }

    /// Read block `i`'s counter/mark word.
    pub(crate) fn cm_of(&self, i: usize) -> (cm: CounterMarker)
        requires
            self.live(i as int),
        ensures
            cm == self.block(i as int).counter_marker,
    {
        match &self.blocks[i] {
            Some(b) => b.counter_marker,
            None => vstd::pervasive::unreached(),
        }
    }

    /// Overwrite block `i`'s counter/mark word.
    pub(crate) fn set_cm(&mut self, i: usize, cm: CounterMarker)
        requires
            old(self).live(i as int),
        ensures
            final(self).blocks@ == old(self).blocks@.update(
                i as int,
                Some(
                    (CcBox {
                        counter_marker: cm,
                        lm: old(self).block(i as int).lm,
                        elem: old(self).block(i as int).elem,
                    }),
                ),
            ),
            final(self).same_admin(*old(self)),
            none_seq(final(self).blocks@) == none_seq(old(self).blocks@),
            live_seq(final(self).blocks@) == live_seq(old(self).blocks@),
            traced_seq(final(self).blocks@) == traced_seq(old(self).blocks@).update(
                i as int,
                cm.mark_spec() == Mark::Traced,
            ),
    {
        let blk = &mut self.blocks[i];
        match blk {
            Some(b) => {
                b.counter_marker = cm;
            },
            None => {},
        }
        proof {
            assert(none_seq(self.blocks@) =~= none_seq(old(self).blocks@));
            assert(live_seq(self.blocks@) =~= live_seq(old(self).blocks@));
            assert(traced_seq(self.blocks@) =~= traced_seq(old(self).blocks@).update(
                i as int,
                cm.mark_spec() == Mark::Traced,
            ));
        }
    }

    /// Replace block `i`'s live edge list.
    pub(crate) fn set_edges(&mut self, i: usize, edges: Vec<usize>)
        requires
            old(self).live(i as int),
        ensures
            final(self).blocks@ == old(self).blocks@.update(
                i as int,
                Some(
                    (CcBox {
                        counter_marker: old(self).block(i as int).counter_marker,
                        lm: (crate::log_pointer::LoggedMutex {
                            log_pointer: old(self).block(i as int).lm.log_pointer,
                            edges,
                        }),
                        elem: old(self).block(i as int).elem,
                    }),
                ),
            ),
            final(self).same_admin(*old(self)),
            none_seq(final(self).blocks@) == none_seq(old(self).blocks@),
            live_seq(final(self).blocks@) == live_seq(old(self).blocks@),
            traced_seq(final(self).blocks@) == traced_seq(old(self).blocks@),
    {
        let blk = &mut self.blocks[i];
        match blk {
            Some(b) => {
                b.lm.edges = edges;
            },
            None => {},
        }
        proof {
            assert(none_seq(self.blocks@) =~= none_seq(old(self).blocks@));
            assert(live_seq(self.blocks@) =~= live_seq(old(self).blocks@));
            assert(traced_seq(self.blocks@) =~= traced_seq(old(self).blocks@));
        }
    }

    /// Replace block `i`'s log pointer.
    pub(crate) fn set_log(&mut self, i: usize, lp: crate::log_pointer::LogPointer)
        requires
            old(self).live(i as int),
        ensures
            final(self).blocks@ == old(self).blocks@.update(
                i as int,
                Some(
                    (CcBox {
                        counter_marker: old(self).block(i as int).counter_marker,
                        lm: (crate::log_pointer::LoggedMutex {
                            log_pointer: lp,
                            edges: old(self).block(i as int).lm.edges,
                        }),
                        elem: old(self).block(i as int).elem,
                    }),
                ),
            ),
            final(self).same_admin(*old(self)),
            none_seq(final(self).blocks@) == none_seq(old(self).blocks@),
            live_seq(final(self).blocks@) == live_seq(old(self).blocks@),
            traced_seq(final(self).blocks@) == traced_seq(old(self).blocks@),
    {
        let blk = &mut self.blocks[i];
        match blk {
            Some(b) => {
                b.lm.log_pointer = lp;
            },
            None => {},
        }
        proof {
            assert(none_seq(self.blocks@) =~= none_seq(old(self).blocks@));
            assert(live_seq(self.blocks@) =~= live_seq(old(self).blocks@));
            assert(traced_seq(self.blocks@) =~= traced_seq(old(self).blocks@));
        }
    }

    /// Free slot `i`: the block and its value are dropped in place.
    pub(crate) fn free_slot(&mut self, i: usize)
        requires
            old(self).live(i as int),
        ensures
            final(self).blocks@ == old(self).blocks@.update(i as int, None),
            final(self).same_admin(*old(self)),
            none_seq(final(self).blocks@) == none_seq(old(self).blocks@).update(i as int, true),
            live_seq(final(self).blocks@) == live_seq(old(self).blocks@).update(i as int, false),
            traced_seq(final(self).blocks@) == traced_seq(old(self).blocks@).update(
                i as int,
                false,
            ),
    {
        self.blocks.set(i, None);
        proof {
            assert(none_seq(self.blocks@) =~= none_seq(old(self).blocks@).update(i as int, true));
            assert(live_seq(self.blocks@) =~= live_seq(old(self).blocks@).update(i as int, false));
            assert(traced_seq(self.blocks@) =~= traced_seq(old(self).blocks@).update(
                i as int,
                false,
            ));
        }
    }

    /// Append a fresh block to the arena.
    pub(crate) fn alloc_block(&mut self, b: CcBox<T>) -> (i: usize)
        ensures
            i == old(self).n_blocks(),
            final(self).blocks@ == old(self).blocks@.push(Some(b)),
            final(self).same_admin(*old(self)),
            none_seq(final(self).blocks@) == none_seq(old(self).blocks@).push(false),
            live_seq(final(self).blocks@) == live_seq(old(self).blocks@).push(true),
            traced_seq(final(self).blocks@) == traced_seq(old(self).blocks@).push(
                b.counter_marker.mark_spec() == Mark::Traced,
            ),
    {
        let i = self.blocks.len();
        self.blocks.push(Some(b));
        proof {
            assert(none_seq(self.blocks@) =~= none_seq(old(self).blocks@).push(false));
            assert(live_seq(self.blocks@) =~= live_seq(old(self).blocks@).push(true));
            assert(traced_seq(self.blocks@) =~= traced_seq(old(self).blocks@).push(
                b.counter_marker.mark_spec() == Mark::Traced,
            ));
        }
        i
    }
}

/// Well-formedness survives a change that leaves the arena, the candidate
/// list, the registry and the two reclamation counters alone.
pub proof fn lemma_wf_same_blocks<T>(pre: Heap<T>, post: Heap<T>)
    requires
        pre.wf(),
        post.blocks@ == pre.blocks@,
        post.possible_cycles@ == pre.possible_cycles@,
        post.logs@ == pre.logs@ || (forall|i: int|
            #![trigger pre.has_snapshot(i)]
            pre.live(i) ==> !pre.has_snapshot(i)),
        post.n_acyclic_dropped == pre.n_acyclic_dropped,
        post.n_cyclic_dropped == pre.n_cyclic_dropped,
    ensures
        post.wf(),
{
    assert forall|k: int|
        0 <= k < post.possible_cycles@.len() implies post.live(
        #[trigger] post.possible_cycles@[k] as int,
    ) && post.mark_of(post.possible_cycles@[k] as int) == Mark::PossibleCycles by {
        let e = post.possible_cycles@[k] as int;
        assert(pre.live(e) && pre.mark_of(e) == Mark::PossibleCycles);
    }
    assert forall|j: int|
        #![trigger post.mark_of(j)]
        post.live(j) implies (post.mark_of(j) == Mark::NonMarked || post.mark_of(j)
        == Mark::PossibleCycles) && (post.mark_of(j) == Mark::PossibleCycles
        ==> post.possible_cycles@.contains(j as usize)) by {
        assert(pre.live(j));
        assert(post.mark_of(j) == pre.mark_of(j));
    }
    assert forall|j: int| #[trigger] post.live(j) implies 1 <= post.counter(j) && post.tracing(j)
        <= post.counter(j) by {
        assert(pre.live(j));
        assert(post.counter(j) == pre.counter(j) && post.tracing(j) == pre.tracing(j));
    }
    assert forall|j: int|
        #![trigger post.has_snapshot(j)]
        post.live(j) && post.has_snapshot(j) implies post.logs@.contains(j as usize) by {
        assert(pre.live(j));
        assert(post.has_snapshot(j) == pre.has_snapshot(j));
        assert(pre.has_snapshot(j));
        assert(post.logs@ == pre.logs@);
        assert(pre.logs@.contains(j as usize));
        let k = choose|k: int| 0 <= k < pre.logs@.len() && pre.logs@[k] == j as usize;
        assert(post.logs@[k] == j as usize);
    }
}

/// Well-formedness survives editing one live block in place, provided the
/// edit keeps the counter at least one and the tracing count below it, does
/// not move the mark, and creates no snapshot.
pub proof fn lemma_wf_one_block_edit<T>(pre: Heap<T>, post: Heap<T>, i: int)
    requires
        pre.wf(),
        pre.live(i),
        post.live(i),
        post.n_blocks() == pre.n_blocks(),
        post.same_admin(pre),
        forall|j: int| 0 <= j < pre.n_blocks() && j != i ==> (#[trigger] post.blocks@[j])
            == pre.blocks@[j],
        1 <= post.counter(i),
        post.tracing(i) <= post.counter(i),
        post.mark_of(i) == pre.mark_of(i),
        post.has_snapshot(i) ==> pre.has_snapshot(i),
    ensures
        post.wf(),
{
    assert forall|j: int| 0 <= j < post.blocks@.len() implies none_seq(post.blocks@)[j] == none_seq(
        pre.blocks@,
    )[j] by {
        if j != i {
            assert(post.blocks@[j] == pre.blocks@[j]);
        }
    }
    assert(none_seq(post.blocks@) =~= none_seq(pre.blocks@));
    assert forall|k: int|
        0 <= k < post.possible_cycles@.len() implies post.live(
        #[trigger] post.possible_cycles@[k] as int,
    ) && post.mark_of(post.possible_cycles@[k] as int) == Mark::PossibleCycles by {
        let e = post.possible_cycles@[k] as int;
        assert(pre.live(e) && pre.mark_of(e) == Mark::PossibleCycles);
        if e != i {
            assert(post.blocks@[e] == pre.blocks@[e]);
        }
    }
    assert forall|j: int|
        #![trigger post.mark_of(j)]
        post.live(j) implies (post.mark_of(j) == Mark::NonMarked || post.mark_of(j)
        == Mark::PossibleCycles) && (post.mark_of(j) == Mark::PossibleCycles
        ==> post.possible_cycles@.contains(j as usize)) by {
        if j != i {
            assert(post.blocks@[j] == pre.blocks@[j]);
            assert(pre.live(j));
            assert(pre.mark_of(j) == post.mark_of(j));
        } else {
            assert(pre.live(i));
            assert(pre.mark_of(i) == post.mark_of(i));
        }
    }
    assert forall|j: int| #[trigger] post.live(j) implies 1 <= post.counter(j) && post.tracing(j)
        <= post.counter(j) by {
        if j != i {
            assert(post.blocks@[j] == pre.blocks@[j]);
            assert(pre.live(j));
        }
    }
    assert forall|j: int|
        #![trigger post.has_snapshot(j)]
        post.live(j) && post.has_snapshot(j) implies post.logs@.contains(j as usize) by {
        if j != i {
            assert(post.blocks@[j] == pre.blocks@[j]);
            assert(pre.live(j));
            assert(pre.has_snapshot(j));
        } else {
            assert(pre.live(i) && pre.has_snapshot(i));
        }
        assert(pre.logs@.contains(j as usize));
        let k = choose|k: int| 0 <= k < pre.logs@.len() && pre.logs@[k] == j as usize;
        assert(post.logs@[k] == j as usize);
    }
}

/// Whether the collector is in its `COLLECTING` phase.
pub fn is_collecting<T>(heap: &Heap<T>) -> (r: bool)
    ensures
        r == (heap.collector_state == STATES::COLLECTING),
{
    match heap.collector_state {
        STATES::COLLECTING => true,
        _ => false,
    }
}

/// Start the collector if it was never started. Once it has been stopped it
/// is not restarted: the once-cell stays filled and the handle slot empty.
pub fn init_collector<T>(heap: &mut Heap<T>)
    requires
        old(heap).wf(),
    ensures
        final(heap).wf(),
        final(heap).spawned,
        old(heap).spawned ==> *final(heap) == *old(heap),
        !old(heap).spawned ==> *final(heap) == (Heap {
            spawned: true,
            running: true,
            ..*old(heap)
        }),
{
    if !heap.spawned {
        heap.spawned = true;
        heap.running = true;
    }
    proof {
        lemma_wf_same_blocks(*old(heap), *heap);
    }
}


impl<T> Heap<T> {
    /// The arena is a vector, so its spec-level length fits in `usize`.
    pub proof fn lemma_len_bound(self)
        ensures
            self.blocks@.len() <= usize::MAX,
    {
        vstd::std_specs::vec::axiom_spec_len(&self.blocks);
    }

    /// Unlink `ptr` from `possible_cycles` if its mark says it is there, and
    /// clear the mark; a no-op otherwise. Mark and list stay in agreement.
    pub(crate) fn remove_from_list(&mut self, ptr: usize)
        requires
            old(self).live(ptr as int),
            old(self).pc_entries_ok(),
            old(self).pc_complete(),
        ensures
            final(self).pc_entries_ok(),
            final(self).pc_complete(),
            forall|y: usize| #[trigger] final(self).possible_cycles@.contains(y) <==> (old(self).possible_cycles@.contains(y) && y != ptr),
            final(self).possible_cycles@.len() <= old(self).possible_cycles@.len(),
            old(self).mark_of(ptr as int) == Mark::PossibleCycles ==> final(self).mark_of(
                ptr as int,
            ) == Mark::NonMarked,
            old(self).mark_of(ptr as int) != Mark::PossibleCycles ==> *final(self) == *old(self),
            final(self).n_blocks() == old(self).n_blocks(),
            forall|j: int|
                0 <= j < old(self).n_blocks() && j != ptr ==> (#[trigger] final(self).blocks@[j])
                    == old(self).blocks@[j],
            final(self).live(ptr as int),
            final(self).counter(ptr as int) == old(self).counter(ptr as int),
            final(self).tracing(ptr as int) == old(self).tracing(ptr as int),
            final(self).finalized(ptr as int) == old(self).finalized(ptr as int),
            final(self).mark_of(ptr as int) == Mark::NonMarked || final(self).mark_of(ptr as int)
                == old(self).mark_of(ptr as int),
            final(self).block(ptr as int).lm == old(self).block(ptr as int).lm,
            final(self).block(ptr as int).elem == old(self).block(ptr as int).elem,
            final(self).same_admin_except_pc(*old(self)),
            none_seq(final(self).blocks@) == none_seq(old(self).blocks@),
            live_seq(final(self).blocks@) == live_seq(old(self).blocks@),
            traced_seq(final(self).blocks@) == traced_seq(old(self).blocks@),
    {
        let cm0 = self.cm_of(ptr);
        if cm0.is_in_possible_cycles() {
            let mut cm = cm0;
            cm.mark(Mark::NonMarked);
            self.set_cm(ptr, cm);
            let ghost mid = *self;
            crate::list::list_remove(&mut self.possible_cycles, ptr);
            proof {
                let pre = *old(self);
                let post = *self;
                assert(traced_seq(post.blocks@) =~= traced_seq(pre.blocks@));
                assert forall|k: int|
                    0 <= k < post.possible_cycles@.len() implies post.live(
                    #[trigger] post.possible_cycles@[k] as int,
                ) && post.mark_of(post.possible_cycles@[k] as int) == Mark::PossibleCycles by {
                    let y = post.possible_cycles@[k];
                    assert(post.possible_cycles@.contains(y));
                    assert(pre.possible_cycles@.contains(y) && y != ptr);
                    let k0 = choose|k0: int|
                        0 <= k0 < pre.possible_cycles@.len() && pre.possible_cycles@[k0] == y;
                    assert(pre.live(y as int) && pre.mark_of(y as int) == Mark::PossibleCycles);
                    assert(post.blocks@[y as int] == pre.blocks@[y as int]);
                }
                assert(post.mark_of(ptr as int) == Mark::NonMarked);
                assert forall|i: int|
                    #![trigger post.mark_of(i)]
                    post.live(i) && post.mark_of(i) == Mark::PossibleCycles implies post.possible_cycles@.contains(
                    i as usize,
                ) by {
                    post.lemma_len_bound();
                    assert(0 <= i < post.n_blocks());
                    assert(i != ptr);
                    assert(i as usize != ptr);
                    assert(post.blocks@[i] == pre.blocks@[i]);
                    assert(pre.live(i) && pre.mark_of(i) == Mark::PossibleCycles);
                    assert(pre.possible_cycles@.contains(i as usize));
                    assert(mid.possible_cycles@.contains(i as usize));
                }
            }
        } else {
            proof {
                let pre = *old(self);
                if pre.possible_cycles@.contains(ptr) {
                    let k0 = choose|k0: int|
                        0 <= k0 < pre.possible_cycles@.len() && pre.possible_cycles@[k0] == ptr;
                    assert(pre.mark_of(pre.possible_cycles@[k0] as int) == Mark::PossibleCycles);
                }
                assert forall|y: usize| #[trigger] self.possible_cycles@.contains(y) implies (
                pre.possible_cycles@.contains(y) && y != ptr) by {}
            }
        }
    }

    /// Move `ptr` to the head of `possible_cycles`, marking it
    /// `PossibleCycles` if it was unmarked.
    pub(crate) fn add_to_list(&mut self, ptr: usize)
        requires
            old(self).live(ptr as int),
            old(self).pc_entries_ok(),
            old(self).pc_complete(),
            old(self).mark_of(ptr as int) == Mark::NonMarked || old(self).mark_of(ptr as int)
                == Mark::PossibleCycles,
        ensures
            final(self).pc_entries_ok(),
            final(self).pc_complete(),
            final(self).mark_of(ptr as int) == Mark::PossibleCycles,
            forall|y: usize| #[trigger] final(self).possible_cycles@.contains(y) <==> (old(self).possible_cycles@.contains(y) || y == ptr),
            final(self).possible_cycles@.last() == ptr,
            final(self).n_blocks() == old(self).n_blocks(),
            forall|j: int|
                0 <= j < old(self).n_blocks() && j != ptr ==> (#[trigger] final(self).blocks@[j])
                    == old(self).blocks@[j],
            final(self).live(ptr as int),
            final(self).counter(ptr as int) == old(self).counter(ptr as int),
            final(self).tracing(ptr as int) == old(self).tracing(ptr as int),
            final(self).finalized(ptr as int) == old(self).finalized(ptr as int),
            final(self).block(ptr as int).lm == old(self).block(ptr as int).lm,
            final(self).block(ptr as int).elem == old(self).block(ptr as int).elem,
            final(self).same_admin_except_pc(*old(self)),
            none_seq(final(self).blocks@) == none_seq(old(self).blocks@),
            live_seq(final(self).blocks@) == live_seq(old(self).blocks@),
            traced_seq(final(self).blocks@) == traced_seq(old(self).blocks@),
    {
        let cm0 = self.cm_of(ptr);
        if cm0.is_in_possible_cycles() {
            crate::list::list_remove(&mut self.possible_cycles, ptr);
        } else {
            let mut cm = cm0;
            cm.mark(Mark::PossibleCycles);
            self.set_cm(ptr, cm);
            proof {
                let pre = *old(self);
                assert(traced_seq(self.blocks@) =~= traced_seq(pre.blocks@));
                if pre.possible_cycles@.contains(ptr) {
                    let k0 = choose|k0: int|
                        0 <= k0 < pre.possible_cycles@.len() && pre.possible_cycles@[k0] == ptr;
                    assert(pre.mark_of(pre.possible_cycles@[k0] as int) == Mark::PossibleCycles);
                    assert(false);
                }
            }
        }
        let ghost mid = *self;
        self.possible_cycles.push(ptr);
        proof {
            let pre = *old(self);
            let post = *self;
            assert forall|y: usize| #[trigger] post.possible_cycles@.contains(y) implies (
            pre.possible_cycles@.contains(y) || y == ptr) by {
                let k = choose|k: int|
                    0 <= k < post.possible_cycles@.len() && post.possible_cycles@[k] == y;
                if k < post.possible_cycles@.len() - 1 {
                    assert(mid.possible_cycles@[k] == y);
                    assert(mid.possible_cycles@.contains(y));
                }
            }
            assert forall|y: usize|
                pre.possible_cycles@.contains(y) || y == ptr implies #[trigger] post.possible_cycles@.contains(
                y,
            ) by {
                if y == ptr {
                    assert(post.possible_cycles@.last() == ptr);
                } else {
                    assert(mid.possible_cycles@.contains(y));
                    let k = choose|k: int|
                        0 <= k < mid.possible_cycles@.len() && mid.possible_cycles@[k] == y;
                    assert(post.possible_cycles@[k] == y);
                }
            }
            assert forall|a: int, b: int|
                0 <= a < post.possible_cycles@.len() && 0 <= b < post.possible_cycles@.len() && a
                    != b implies post.possible_cycles@[a] != post.possible_cycles@[b] by {
                let last = post.possible_cycles@.len() - 1;
                if a < last && b < last {
                    assert(mid.possible_cycles@[a] == post.possible_cycles@[a]);
                    assert(mid.possible_cycles@[b] == post.possible_cycles@[b]);
                } else if a == last {
                    assert(mid.possible_cycles@[b] == post.possible_cycles@[b]);
                    assert(!mid.possible_cycles@.contains(ptr));
                    assert(mid.possible_cycles@.contains(mid.possible_cycles@[b]));
                } else {
                    assert(mid.possible_cycles@[a] == post.possible_cycles@[a]);
                    assert(!mid.possible_cycles@.contains(ptr));
                    assert(mid.possible_cycles@.contains(mid.possible_cycles@[a]));
                }
            }
            assert forall|k: int|
                0 <= k < post.possible_cycles@.len() implies post.live(
                #[trigger] post.possible_cycles@[k] as int,
            ) && post.mark_of(post.possible_cycles@[k] as int) == Mark::PossibleCycles by {
                let y = post.possible_cycles@[k];
                if k < post.possible_cycles@.len() - 1 {
                    assert(mid.possible_cycles@[k] == y);
                    assert(mid.possible_cycles@.contains(y));
                    assert(pre.possible_cycles@.contains(y));
                    let k0 = choose|k0: int|
                        0 <= k0 < pre.possible_cycles@.len() && pre.possible_cycles@[k0] == y;
                    assert(pre.live(y as int) && pre.mark_of(y as int) == Mark::PossibleCycles);
                    if y != ptr {
                        assert(post.blocks@[y as int] == pre.blocks@[y as int]);
                    }
                }
            }
            assert forall|i: int|
                #![trigger post.mark_of(i)]
                post.live(i) && post.mark_of(i) == Mark::PossibleCycles implies post.possible_cycles@.contains(
                i as usize,
            ) by {
                if i != ptr {
                    assert(post.blocks@[i] == pre.blocks@[i]);
                    assert(pre.live(i) && pre.mark_of(i) == Mark::PossibleCycles);
                    assert(pre.possible_cycles@.contains(i as usize));
                } else {
                    assert(post.possible_cycles@.last() == ptr);
                }
            }
        }
    }

    /// Reclaim one block whose applied count reached zero: unlink it from
    /// `possible_cycles`, drop its value in place and free the slot. Run on
    /// the collector's side, so no deltas are pushed for the edges it held.
    pub(crate) fn drop_elem(&mut self, element: usize)
        requires
            old(self).live(element as int),
            old(self).pc_entries_ok(),
            old(self).pc_complete(),
        ensures
            final(self).pc_entries_ok(),
            final(self).pc_complete(),
            !final(self).live(element as int),
            final(self).n_blocks() == old(self).n_blocks(),
            forall|j: int|
                0 <= j < old(self).n_blocks() && j != element ==> (#[trigger] final(self).blocks@[j]) == old(self).blocks@[j],
            forall|y: usize| #[trigger] final(self).possible_cycles@.contains(y) <==> (old(self).possible_cycles@.contains(y) && y != element),
            final(self).possible_cycles@.len() <= old(self).possible_cycles@.len(),
            final(self).same_admin_except_pc(*old(self)),
            none_seq(final(self).blocks@) == none_seq(old(self).blocks@).update(
                element as int,
                true,
            ),
            live_seq(final(self).blocks@) == live_seq(old(self).blocks@).update(
                element as int,
                false,
            ),
            traced_seq(final(self).blocks@) == traced_seq(old(self).blocks@).update(
                element as int,
                false,
            ),
    {
        self.remove_from_list(element);
        let ghost mid = *self;
        self.free_slot(element);
        proof {
            let pre = *old(self);
            let post = *self;
            assert(none_seq(post.blocks@) =~= none_seq(pre.blocks@).update(element as int, true));
            assert(live_seq(post.blocks@) =~= live_seq(pre.blocks@).update(element as int, false));
            assert(traced_seq(post.blocks@) =~= traced_seq(pre.blocks@).update(
                element as int,
                false,
            ));
            assert forall|k: int|
                0 <= k < post.possible_cycles@.len() implies post.live(
                #[trigger] post.possible_cycles@[k] as int,
            ) && post.mark_of(post.possible_cycles@[k] as int) == Mark::PossibleCycles by {
                let y = post.possible_cycles@[k];
                assert(mid.possible_cycles@[k] == y);
                assert(mid.possible_cycles@.contains(y));
                assert(y != element);
                let k0 = choose|k0: int|
                    0 <= k0 < mid.possible_cycles@.len() && mid.possible_cycles@[k0] == y;
                assert(mid.live(y as int) && mid.mark_of(y as int) == Mark::PossibleCycles);
                assert(post.blocks@[y as int] == mid.blocks@[y as int]);
            }
            assert forall|i: int|
                #![trigger post.mark_of(i)]
                post.live(i) && post.mark_of(i) == Mark::PossibleCycles implies post.possible_cycles@.contains(
                i as usize,
            ) by {
                assert(i != element);
                assert(post.blocks@[i] == mid.blocks@[i]);
                assert(mid.live(i) && mid.mark_of(i) == Mark::PossibleCycles);
                assert(mid.possible_cycles@.contains(i as usize));
            }
        }
    }

    /// Enter the `COLLECTING` phase and open a new cycle: the version moves
    /// up by one and never back.
    pub fn start_collecting(&mut self)
        requires
            old(self).wf(),
            old(self).collector_state == STATES::SLEEPING,
            old(self).collector_version < u64::MAX,
        ensures
            final(self).wf(),
            final(self).collector_state == STATES::COLLECTING,
            final(self).collector_version == old(self).collector_version + 1,
            final(self).blocks@ == old(self).blocks@,
            final(self).thread_actions@ == old(self).thread_actions@,
            final(self).possible_cycles@ == old(self).possible_cycles@,
            final(self).logs@ == old(self).logs@,
            final(self).stop == old(self).stop,
            final(self).spawned == old(self).spawned,
            final(self).running == old(self).running,
            final(self).n_acyclic_dropped == old(self).n_acyclic_dropped,
            final(self).n_cyclic_dropped == old(self).n_cyclic_dropped,
    {
        self.collector_state = STATES::COLLECTING;
        self.collector_version = self.collector_version + 1;
        proof {
            lemma_wf_same_blocks(*old(self), *self);
        }
    }

    /// Enter the `CLEANING` phase: walk the snapshot registry, clear every
    /// published snapshot, and empty the registry.
    pub fn clean_logs(&mut self)
        requires
            old(self).wf(),
            old(self).collector_state == STATES::COLLECTING,
        ensures
            final(self).wf(),
            final(self).collector_state == STATES::CLEANING,
            final(self).logs@.len() == 0,
            forall|i: int| #[trigger] final(self).live(i) ==> !final(self).has_snapshot(i),
            final(self).n_blocks() == old(self).n_blocks(),
            forall|i: int| final(self).live(i) == old(self).live(i),
            forall|i: int|
                #[trigger] old(self).live(i) ==> final(self).counter(i) == old(self).counter(i)
                    && final(self).tracing(i) == old(self).tracing(i) && final(self).mark_of(i)
                    == old(self).mark_of(i) && final(self).finalized(i) == old(self).finalized(i)
                    && final(self).edges_of(i) == old(self).edges_of(i) && final(self).block(
                    i,
                ).elem == old(self).block(i).elem,
            final(self).thread_actions@ == old(self).thread_actions@,
            final(self).collector_version == old(self).collector_version,
            final(self).possible_cycles@ == old(self).possible_cycles@,
            final(self).stop == old(self).stop,
            final(self).spawned == old(self).spawned,
            final(self).running == old(self).running,
            final(self).n_acyclic_dropped == old(self).n_acyclic_dropped,
            final(self).n_cyclic_dropped == old(self).n_cyclic_dropped,
    {
        self.collector_state = STATES::CLEANING;
        proof {
            lemma_wf_same_blocks(*old(self), *self);
        }
        let ghost pre = *self;
        proof {
            assert forall|i: int|
                #![trigger pre.has_snapshot(i)]
                pre.live(i) && pre.has_snapshot(i) implies exists|m: int|
                    0 <= m < pre.logs@.len() && pre.logs@[m] == i as usize by {
                assert(pre.logs@.contains(i as usize));
            }
        }
        let mut k: usize = 0;
        while k < self.logs.len()
            invariant
                0 <= k <= self.logs@.len(),
                self.logs@ == pre.logs@,
                self.collector_state == pre.collector_state,
                self.collector_version == pre.collector_version,
                self.thread_actions@ == pre.thread_actions@,
                self.possible_cycles@ == pre.possible_cycles@,
                self.stop == pre.stop,
                self.spawned == pre.spawned,
                self.running == pre.running,
                self.n_acyclic_dropped == pre.n_acyclic_dropped,
                self.n_cyclic_dropped == pre.n_cyclic_dropped,
                self.n_blocks() == pre.n_blocks(),
                forall|i: int| self.live(i) == pre.live(i),
                forall|i: int|
                    #[trigger] pre.live(i) ==> self.counter(i) == pre.counter(i) && self.tracing(i)
                        == pre.tracing(i) && self.mark_of(i) == pre.mark_of(i) && self.finalized(i)
                        == pre.finalized(i) && self.edges_of(i) == pre.edges_of(i) && self.block(
                        i,
                    ).elem == pre.block(i).elem && self.log_version(i) == pre.log_version(i),
                forall|i: int|
                    #![trigger self.has_snapshot(i)]
                    self.live(i) && self.has_snapshot(i) ==> exists|m: int|
                        k <= m < self.logs@.len() && self.logs@[m] == i as usize,
                none_seq(self.blocks@) == none_seq(pre.blocks@),
                live_seq(self.blocks@) == live_seq(pre.blocks@),
                traced_seq(self.blocks@) == traced_seq(pre.blocks@),
                self.possible_cycles@.no_duplicates(),
                forall|kk: int|
                    0 <= kk < self.possible_cycles@.len() ==> self.live(
                        #[trigger] self.possible_cycles@[kk] as int,
                    ) && self.mark_of(self.possible_cycles@[kk] as int) == Mark::PossibleCycles,
                forall|i: int|
                    #![trigger self.mark_of(i)]
                    self.live(i) && self.mark_of(i) == Mark::PossibleCycles
                        ==> self.possible_cycles@.contains(i as usize),
                forall|i: int|
                    #[trigger] self.live(i) ==> 1 <= self.counter(i) && self.tracing(i)
                        <= self.counter(i),
                forall|i: int|
                    #![trigger self.mark_of(i)]
                    self.live(i) ==> (self.mark_of(i) == Mark::NonMarked || self.mark_of(i)
                        == Mark::PossibleCycles),
                self.n_acyclic_dropped + self.n_cyclic_dropped == count_true(
                    none_seq(self.blocks@),
                ),
            decreases self.logs@.len() - k,
        {
            let ghost before = *self;
            let id = self.logs[k];
            if self.is_live(id) {
                let version = match &self.blocks[id] {
                    Some(blk) => blk.lm.log_pointer.version,
                    None => vstd::pervasive::unreached(),
                };
                self.set_log(
                    id,
                    crate::log_pointer::LogPointer { version, snapshot: None },
                );
                proof {
                    let post = *self;
                    assert forall|i: int| post.live(i) == pre.live(i) by {
                        if 0 <= i < post.n_blocks() && i != id {
                            assert(post.blocks@[i] == before.blocks@[i]);
                        }
                    }
                    assert forall|i: int| #[trigger] pre.live(i) implies post.counter(i)
                        == pre.counter(i) && post.tracing(i) == pre.tracing(i) && post.mark_of(i)
                        == pre.mark_of(i) && post.finalized(i) == pre.finalized(i)
                        && post.edges_of(i) == pre.edges_of(i) && post.block(i).elem == pre.block(
                        i,
                    ).elem && post.log_version(i) == pre.log_version(i) by {
                        if i != id {
                            assert(post.blocks@[i] == before.blocks@[i]);
                        }
                    }
                    assert forall|i: int|
                        #![trigger post.has_snapshot(i)]
                        post.live(i) && post.has_snapshot(i) implies exists|m: int|
                            k + 1 <= m < post.logs@.len() && post.logs@[m] == i as usize by {
                        post.lemma_len_bound();
                        assert(0 <= i < post.n_blocks());
                        if i != id {
                            assert(post.blocks@[i] == before.blocks@[i]);
                            assert(before.has_snapshot(i));
                            let m = choose|m: int|
                                k <= m < before.logs@.len() && before.logs@[m] == i as usize;
                            if m == k {
                                assert(before.logs@[m] == id);
                                assert(i as usize == id);
                                assert(i == id as int);
                                assert(false);
                            }
                            assert(post.logs@[m] == i as usize);
                        }
                    }
                    assert forall|kk: int|
                        0 <= kk < post.possible_cycles@.len() implies post.live(
                        #[trigger] post.possible_cycles@[kk] as int,
                    ) && post.mark_of(post.possible_cycles@[kk] as int) == Mark::PossibleCycles by {
                        let y = post.possible_cycles@[kk];
                        assert(before.live(y as int) && before.mark_of(y as int)
                            == Mark::PossibleCycles);
                        if y != id {
                            assert(post.blocks@[y as int] == before.blocks@[y as int]);
                        }
                    }
                    assert forall|i: int|
                        #![trigger post.mark_of(i)]
                        post.live(i) && post.mark_of(i) == Mark::PossibleCycles implies post.possible_cycles@.contains(
                        i as usize,
                    ) by {
                        if i != id {
                            assert(post.blocks@[i] == before.blocks@[i]);
                            assert(before.live(i) && before.mark_of(i) == Mark::PossibleCycles);
                        } else {
                            assert(before.mark_of(i) == post.mark_of(i));
                            assert(before.live(i));
                        }
                    }
                    assert forall|i: int| #[trigger] post.live(i) implies 1 <= post.counter(i)
                        && post.tracing(i) <= post.counter(i) by {
                        if i != id {
                            assert(post.blocks@[i] == before.blocks@[i]);
                        }
                        assert(before.live(i));
                        assert(post.counter(i) == before.counter(i) && post.tracing(i)
                            == before.tracing(i));
                    }
                    assert forall|i: int|
                        #![trigger post.mark_of(i)]
                        post.live(i) implies (post.mark_of(i) == Mark::NonMarked || post.mark_of(i)
                        == Mark::PossibleCycles) by {
                        if i != id {
                            assert(post.blocks@[i] == before.blocks@[i]);
                        }
                        assert(before.live(i));
                        assert(post.mark_of(i) == before.mark_of(i));
                    }
                }
            } else {
                proof {
                    let post = *self;
                    assert forall|i: int|
                        #![trigger post.has_snapshot(i)]
                        post.live(i) && post.has_snapshot(i) implies exists|m: int|
                            k + 1 <= m < post.logs@.len() && post.logs@[m] == i as usize by {
                        post.lemma_len_bound();
                        assert(0 <= i < post.n_blocks());
                        let m = choose|m: int|
                            k <= m < post.logs@.len() && post.logs@[m] == i as usize;
                        if m == k {
                            assert(post.logs@[k as int] == i as usize);
                            assert(i == post.logs@[k as int] as int);
                            assert(post.live(post.logs@[k as int] as int) == false);
                            assert(false);
                        }
                    }
                }
            }
            k = k + 1;
        }
        proof {
            assert forall|i: int| #[trigger] self.live(i) implies !self.has_snapshot(i) by {
                if self.live(i) && self.has_snapshot(i) {
                    assert(exists|m: int|
                        k <= m < self.logs@.len() && self.logs@[m] == i as usize);
                    assert(false);
                }
            }
            assert(self.wf());
        }
        let ghost le = *self;
        self.logs.clear();
        proof {
            lemma_wf_same_blocks(le, *self);
            assert forall|i: int| #[trigger] self.live(i) implies !self.has_snapshot(i) by {
                assert(le.live(i) == self.live(i));
                assert(le.live(i) ==> !le.has_snapshot(i));
            }
            assert forall|i: int| self.live(i) == old(self).live(i) by {
                assert(self.live(i) == le.live(i));
                assert(le.live(i) == pre.live(i));
                assert(pre.live(i) == old(self).live(i));
            }
            assert forall|i: int| #[trigger] old(self).live(i) implies self.counter(i) == old(self).counter(i) && self.tracing(i) == old(self).tracing(i) && self.mark_of(i) == old(self).mark_of(i) && self.finalized(i) == old(self).finalized(i) && self.edges_of(i) == old(self).edges_of(i) && self.block(i).elem == old(self).block(i).elem by {
                assert(pre.live(i));
                assert(self.block(i) == le.block(i));
                assert(pre.block(i) == old(self).block(i));
            }
        }
    }

    /// Close the cycle: back to `SLEEPING`.
    pub fn finish_collection(&mut self)
        requires
            old(self).wf(),
            old(self).collector_state == STATES::CLEANING,
        ensures
            final(self).wf(),
            *final(self) == (Heap { collector_state: STATES::SLEEPING, ..*old(self) }),
    {
        self.collector_state = STATES::SLEEPING;
        proof {
            lemma_wf_same_blocks(*old(self), *self);
        }
    }
}


/// How many entries among the first `upto` of `s` move block `b` in the
/// direction `act`.
pub open spec fn count_actions(s: Seq<ActionEntry>, b: usize, act: crate::cc::Action, upto: int) -> int
    decreases upto,
{
    if upto <= 0 {
        0
    } else {
        count_actions(s, b, act, upto - 1) + if s[upto - 1].cc_box == b && s[upto - 1].action
            == act {
            1int
        } else {
            0int
        }
    }
}

/// All `Add` entries for `b` in `s`.
pub open spec fn adds_for(s: Seq<ActionEntry>, b: usize) -> int {
    count_actions(s, b, crate::cc::Action::Add, s.len() as int)
}

/// All `Remove` entries for `b` in `s`.
pub open spec fn removes_for(s: Seq<ActionEntry>, b: usize) -> int {
    count_actions(s, b, crate::cc::Action::Remove, s.len() as int)
}

pub proof fn lemma_count_actions_bounds(s: Seq<ActionEntry>, b: usize, act: crate::cc::Action, upto: int)
    ensures
        0 <= count_actions(s, b, act, upto) <= (if upto >= 0 {
            upto
        } else {
            0int
        }),
    decreases upto,
{
    if upto > 0 {
        lemma_count_actions_bounds(s, b, act, upto - 1);
    }
}

pub proof fn lemma_count_actions_mono(s: Seq<ActionEntry>, b: usize, act: crate::cc::Action, k1: int, k2: int)
    requires
        k1 <= k2,
    ensures
        count_actions(s, b, act, k1) <= count_actions(s, b, act, k2),
    decreases k2 - k1,
{
    if k1 < k2 {
        lemma_count_actions_mono(s, b, act, k1, k2 - 1);
    }
}

impl<T> Heap<T> {
    /// Drain the inbox and apply it: all `Add` deltas first, then all
    /// `Remove` deltas. A block whose count reaches zero is reclaimed on the
    /// spot and counted in `n_acyclic_dropped`, before any trial deletion
    /// runs; a decremented survivor is buffered in `possible_cycles`. The
    /// call fails exactly when some `Add` would push a count past
    /// `MAX_COUNTER`; the failure aborts the cycle with nothing reclaimed.
    #[verifier::rlimit(100)]
    pub fn apply_changes(&mut self) -> (r: Result<(), CounterError>)
        requires
            old(self).wf(),
            old(self).collector_state == STATES::COLLECTING,
        ensures
            final(self).wf(),
            final(self).thread_actions@.len() == 0,
            final(self).collector_state == old(self).collector_state,
            final(self).collector_version == old(self).collector_version,
            final(self).logs@ == old(self).logs@,
            final(self).stop == old(self).stop,
            final(self).spawned == old(self).spawned,
            final(self).running == old(self).running,
            final(self).n_cyclic_dropped == old(self).n_cyclic_dropped,
            final(self).n_acyclic_dropped >= old(self).n_acyclic_dropped,
            final(self).n_acyclic_dropped - old(self).n_acyclic_dropped == count_true(
                none_seq(final(self).blocks@),
            ) - count_true(none_seq(old(self).blocks@)),
            final(self).n_blocks() == old(self).n_blocks(),
            forall|b: int| final(self).live(b) ==> old(self).live(b),
            (r is Ok) <==> (forall|b: int|
                #[trigger] old(self).live(b) ==> old(self).counter(b) + adds_for(
                    old(self).thread_actions@,
                    b as usize,
                ) <= MAX_COUNTER),
            r is Err ==> r == Result::<(), CounterError>::Err(CounterError::Overflow),
            r is Err ==> final(self).n_acyclic_dropped == old(self).n_acyclic_dropped && final(self).possible_cycles@ == old(self).possible_cycles@ && (forall|b: int|
                final(self).live(b) == old(self).live(b)),
            r is Ok ==> forall|b: int|
                #[trigger] old(self).live(b) ==> {
                    let gain = old(self).counter(b) + adds_for(
                        old(self).thread_actions@,
                        b as usize,
                    );
                    let loss = removes_for(old(self).thread_actions@, b as usize);
                    &&& (final(self).live(b) <==> gain > loss)
                    &&& (final(self).live(b) ==> final(self).counter(b) == gain - loss)
                    &&& (final(self).live(b) ==> (final(self).possible_cycles@.contains(b as usize)
                        <==> (old(self).possible_cycles@.contains(b as usize) || loss >= 1)))
                    &&& (final(self).live(b) ==> final(self).block(b).lm == old(self).block(b).lm
                        && final(self).block(b).elem == old(self).block(b).elem && final(self).finalized(b) == old(self).finalized(b))
                    &&& (final(self).live(b) && loss == 0 ==> final(self).mark_of(b) == old(self).mark_of(b))
                    &&& (final(self).live(b) && loss >= 1 ==> final(self).mark_of(b)
                        == Mark::PossibleCycles)
                },
    {
        let mut changes: Vec<ActionEntry> = Vec::new();
        core::mem::swap(&mut self.thread_actions, &mut changes);
        proof {
            lemma_wf_same_blocks(*old(self), *self);
        }
        let ghost pre = *self;
        let ghost acts = changes@;

        // First pass: apply every Add.
        let mut k: usize = 0;
        while k < changes.len()
            invariant
                0 <= k <= acts.len(),
                changes@ == acts,
                old(self).wf(),
                acts == old(self).thread_actions@,
                pre.blocks@ == old(self).blocks@,
                pre.collector_state == old(self).collector_state,
                pre.collector_version == old(self).collector_version,
                pre.possible_cycles@ == old(self).possible_cycles@,
                pre.logs@ == old(self).logs@,
                pre.stop == old(self).stop,
                pre.spawned == old(self).spawned,
                pre.running == old(self).running,
                pre.n_acyclic_dropped == old(self).n_acyclic_dropped,
                pre.n_cyclic_dropped == old(self).n_cyclic_dropped,
                self.wf(),
                self.thread_actions@.len() == 0,
                self.collector_state == pre.collector_state,
                self.collector_version == pre.collector_version,
                self.possible_cycles@ == pre.possible_cycles@,
                self.logs@ == pre.logs@,
                self.stop == pre.stop,
                self.spawned == pre.spawned,
                self.running == pre.running,
                self.n_acyclic_dropped == pre.n_acyclic_dropped,
                self.n_cyclic_dropped == pre.n_cyclic_dropped,
                self.n_blocks() == pre.n_blocks(),
                forall|b: int| self.live(b) == pre.live(b),
                forall|b: int|
                    0 <= b < pre.n_blocks() && !pre.live(b) ==> (#[trigger] self.blocks@[b])
                        == pre.blocks@[b],
                forall|b: int|
                    #[trigger] pre.live(b) ==> self.counter(b) == pre.counter(b) + count_actions(
                        acts,
                        b as usize,
                        crate::cc::Action::Add,
                        k as int,
                    ),
                forall|b: int|
                    #[trigger] pre.live(b) ==> self.tracing(b) == pre.tracing(b) && self.mark_of(b)
                        == pre.mark_of(b) && self.finalized(b) == pre.finalized(b) && self.block(
                        b,
                    ).lm == pre.block(b).lm && self.block(b).elem == pre.block(b).elem,
            decreases acts.len() - k,
        {
            let e = changes[k];
            let is_add = match e.action {
                crate::cc::Action::Add => true,
                crate::cc::Action::Remove => false,
            };
            if is_add && self.is_live(e.cc_box) {
                let ghost before = *self;
                let mut cm = self.cm_of(e.cc_box);
                let res = cm.increment_counter();
                if res.is_err() {
                    proof {
                        let b = e.cc_box;
                        assert(pre.live(b as int));
                        assert(before.counter(b as int) == pre.counter(b as int) + count_actions(
                            acts,
                            b,
                            crate::cc::Action::Add,
                            k as int,
                        ));
                        assert(before.counter(b as int) == MAX_COUNTER);
                        assert(count_actions(acts, b, crate::cc::Action::Add, k + 1) == count_actions(
                            acts,
                            b,
                            crate::cc::Action::Add,
                            k as int,
                        ) + 1);
                        lemma_count_actions_mono(
                            acts,
                            b,
                            crate::cc::Action::Add,
                            k + 1,
                            acts.len() as int,
                        );
                        assert(pre.counter(b as int) + adds_for(acts, b) > MAX_COUNTER);
                        assert(old(self).live(b as int));
                        assert(old(self).counter(b as int) == pre.counter(b as int));
                        assert(!(forall|bb: int|
                            #[trigger] old(self).live(bb) ==> old(self).counter(bb) + adds_for(
                                old(self).thread_actions@,
                                bb as usize,
                            ) <= MAX_COUNTER));
                        assert forall|bb: int| self.live(bb) == old(self).live(bb) by {
                            assert(self.live(bb) == pre.live(bb));
                            assert(pre.live(bb) == old(self).live(bb));
                        }
                        assert(self.accounting_ok());
                        assert(none_seq(pre.blocks@) == none_seq(old(self).blocks@));
                        assert(self.n_acyclic_dropped + self.n_cyclic_dropped == count_true(
                            none_seq(self.blocks@),
                        ));
                        assert(old(self).n_acyclic_dropped + old(self).n_cyclic_dropped
                            == count_true(none_seq(old(self).blocks@)));
                    }
                    return Err(CounterError::Overflow);
                }
                self.set_cm(e.cc_box, cm);
                proof {
                    let b = e.cc_box;
                    lemma_wf_one_block_edit(before, *self, b as int);
                    self.lemma_len_bound();
                    assert forall|bb: int|
                        #[trigger] pre.live(bb) implies self.counter(bb) == pre.counter(bb)
                        + count_actions(acts, bb as usize, crate::cc::Action::Add, k + 1) by {
                        if bb != b {
                            assert(self.blocks@[bb] == before.blocks@[bb]);
                            assert(bb as usize != b);
                        }
                    }
                    assert forall|bb: int|
                        #[trigger] pre.live(bb) implies self.tracing(bb) == pre.tracing(bb)
                        && self.mark_of(bb) == pre.mark_of(bb) && self.finalized(bb)
                        == pre.finalized(bb) && self.block(bb).lm == pre.block(bb).lm && self.block(
                        bb,
                    ).elem == pre.block(bb).elem by {
                        if bb != b {
                            assert(self.blocks@[bb] == before.blocks@[bb]);
                        }
                    }
                    assert forall|bb: int| self.live(bb) == pre.live(bb) by {
                        if 0 <= bb < self.n_blocks() && bb != b {
                            assert(self.blocks@[bb] == before.blocks@[bb]);
                        }
                    }
                }
            } else {
                proof {
                    assert forall|bb: int|
                        #[trigger] pre.live(bb) implies self.counter(bb) == pre.counter(bb)
                        + count_actions(acts, bb as usize, crate::cc::Action::Add, k + 1) by {
                        self.lemma_len_bound();
                        if acts[k as int].cc_box == bb as usize && acts[k as int].action
                            == crate::cc::Action::Add {
                            assert(self.live(bb));
                            assert(false);
                        }
                    }
                }
            }
            k = k + 1;
        }
        proof {
            assert forall|b: int| #[trigger] pre.live(b) implies pre.counter(b) + adds_for(
                acts,
                b as usize,
            ) <= MAX_COUNTER by {
                assert(self.counter(b) == pre.counter(b) + adds_for(acts, b as usize));
                self.block(b).counter_marker.lemma_word_bounds();
            }
        }

        let ghost mid = *self;

        // Second pass: apply every Remove.
        let mut k2: usize = 0;
        while k2 < changes.len()
            invariant
                0 <= k2 <= acts.len(),
                changes@ == acts,
                self.wf(),
                self.thread_actions@.len() == 0,
                self.collector_state == mid.collector_state,
                self.collector_version == mid.collector_version,
                self.logs@ == mid.logs@,
                self.stop == mid.stop,
                self.spawned == mid.spawned,
                self.running == mid.running,
                self.n_cyclic_dropped == mid.n_cyclic_dropped,
                self.n_acyclic_dropped >= mid.n_acyclic_dropped,
                self.n_blocks() == mid.n_blocks(),
                forall|b: int| self.live(b) ==> mid.live(b),
                forall|b: int|
                    0 <= b < mid.n_blocks() && !mid.live(b) ==> (#[trigger] self.blocks@[b])
                        == mid.blocks@[b],
                forall|b: int|
                    #[trigger] mid.live(b) ==> {
                        let loss = count_actions(
                            acts,
                            b as usize,
                            crate::cc::Action::Remove,
                            k2 as int,
                        );
                        &&& (self.live(b) <==> mid.counter(b) > loss)
                        &&& (self.live(b) ==> self.counter(b) == mid.counter(b) - loss)
                        &&& (self.live(b) ==> (self.possible_cycles@.contains(b as usize) <==> (
                        mid.possible_cycles@.contains(b as usize) || loss >= 1)))
                        &&& (self.live(b) ==> self.block(b).lm == mid.block(b).lm && self.block(
                            b,
                        ).elem == mid.block(b).elem && self.finalized(b) == mid.finalized(b))
                        &&& (self.live(b) && loss == 0 ==> self.mark_of(b) == mid.mark_of(b)
                            && self.tracing(b) == mid.tracing(b))
                        &&& (self.live(b) && loss >= 1 ==> self.mark_of(b) == Mark::PossibleCycles)
                    },
            decreases acts.len() - k2,
        {
            let e = changes[k2];
            let is_remove = match e.action {
                crate::cc::Action::Add => false,
                crate::cc::Action::Remove => true,
            };
            if is_remove && self.is_live(e.cc_box) {
                let ghost before = *self;
                let b = e.cc_box;
                let mut cm = self.cm_of(b);
                let res = cm.decrement_counter();
                proof {
                    assert(before.live(b as int));
                    assert(res is Ok);
                }
                if cm.counter() == 0 {
                    proof {
                        crate::list::lemma_count_true_update(
                            none_seq(before.blocks@),
                            b as int,
                            true,
                        );
                        crate::list::lemma_count_true_bounds(
                            none_seq(before.blocks@).update(b as int, true),
                        );
                        before.lemma_len_bound();
                        assert(self.n_acyclic_dropped < u64::MAX);
                    }
                    self.n_acyclic_dropped = self.n_acyclic_dropped + 1;
                    let ghost withn = *self;
                    self.drop_elem(b);
                    proof {
                        let post = *self;
                        crate::list::lemma_count_true_update(
                            none_seq(before.blocks@),
                            b as int,
                            true,
                        );
                        crate::list::lemma_count_true_bounds(none_seq(before.blocks@));
                        self.lemma_len_bound();
                        assert(count_true(none_seq(post.blocks@)) == count_true(
                            none_seq(before.blocks@),
                        ) + 1);
                        assert forall|bb: int| #[trigger] post.live(bb) implies 1 <= post.counter(
                            bb,
                        ) && post.tracing(bb) <= post.counter(bb) by {
                            assert(bb != b);
                            assert(post.blocks@[bb] == before.blocks@[bb]);
                            assert(before.live(bb));
                        }
                        assert forall|bb: int|
                            #![trigger post.mark_of(bb)]
                            post.live(bb) implies (post.mark_of(bb) == Mark::NonMarked
                            || post.mark_of(bb) == Mark::PossibleCycles) by {
                            assert(bb != b);
                            assert(post.blocks@[bb] == before.blocks@[bb]);
                            assert(before.live(bb));
                        }
                        assert forall|bb: int|
                            #![trigger post.has_snapshot(bb)]
                            post.live(bb) && post.has_snapshot(bb) implies post.logs@.contains(
                            bb as usize,
                        ) by {
                            assert(bb != b);
                            assert(post.blocks@[bb] == before.blocks@[bb]);
                            assert(before.live(bb) && before.has_snapshot(bb));
                        }
                        assert(post.wf());
                        assert forall|bb: int|
                            #[trigger] mid.live(bb) implies {
                            let loss = count_actions(
                                acts,
                                bb as usize,
                                crate::cc::Action::Remove,
                                k2 + 1,
                            );
                            &&& (post.live(bb) <==> mid.counter(bb) > loss)
                            &&& (post.live(bb) ==> post.counter(bb) == mid.counter(bb) - loss)
                            &&& (post.live(bb) ==> (post.possible_cycles@.contains(bb as usize)
                                <==> (mid.possible_cycles@.contains(bb as usize) || loss >= 1)))
                            &&& (post.live(bb) ==> post.block(bb).lm == mid.block(bb).lm
                                && post.block(bb).elem == mid.block(bb).elem && post.finalized(bb)
                                == mid.finalized(bb))
                            &&& (post.live(bb) && loss == 0 ==> post.mark_of(bb) == mid.mark_of(bb)
                                && post.tracing(bb) == mid.tracing(bb))
                            &&& (post.live(bb) && loss >= 1 ==> post.mark_of(bb)
                                == Mark::PossibleCycles)
                        } by {
                            mid.lemma_len_bound();
                            lemma_count_actions_bounds(
                                acts,
                                bb as usize,
                                crate::cc::Action::Remove,
                                k2 as int,
                            );
                            assert(0 <= bb < mid.n_blocks());
                            assert(before.live(bb) ==> mid.live(bb));
                            if bb != b {
                                assert(bb as usize != b);
                                assert(count_actions(
                                    acts,
                                    bb as usize,
                                    crate::cc::Action::Remove,
                                    k2 + 1,
                                ) == count_actions(
                                    acts,
                                    bb as usize,
                                    crate::cc::Action::Remove,
                                    k2 as int,
                                ));
                                assert(post.blocks@[bb] == before.blocks@[bb]);
                                assert(post.live(bb) == before.live(bb));
                                if before.live(bb) {
                                    assert(post.possible_cycles@.contains(bb as usize)
                                        == before.possible_cycles@.contains(bb as usize));
                                }
                            } else {
                                assert(mid.live(b as int));
                                assert(count_actions(acts, b, crate::cc::Action::Remove, k2 + 1)
                                    == count_actions(
                                    acts,
                                    b,
                                    crate::cc::Action::Remove,
                                    k2 as int,
                                ) + 1);
                                assert(before.counter(b as int) == 1);
                                assert(before.live(b as int));
                                assert(before.counter(b as int) == mid.counter(b as int)
                                    - count_actions(acts, b, crate::cc::Action::Remove, k2 as int));
                                assert(mid.counter(b as int) == count_actions(
                                    acts,
                                    b,
                                    crate::cc::Action::Remove,
                                    k2 + 1,
                                ));
                                assert(bb as usize == b);
                                assert(!post.live(bb));
                            }
                        }
                    }
                } else {
                    // The tracing count is per-cycle scratch that trial
                    // deletion resets before reading; zero it here rather
                    // than let it sit above the lowered strong count.
                    if cm.tracing_counter() > cm.counter() {
                        cm.reset_tracing_counter();
                    }
                    self.set_cm(b, cm);
                    let ghost edited = *self;
                    proof {
                        lemma_wf_one_block_edit(before, edited, b as int);
                    }
                    self.add_to_list(b);
                    proof {
                        let post = *self;
                        self.lemma_len_bound();
                        assert(none_seq(post.blocks@) == none_seq(edited.blocks@));
                        assert forall|bb: int| #[trigger] post.live(bb) implies 1 <= post.counter(
                            bb,
                        ) && post.tracing(bb) <= post.counter(bb) by {
                            if bb != b {
                                assert(post.blocks@[bb] == before.blocks@[bb]);
                                assert(before.live(bb));
                            } else {
                                assert(post.counter(bb) == edited.counter(bb) && post.tracing(bb)
                                    == edited.tracing(bb));
                            }
                        }
                        assert forall|bb: int|
                            #![trigger post.mark_of(bb)]
                            post.live(bb) implies (post.mark_of(bb) == Mark::NonMarked
                            || post.mark_of(bb) == Mark::PossibleCycles) by {
                            if bb != b {
                                assert(post.blocks@[bb] == before.blocks@[bb]);
                                assert(before.live(bb));
                            }
                        }
                        assert forall|bb: int|
                            #![trigger post.has_snapshot(bb)]
                            post.live(bb) && post.has_snapshot(bb) implies post.logs@.contains(
                            bb as usize,
                        ) by {
                            if bb != b {
                                assert(post.blocks@[bb] == before.blocks@[bb]);
                                assert(before.live(bb) && before.has_snapshot(bb));
                            } else {
                                assert(post.has_snapshot(bb) == before.has_snapshot(bb));
                                assert(before.live(bb));
                            }
                        }
                        assert(post.wf());
                        assert forall|bb: int|
                            #[trigger] mid.live(bb) implies {
                            let loss = count_actions(
                                acts,
                                bb as usize,
                                crate::cc::Action::Remove,
                                k2 + 1,
                            );
                            &&& (post.live(bb) <==> mid.counter(bb) > loss)
                            &&& (post.live(bb) ==> post.counter(bb) == mid.counter(bb) - loss)
                            &&& (post.live(bb) ==> (post.possible_cycles@.contains(bb as usize)
                                <==> (mid.possible_cycles@.contains(bb as usize) || loss >= 1)))
                            &&& (post.live(bb) ==> post.block(bb).lm == mid.block(bb).lm
                                && post.block(bb).elem == mid.block(bb).elem && post.finalized(bb)
                                == mid.finalized(bb))
                            &&& (post.live(bb) && loss == 0 ==> post.mark_of(bb) == mid.mark_of(bb)
                                && post.tracing(bb) == mid.tracing(bb))
                            &&& (post.live(bb) && loss >= 1 ==> post.mark_of(bb)
                                == Mark::PossibleCycles)
                        } by {
                            mid.lemma_len_bound();
                            lemma_count_actions_bounds(
                                acts,
                                bb as usize,
                                crate::cc::Action::Remove,
                                k2 as int,
                            );
                            assert(0 <= bb < mid.n_blocks());
                            assert(before.live(bb) ==> mid.live(bb));
                            if bb != b {
                                assert(bb as usize != b);
                                assert(count_actions(
                                    acts,
                                    bb as usize,
                                    crate::cc::Action::Remove,
                                    k2 + 1,
                                ) == count_actions(
                                    acts,
                                    bb as usize,
                                    crate::cc::Action::Remove,
                                    k2 as int,
                                ));
                                assert(post.blocks@[bb] == before.blocks@[bb]);
                                assert(post.live(bb) == before.live(bb));
                                if before.live(bb) {
                                    assert(edited.possible_cycles@ == before.possible_cycles@);
                                    assert(post.possible_cycles@.contains(bb as usize) == (
                                    edited.possible_cycles@.contains(bb as usize) || bb as usize
                                        == b));
                                    assert(before.possible_cycles@.contains(bb as usize) <==> (
                                    mid.possible_cycles@.contains(bb as usize) || count_actions(
                                        acts,
                                        bb as usize,
                                        crate::cc::Action::Remove,
                                        k2 as int,
                                    ) >= 1));
                                    assert(post.possible_cycles@.contains(bb as usize) <==> (
                                    mid.possible_cycles@.contains(bb as usize) || count_actions(
                                        acts,
                                        bb as usize,
                                        crate::cc::Action::Remove,
                                        k2 + 1,
                                    ) >= 1));
                                }
                            } else {
                                assert(mid.live(b as int));
                                assert(count_actions(acts, b, crate::cc::Action::Remove, k2 + 1)
                                    == count_actions(
                                    acts,
                                    b,
                                    crate::cc::Action::Remove,
                                    k2 as int,
                                ) + 1);
                                assert(before.live(b as int));
                                assert(before.counter(b as int) == mid.counter(b as int)
                                    - count_actions(acts, b, crate::cc::Action::Remove, k2 as int));
                                assert(bb as usize == b);
                                assert(post.live(bb));
                                assert(post.counter(bb) == before.counter(b as int) - 1);
                                assert(mid.counter(bb) == before.counter(b as int)
                                    + count_actions(acts, b, crate::cc::Action::Remove, k2 as int));
                                assert(post.counter(bb) == mid.counter(bb) - count_actions(
                                    acts,
                                    b,
                                    crate::cc::Action::Remove,
                                    k2 + 1,
                                ));
                                assert(mid.counter(bb) > count_actions(
                                    acts,
                                    b,
                                    crate::cc::Action::Remove,
                                    k2 + 1,
                                ));
                                assert(post.possible_cycles@.contains(b));
                                assert(post.possible_cycles@.contains(bb as usize));
                                assert(count_actions(acts, bb as usize, crate::cc::Action::Remove, k2 + 1)
                                    >= 1);
                                assert(post.block(bb).lm == edited.block(bb).lm && edited.block(
                                    bb,
                                ).lm == before.block(bb).lm);
                                assert(post.block(bb).elem == before.block(bb).elem);
                                assert(post.finalized(bb) == before.finalized(bb));
                                assert(post.mark_of(bb) == Mark::PossibleCycles);
                            }
                        }
                    }
                }
            } else {
                proof {
                    assert forall|bb: int|
                        #[trigger] mid.live(bb) implies count_actions(
                        acts,
                        bb as usize,
                        crate::cc::Action::Remove,
                        k2 + 1,
                    ) == count_actions(acts, bb as usize, crate::cc::Action::Remove, k2 as int) + (
                    if acts[k2 as int].cc_box == bb as usize && acts[k2 as int].action
                        == crate::cc::Action::Remove {
                        1int
                    } else {
                        0int
                    }) by {}
                    assert forall|bb: int|
                        #[trigger] mid.live(bb) implies {
                        let loss = count_actions(
                            acts,
                            bb as usize,
                            crate::cc::Action::Remove,
                            k2 + 1,
                        );
                        &&& (self.live(bb) <==> mid.counter(bb) > loss)
                        &&& (self.live(bb) ==> self.counter(bb) == mid.counter(bb) - loss)
                    } by {
                        let lossk = count_actions(
                            acts,
                            bb as usize,
                            crate::cc::Action::Remove,
                            k2 as int,
                        );
                        if acts[k2 as int].cc_box == bb as usize && acts[k2 as int].action
                            == crate::cc::Action::Remove {
                            mid.lemma_len_bound();
                            assert(0 <= bb < mid.n_blocks());
                            assert(bb == acts[k2 as int].cc_box as int);
                            assert(!self.live(bb));
                            lemma_count_actions_bounds(
                                acts,
                                bb as usize,
                                crate::cc::Action::Remove,
                                k2 as int,
                            );
                            assert(mid.counter(bb) <= lossk);
                        }
                    }
                }
            }
            k2 = k2 + 1;
        }
        proof {
            assert forall|b: int|
                #[trigger] pre.live(b) implies {
                let gain = pre.counter(b) + adds_for(acts, b as usize);
                let loss = removes_for(acts, b as usize);
                &&& (self.live(b) <==> gain > loss)
                &&& (self.live(b) ==> self.counter(b) == gain - loss)
                &&& (self.live(b) ==> (self.possible_cycles@.contains(b as usize) <==> (
                pre.possible_cycles@.contains(b as usize) || loss >= 1)))
                &&& (self.live(b) ==> self.block(b).lm == pre.block(b).lm && self.block(b).elem
                    == pre.block(b).elem && self.finalized(b) == pre.finalized(b))
                &&& (self.live(b) && loss == 0 ==> self.mark_of(b) == pre.mark_of(b))
                &&& (self.live(b) && loss >= 1 ==> self.mark_of(b) == Mark::PossibleCycles)
            } by {
                assert(mid.live(b));
                assert(mid.counter(b) == pre.counter(b) + adds_for(acts, b as usize));
            }
            assert forall|b: int|
                #[trigger] old(self).live(b) implies {
                let gain = old(self).counter(b) + adds_for(old(self).thread_actions@, b as usize);
                let loss = removes_for(old(self).thread_actions@, b as usize);
                &&& (gain - adds_for(old(self).thread_actions@, b as usize) + adds_for(
                    old(self).thread_actions@,
                    b as usize,
                ) <= MAX_COUNTER)
                &&& (self.live(b) <==> gain > loss)
                &&& (self.live(b) ==> self.counter(b) == gain - loss)
                &&& (self.live(b) ==> (self.possible_cycles@.contains(b as usize) <==> (old(self).possible_cycles@.contains(b as usize) || loss >= 1)))
                &&& (self.live(b) ==> self.block(b).lm == old(self).block(b).lm && self.block(
                    b,
                ).elem == old(self).block(b).elem && self.finalized(b) == old(self).finalized(b))
                &&& (self.live(b) && loss == 0 ==> self.mark_of(b) == old(self).mark_of(b))
                &&& (self.live(b) && loss >= 1 ==> self.mark_of(b) == Mark::PossibleCycles)
            } by {
                assert(pre.live(b));
                assert(pre.counter(b) == old(self).counter(b));
                assert(pre.block(b) == old(self).block(b));
            }
            assert forall|b: int| self.live(b) implies old(self).live(b) by {
                assert(mid.live(b) ==> pre.live(b));
                assert(pre.live(b) == old(self).live(b));
            }
            assert(self.accounting_ok());
            assert(none_seq(pre.blocks@) == none_seq(old(self).blocks@));
            assert(self.n_acyclic_dropped + self.n_cyclic_dropped == count_true(
                none_seq(self.blocks@),
            ));
            assert(old(self).n_acyclic_dropped + old(self).n_cyclic_dropped == count_true(
                none_seq(old(self).blocks@),
            ));
        }
        Ok(())
    }
}


/// The count of traced blocks is nonnegative and never exceeds the count of
/// live blocks.
pub open spec fn traced_le_live<T>(h: Heap<T>) -> bool {
    0 <= count_true(traced_seq(h.blocks@)) <= count_true(live_seq(h.blocks@))
}

pub proof fn lemma_traced_le_live<T>(h: Heap<T>)
    ensures
        traced_le_live(h),
{
    crate::list::lemma_count_true_bounds(traced_seq(h.blocks@));
    assert forall|i: int|
        0 <= i < traced_seq(h.blocks@).len() && traced_seq(h.blocks@)[i] implies live_seq(
        h.blocks@,
    )[i] by {}
    crate::list::lemma_count_true_le(traced_seq(h.blocks@), live_seq(h.blocks@));
}

/// The frame keeps the trace edges of every live block: nothing the tracing
/// phases do moves a logged mutex or the collector version.
pub proof fn lemma_frame_te<T>(a: Heap<T>, g0: Heap<T>)
    requires
        a.collect_frame(g0),
    ensures
        forall|i: int| a.live(i) == g0.live(i),
        forall|i: int| #[trigger] a.live(i) ==> a.spec_trace_edges(i) == g0.spec_trace_edges(i),
        forall|i: int| #[trigger] a.live(i) ==> a.counter(i) == g0.counter(i),
{
    assert forall|i: int| #[trigger] a.live(i) implies a.spec_trace_edges(i)
        == g0.spec_trace_edges(i) && a.counter(i) == g0.counter(i) by {
        assert(g0.live(i));
        assert(a.block(i).lm == g0.block(i).lm);
    }
}

/// `collect_frame` composes.
pub proof fn lemma_collect_frame_trans<T>(a: Heap<T>, b: Heap<T>, c: Heap<T>)
    requires
        b.collect_frame(a),
        c.collect_frame(b),
    ensures
        c.collect_frame(a),
{
    assert forall|i: int| c.live(i) == a.live(i) by {
        assert(c.live(i) == b.live(i));
        assert(b.live(i) == a.live(i));
    }
    assert forall|i: int| #[trigger] a.live(i) implies c.counter(i) == a.counter(i) && c.block(
        i,
    ).lm == a.block(i).lm && c.block(i).elem == a.block(i).elem && c.finalized(i) == a.finalized(
        i,
    ) by {
        assert(b.live(i));
        assert(b.counter(i) == a.counter(i) && b.block(i).lm == a.block(i).lm && b.block(i).elem
            == a.block(i).elem && b.finalized(i) == a.finalized(i));
    }
}

impl<T> Heap<T> {
    /// The invariant of trial deletion: candidate list and marks agree,
    /// counts stay sane, and the root and non-root lists partition the
    /// `Traced` blocks — a root list entry still has references that tracing
    /// has not accounted for, a non-root list entry has all of them
    /// accounted for.
    pub open spec fn tracing_inv(self, roots: Seq<usize>, non_roots: Seq<usize>) -> bool {
        &&& self.pc_entries_ok()
        &&& self.pc_complete()
        &&& self.counters_ok()
        &&& self.accounting_ok()
        &&& self.logged_ok()
        &&& (forall|i: int|
            #![trigger self.mark_of(i)]
            self.live(i) ==> self.mark_of(i) != Mark::Dirty)
        &&& roots.no_duplicates()
        &&& non_roots.no_duplicates()
        &&& (forall|y: usize| !(#[trigger] roots.contains(y) && #[trigger] non_roots.contains(y)))
        &&& (forall|k: int|
            0 <= k < roots.len() ==> self.live(#[trigger] roots[k] as int) && self.mark_of(
                roots[k] as int,
            ) == Mark::Traced && self.tracing(roots[k] as int) < self.counter(roots[k] as int))
        &&& (forall|k: int|
            0 <= k < non_roots.len() ==> self.live(#[trigger] non_roots[k] as int) && self.mark_of(
                non_roots[k] as int,
            ) == Mark::Traced && self.tracing(non_roots[k] as int) == self.counter(
                non_roots[k] as int,
            ))
        &&& (forall|i: int|
            #![trigger self.mark_of(i)]
            self.live(i) && self.mark_of(i) == Mark::Traced ==> roots.contains(i as usize)
                || non_roots.contains(i as usize))
    }

    /// What the two tracing phases leave alone: the live set, every live
    /// block's count, edges, value and finalized bit, and all bookkeeping.
    pub open spec fn collect_frame(self, other: Heap<T>) -> bool {
        &&& self.n_blocks() == other.n_blocks()
        &&& (forall|i: int| self.live(i) == other.live(i))
        &&& (forall|i: int|
            #[trigger] other.live(i) ==> self.counter(i) == other.counter(i) && self.block(i).lm
                == other.block(i).lm && self.block(i).elem == other.block(i).elem
                && self.finalized(i) == other.finalized(i))
        &&& self.thread_actions@ == other.thread_actions@
        &&& self.collector_state == other.collector_state
        &&& self.collector_version == other.collector_version
        &&& self.logs@ == other.logs@
        &&& self.stop == other.stop
        &&& self.spawned == other.spawned
        &&& self.running == other.running
        &&& self.n_acyclic_dropped == other.n_acyclic_dropped
        &&& self.n_cyclic_dropped == other.n_cyclic_dropped
    }

    /// One step of frame and invariant bookkeeping shared by the tracing
    /// loops: nothing but the counter word of `c` moved, its count, its
    /// liveness and its finalized bit included.
    proof fn lemma_frame_cm_step(self, before: Heap<T>, h0: Heap<T>, c: usize)
        requires
            before.collect_frame(h0),
            before.live(c as int),
            self.live(c as int),
            self.n_blocks() == before.n_blocks(),
            forall|j: int|
                0 <= j < before.n_blocks() && j != c ==> (#[trigger] self.blocks@[j])
                    == before.blocks@[j],
            self.counter(c as int) == before.counter(c as int),
            self.block(c as int).lm == before.block(c as int).lm,
            self.block(c as int).elem == before.block(c as int).elem,
            self.finalized(c as int) == before.finalized(c as int),
            self.thread_actions@ == before.thread_actions@,
            self.collector_state == before.collector_state,
            self.collector_version == before.collector_version,
            self.logs@ == before.logs@,
            self.stop == before.stop,
            self.spawned == before.spawned,
            self.running == before.running,
            self.n_acyclic_dropped == before.n_acyclic_dropped,
            self.n_cyclic_dropped == before.n_cyclic_dropped,
        ensures
            self.collect_frame(h0),
    {
        assert forall|i: int| self.live(i) == before.live(i) by {
            if 0 <= i < before.n_blocks() && i != c {
                assert(self.blocks@[i] == before.blocks@[i]);
            }
        }
        assert forall|i: int| #[trigger] before.live(i) implies self.counter(i) == before.counter(
            i,
        ) && self.block(i).lm == before.block(i).lm && self.block(i).elem == before.block(i).elem
            && self.finalized(i) == before.finalized(i) by {
            if i != c {
                assert(self.blocks@[i] == before.blocks@[i]);
            }
        }
        lemma_collect_frame_trans(h0, before, self);
    }
}


impl<T> Heap<T> {
    /// Counting trace from `start`, which was just marked `Traced` and put
    /// on the root list: walk its trace edges, give every reached block one
    /// tracing credit per incoming edge, and move a block to the non-root
    /// list the moment its tracing count accounts for its whole strong
    /// count.
    #[verifier::rlimit(100)]
    fn trace_counting(
        &mut self,
        start: usize,
        roots: &mut Vec<usize>,
        non_roots: &mut Vec<usize>,
        Ghost(g0): Ghost<Heap<T>>,
        Ghost(pc0): Ghost<Seq<usize>>,
    )
        requires
            old(self).live(start as int),
            old(self).mark_of(start as int) == Mark::Traced,
            old(self).tracing_inv(old(roots)@, old(non_roots)@),
            old(self).collect_frame(g0),
            crate::graph::acct(*old(self), old(self).spec_trace_edges(start as int)),
            crate::graph::reachable(g0, pc0, start),
            forall|i: int|
                #![trigger old(self).mark_of(i)]
                old(self).live(i) && old(self).mark_of(i) == Mark::Traced
                    ==> crate::graph::reachable(g0, pc0, i as usize),
            forall|y: usize|
                #[trigger] pc0.contains(y) ==> old(self).possible_cycles@.contains(y) || (old(self).live(y as int) && old(self).mark_of(y as int) == Mark::Traced),
            forall|y: usize| #[trigger]
                old(self).possible_cycles@.contains(y) ==> pc0.contains(y),
        ensures
            final(self).tracing_inv(final(roots)@, final(non_roots)@),
            final(self).collect_frame(*old(self)),
            final(self).possible_cycles@.len() <= old(self).possible_cycles@.len(),
            final(self).collect_frame(g0),
            crate::graph::acct(*final(self), Seq::<usize>::empty()),
            forall|i: int|
                #![trigger final(self).mark_of(i)]
                final(self).live(i) && final(self).mark_of(i) == Mark::Traced
                    ==> crate::graph::reachable(g0, pc0, i as usize),
            forall|y: usize|
                #[trigger] pc0.contains(y) ==> final(self).possible_cycles@.contains(y) || (final(self).live(y as int) && final(self).mark_of(y as int) == Mark::Traced),
            forall|y: usize| #[trigger]
                final(self).possible_cycles@.contains(y) ==> pc0.contains(y),
    {
        let ghost h0 = *old(self);
        let mut stack: Vec<usize> = self.trace_edges(start);
        proof {
            lemma_traced_le_live(*self);
            assert(self.collect_frame(h0));
            lemma_frame_te(*self, g0);
            assert forall|k: int|
                #![trigger stack@[k]]
                0 <= k < stack@.len() && g0.live(stack@[k] as int) implies crate::graph::reachable(
                g0,
                pc0,
                stack@[k],
            ) by {
                assert(self.spec_trace_edges(start as int).contains(stack@[k]));
                assert(self.spec_trace_edges(start as int) == g0.spec_trace_edges(start as int));
                crate::graph::lemma_reachable_step(g0, pc0, start, stack@[k]);
            }
        }
        while stack.len() > 0
            invariant
                self.tracing_inv(roots@, non_roots@),
                self.collect_frame(h0),
                self.possible_cycles@.len() <= h0.possible_cycles@.len(),
                traced_le_live(*self),
                self.collect_frame(g0),
                crate::graph::acct(*self, stack@),
                forall|i: int|
                    #![trigger self.mark_of(i)]
                    self.live(i) && self.mark_of(i) == Mark::Traced ==> crate::graph::reachable(
                        g0,
                        pc0,
                        i as usize,
                    ),
                forall|k: int|
                    #![trigger stack@[k]]
                    0 <= k < stack@.len() && g0.live(stack@[k] as int)
                        ==> crate::graph::reachable(g0, pc0, stack@[k]),
                forall|y: usize|
                    #[trigger] pc0.contains(y) ==> self.possible_cycles@.contains(y) || (self.live(
                        y as int,
                    ) && self.mark_of(y as int) == Mark::Traced),
                forall|y: usize| #[trigger]
                    self.possible_cycles@.contains(y) ==> pc0.contains(y),
            decreases
                count_true(live_seq(self.blocks@)) - count_true(traced_seq(self.blocks@)),
                stack.len(),
        {
            let ghost before = *self;
            let ghost pend0 = stack@;
            let c = match stack.pop() {
                Some(c) => c,
                None => vstd::pervasive::unreached(),
            };
            proof {
                assert(stack@ =~= pend0.drop_last());
                assert(pend0.last() == c);
            }
            if self.is_live(c) {
                let cmc = self.cm_of(c);
                if !cmc.is_traced() {
                    // A block seen for the first time: take it off the
                    // candidate list, restart its tracing count at this one
                    // incoming edge, sort it, mark it, and follow its edges.
                    self.remove_from_list(c);
                    let ghost unlinked = *self;
                    let mut cm2 = self.cm_of(c);
                    cm2.reset_tracing_counter();
                    proof {
                        assert(before.live(c as int));
                        assert(unlinked.counter(c as int) >= 1);
                        cm2.lemma_word_bounds();
                    }
                    let res = cm2.increment_tracing_counter();
                    proof {
                        assert(res is Ok);
                    }
                    proof {
                        if roots@.contains(c) {
                            let k = choose|k: int| 0 <= k < roots@.len() && roots@[k] == c;
                            assert(before.mark_of(roots@[k] as int) == Mark::Traced);
                            assert(false);
                        }
                        if non_roots@.contains(c) {
                            let k = choose|k: int| 0 <= k < non_roots@.len() && non_roots@[k] == c;
                            assert(before.mark_of(non_roots@[k] as int) == Mark::Traced);
                            assert(false);
                        }
                        crate::list::lemma_push_contains(roots@, c);
                        crate::list::lemma_push_contains(non_roots@, c);
                        crate::list::lemma_push_no_dup(roots@, c);
                        crate::list::lemma_push_no_dup(non_roots@, c);
                    }
                    let went_non_root = cm2.tracing_counter() == cm2.counter();
                    if went_non_root {
                        non_roots.push(c);
                    } else {
                        roots.push(c);
                    }
                    cm2.mark(Mark::Traced);
                    self.set_cm(c, cm2);
                    proof {
                        let post = *self;
                        assert(post.mark_of(c as int) == Mark::Traced);
                        assert(post.tracing(c as int) == 1);
                        assert(post.counter(c as int) == before.counter(c as int));
                        assert forall|j: int|
                            0 <= j < before.n_blocks() && j != c implies (#[trigger] post.blocks@[j])
                                == before.blocks@[j] by {
                            assert(unlinked.blocks@[j] == before.blocks@[j]);
                        }
                        self.lemma_frame_cm_step(before, h0, c);
                        self.lemma_frame_cm_step(before, g0, c);
                        self.lemma_len_bound();
                        // candidate list and marks still agree
                        assert forall|k: int|
                            0 <= k < post.possible_cycles@.len() implies post.live(
                            #[trigger] post.possible_cycles@[k] as int,
                        ) && post.mark_of(post.possible_cycles@[k] as int)
                            == Mark::PossibleCycles by {
                            let y = post.possible_cycles@[k];
                            assert(post.possible_cycles@ == unlinked.possible_cycles@);
                            assert(unlinked.possible_cycles@.contains(y));
                            assert(unlinked.live(y as int) && unlinked.mark_of(y as int)
                                == Mark::PossibleCycles);
                            assert(before.possible_cycles@.contains(y) && y != c);
                            assert(post.blocks@[y as int] == unlinked.blocks@[y as int]);
                        }
                        assert forall|i: int|
                            #![trigger post.mark_of(i)]
                            post.live(i) && post.mark_of(i) == Mark::PossibleCycles implies post.possible_cycles@.contains(
                            i as usize,
                        ) by {
                            assert(i != c);
                            assert(post.blocks@[i] == unlinked.blocks@[i]);
                            assert(unlinked.live(i) && unlinked.mark_of(i) == Mark::PossibleCycles);
                            assert(unlinked.possible_cycles@.contains(i as usize));
                        }
                        // counts stay sane
                        assert forall|i: int| #[trigger] post.live(i) implies 1 <= post.counter(i)
                            && post.tracing(i) <= post.counter(i) by {
                            if i != c {
                                assert(post.blocks@[i] == before.blocks@[i]);
                                assert(before.live(i));
                            }
                        }
                        assert forall|i: int|
                            #![trigger post.mark_of(i)]
                            post.live(i) implies post.mark_of(i) != Mark::Dirty by {
                            if i != c {
                                assert(post.blocks@[i] == before.blocks@[i]);
                                assert(before.live(i));
                                assert(post.mark_of(i) == before.mark_of(i));
                            }
                        }
                        assert forall|i: int|
                            #![trigger post.has_snapshot(i)]
                            post.live(i) && post.has_snapshot(i) implies post.logs@.contains(
                            i as usize,
                        ) by {
                            if i != c {
                                assert(post.blocks@[i] == before.blocks@[i]);
                                assert(before.live(i) && before.has_snapshot(i));
                            } else {
                                assert(post.has_snapshot(i) == before.has_snapshot(i));
                                assert(before.live(i));
                            }
                        }
                        // the scratch lists still partition the traced blocks
                        assert forall|k: int|
                            0 <= k < roots@.len() implies post.live(#[trigger] roots@[k] as int)
                            && post.mark_of(roots@[k] as int) == Mark::Traced && post.tracing(
                            roots@[k] as int,
                        ) < post.counter(roots@[k] as int) by {
                            let y = roots@[k];
                            if y != c {
                                assert(post.blocks@[y as int] == before.blocks@[y as int]);
                            }
                        }
                        assert forall|k: int|
                            0 <= k < non_roots@.len() implies post.live(
                            #[trigger] non_roots@[k] as int,
                        ) && post.mark_of(non_roots@[k] as int) == Mark::Traced && post.tracing(
                            non_roots@[k] as int,
                        ) == post.counter(non_roots@[k] as int) by {
                            let y = non_roots@[k];
                            if y != c {
                                assert(post.blocks@[y as int] == before.blocks@[y as int]);
                            }
                        }
                        assert forall|i: int|
                            #![trigger post.mark_of(i)]
                            post.live(i) && post.mark_of(i) == Mark::Traced implies roots@.contains(
                            i as usize,
                        ) || non_roots@.contains(i as usize) by {
                            if i != c {
                                assert(post.blocks@[i] == before.blocks@[i]);
                                assert(before.live(i) && before.mark_of(i) == Mark::Traced);
                            } else {
                                assert(i as usize == c);
                            }
                        }
                        assert forall|y: usize|
                            !(#[trigger] roots@.contains(y) && #[trigger] non_roots@.contains(
                                y,
                            )) by {}
                        // termination bookkeeping
                        assert(traced_seq(unlinked.blocks@) == traced_seq(before.blocks@));
                        assert(traced_seq(post.blocks@) == traced_seq(before.blocks@).update(
                            c as int,
                            true,
                        ));
                        assert(traced_seq(before.blocks@)[c as int] == false);
                        crate::list::lemma_count_true_update(
                            traced_seq(before.blocks@),
                            c as int,
                            true,
                        );
                        assert(live_seq(post.blocks@) == live_seq(before.blocks@));
                        lemma_traced_le_live(post);
                    }
                    let mut more = self.trace_edges(c);
                    let ghost more0 = more@;
                    let ghost dropped = stack@;
                    stack.append(&mut more);
                    proof {
                        let post = *self;
                        assert(stack@ == dropped + more0);
                        assert(more0 == post.spec_trace_edges(c as int));
                        assert(post.spec_trace_edges(c as int) == before.spec_trace_edges(
                            c as int,
                        ));
                        lemma_frame_te(before, g0);
                        assert(g0.live(c as int));
                        assert(pend0[pend0.len() - 1] == c);
                        assert(crate::graph::reachable(g0, pc0, c));
                        assert(before.spec_trace_edges(c as int) == g0.spec_trace_edges(c as int));
                        assert forall|x: usize| (x as int) < post.n_blocks() implies crate::graph::acct_at(
                            post,
                            stack@,
                            x,
                        ) by {
                            assert(crate::graph::acct_at(before, pend0, x));
                            crate::graph::lemma_occ_append(dropped, more0, x);
                            crate::graph::lemma_traced_edges_update(
                                before,
                                unlinked,
                                c,
                                x,
                                post.n_blocks(),
                            );
                            crate::graph::lemma_traced_edges_update(
                                unlinked,
                                post,
                                c,
                                x,
                                post.n_blocks(),
                            );
                            assert(crate::graph::traced_occ(before, c, x) == 0);
                            assert(crate::graph::traced_occ(unlinked, c, x) == 0);
                            assert(crate::graph::traced_occ(post, c, x) == crate::graph::occ(
                                post.spec_trace_edges(c as int),
                                x,
                            ));
                            if x != c {
                                assert(crate::graph::occ(dropped, x) == crate::graph::occ(
                                    pend0,
                                    x,
                                ));
                                if post.live(x as int) {
                                    assert(post.blocks@[x as int] == before.blocks@[x as int]);
                                }
                            } else {
                                assert(crate::graph::occ(dropped, c) == crate::graph::occ(
                                    pend0,
                                    c,
                                ) - 1);
                                assert(post.tracing(c as int) == 1);
                                assert(post.counter(c as int) >= 1);
                            }
                        }
                        assert forall|i: int|
                            #![trigger post.mark_of(i)]
                            post.live(i) && post.mark_of(i) == Mark::Traced implies crate::graph::reachable(
                            g0,
                            pc0,
                            i as usize,
                        ) by {
                            if i != c {
                                assert(post.blocks@[i] == before.blocks@[i]);
                                assert(before.live(i) && before.mark_of(i) == Mark::Traced);
                            } else {
                                post.lemma_len_bound();
                                assert(i as usize == c);
                            }
                        }
                        assert forall|k: int|
                            #![trigger stack@[k]]
                            0 <= k < stack@.len() && g0.live(stack@[k] as int) implies crate::graph::reachable(
                            g0,
                            pc0,
                            stack@[k],
                        ) by {
                            if k < dropped.len() {
                                assert(stack@[k] == dropped[k]);
                                assert(dropped[k] == pend0[k]);
                            } else {
                                assert(stack@[k] == more0[k - dropped.len()]);
                                assert(g0.spec_trace_edges(c as int).contains(stack@[k]));
                                crate::graph::lemma_reachable_step(g0, pc0, c, stack@[k]);
                            }
                        }
                        assert forall|y: usize|
                            #[trigger] pc0.contains(y) implies post.possible_cycles@.contains(y)
                            || (post.live(y as int) && post.mark_of(y as int) == Mark::Traced) by {
                            if before.possible_cycles@.contains(y) {
                                if y != c {
                                    assert(post.possible_cycles@.contains(y));
                                } else {
                                    assert(post.mark_of(c as int) == Mark::Traced);
                                }
                            } else {
                                assert(before.live(y as int) && before.mark_of(y as int)
                                    == Mark::Traced);
                                assert(y != c);
                                assert(post.blocks@[y as int] == before.blocks@[y as int]);
                            }
                        }
                        assert forall|y: usize| #[trigger]
                            post.possible_cycles@.contains(y) implies pc0.contains(y) by {
                            assert(before.possible_cycles@.contains(y));
                        }
                    }
                } else {
                    // Seen before: one more incoming edge. If the credits
                    // now cover the whole strong count, the block moves from
                    // the root list to the non-root list.
                    let mut cm2 = self.cm_of(c);
                    if cm2.tracing_counter() < cm2.counter() {
                        proof {
                            cm2.lemma_word_bounds();
                        }
                        let res = cm2.increment_tracing_counter();
                        proof {
                            assert(res is Ok);
                        }
                        let now_full = cm2.tracing_counter() == cm2.counter();
                        proof {
                            assert(before.mark_of(c as int) == Mark::Traced);
                            assert(roots@.contains(c) || non_roots@.contains(c));
                            if non_roots@.contains(c) {
                                let k = choose|k: int|
                                    0 <= k < non_roots@.len() && non_roots@[k] == c;
                                assert(before.tracing(non_roots@[k] as int) == before.counter(
                                    non_roots@[k] as int,
                                ));
                                assert(false);
                            }
                            assert(roots@.contains(c));
                        }
                        self.set_cm(c, cm2);
                        if now_full {
                            crate::list::list_remove(roots, c);
                            proof {
                                crate::list::lemma_push_contains(non_roots@, c);
                                crate::list::lemma_push_no_dup(non_roots@, c);
                            }
                            non_roots.push(c);
                        }
                        proof {
                            let post = *self;
                            self.lemma_len_bound();
                            assert(post.counter(c as int) == before.counter(c as int));
                            assert(post.mark_of(c as int) == Mark::Traced);
                            assert(post.tracing(c as int) == before.tracing(c as int) + 1);
                            assert forall|j: int|
                                0 <= j < before.n_blocks() && j != c implies (#[trigger] post.blocks@[j])
                                    == before.blocks@[j] by {}
                            self.lemma_frame_cm_step(before, h0, c);
                            self.lemma_frame_cm_step(before, g0, c);
                            assert(post.spec_trace_edges(c as int) == before.spec_trace_edges(
                                c as int,
                            ));
                            assert forall|x: usize| (x as int) < post.n_blocks() implies crate::graph::acct_at(
                                post,
                                stack@,
                                x,
                            ) by {
                                assert(crate::graph::acct_at(before, pend0, x));
                                crate::graph::lemma_traced_edges_update(
                                    before,
                                    post,
                                    c,
                                    x,
                                    post.n_blocks(),
                                );
                                assert(crate::graph::traced_occ(post, c, x)
                                    == crate::graph::traced_occ(before, c, x));
                                if x != c {
                                    assert(crate::graph::occ(stack@, x) == crate::graph::occ(
                                        pend0,
                                        x,
                                    ));
                                    if post.live(x as int) {
                                        assert(post.blocks@[x as int] == before.blocks@[x as int]);
                                    }
                                } else {
                                    assert(crate::graph::occ(stack@, c) == crate::graph::occ(
                                        pend0,
                                        c,
                                    ) - 1);
                                }
                            }
                            assert forall|i: int|
                                #![trigger post.mark_of(i)]
                                post.live(i) && post.mark_of(i) == Mark::Traced implies crate::graph::reachable(
                                g0,
                                pc0,
                                i as usize,
                            ) by {
                                if i != c {
                                    assert(post.blocks@[i] == before.blocks@[i]);
                                    assert(before.live(i) && before.mark_of(i) == Mark::Traced);
                                }
                            }
                            assert forall|k: int|
                                #![trigger stack@[k]]
                                0 <= k < stack@.len() && g0.live(stack@[k] as int) implies crate::graph::reachable(
                                g0,
                                pc0,
                                stack@[k],
                            ) by {
                                assert(pend0[k] == stack@[k]);
                            }
                            assert forall|y: usize|
                                #[trigger] pc0.contains(y) implies post.possible_cycles@.contains(
                                y,
                            ) || (post.live(y as int) && post.mark_of(y as int) == Mark::Traced) by {
                                if !before.possible_cycles@.contains(y) {
                                    assert(before.live(y as int) && before.mark_of(y as int)
                                        == Mark::Traced);
                                    if y != c {
                                        assert(post.blocks@[y as int] == before.blocks@[y as int]);
                                    }
                                }
                            }
                            assert forall|k: int|
                                0 <= k < post.possible_cycles@.len() implies post.live(
                                #[trigger] post.possible_cycles@[k] as int,
                            ) && post.mark_of(post.possible_cycles@[k] as int)
                                == Mark::PossibleCycles by {
                                let y = post.possible_cycles@[k];
                                assert(before.live(y as int) && before.mark_of(y as int)
                                    == Mark::PossibleCycles);
                                assert(y != c);
                                assert(post.blocks@[y as int] == before.blocks@[y as int]);
                            }
                            assert forall|i: int|
                                #![trigger post.mark_of(i)]
                                post.live(i) && post.mark_of(i) == Mark::PossibleCycles implies post.possible_cycles@.contains(
                                i as usize,
                            ) by {
                                assert(i != c);
                                assert(post.blocks@[i] == before.blocks@[i]);
                                assert(before.live(i) && before.mark_of(i) == Mark::PossibleCycles);
                            }
                            assert forall|i: int| #[trigger] post.live(i) implies 1 <= post.counter(
                                i,
                            ) && post.tracing(i) <= post.counter(i) by {
                                if i != c {
                                    assert(post.blocks@[i] == before.blocks@[i]);
                                    assert(before.live(i));
                                }
                            }
                            assert forall|i: int|
                                #![trigger post.mark_of(i)]
                                post.live(i) implies post.mark_of(i) != Mark::Dirty by {
                                if i != c {
                                    assert(post.blocks@[i] == before.blocks@[i]);
                                    assert(before.live(i));
                                    assert(post.mark_of(i) == before.mark_of(i));
                                }
                            }
                            assert forall|i: int|
                                #![trigger post.has_snapshot(i)]
                                post.live(i) && post.has_snapshot(i) implies post.logs@.contains(
                                i as usize,
                            ) by {
                                if i != c {
                                    assert(post.blocks@[i] == before.blocks@[i]);
                                    assert(before.live(i) && before.has_snapshot(i));
                                } else {
                                    assert(post.has_snapshot(i) == before.has_snapshot(i));
                                    assert(before.live(i));
                                }
                            }
                            assert forall|k: int|
                                0 <= k < roots@.len() implies post.live(#[trigger] roots@[k] as int)
                                && post.mark_of(roots@[k] as int) == Mark::Traced && post.tracing(
                                roots@[k] as int,
                            ) < post.counter(roots@[k] as int) by {
                                let y = roots@[k];
                                if now_full {
                                    assert(roots@.contains(y));
                                    assert(y != c);
                                    assert(post.blocks@[y as int] == before.blocks@[y as int]);
                                } else {
                                    if y != c {
                                        assert(post.blocks@[y as int] == before.blocks@[y as int]);
                                    }
                                }
                            }
                            assert forall|k: int|
                                0 <= k < non_roots@.len() implies post.live(
                                #[trigger] non_roots@[k] as int,
                            ) && post.mark_of(non_roots@[k] as int) == Mark::Traced && post.tracing(
                                non_roots@[k] as int,
                            ) == post.counter(non_roots@[k] as int) by {
                                let y = non_roots@[k];
                                if y != c {
                                    assert(post.blocks@[y as int] == before.blocks@[y as int]);
                                }
                            }
                            assert forall|i: int|
                                #![trigger post.mark_of(i)]
                                post.live(i) && post.mark_of(i) == Mark::Traced implies roots@.contains(
                                i as usize,
                            ) || non_roots@.contains(i as usize) by {
                                if i != c {
                                    assert(post.blocks@[i] == before.blocks@[i]);
                                    assert(before.live(i) && before.mark_of(i) == Mark::Traced);
                                } else {
                                    if now_full {
                                        assert(non_roots@.last() == c);
                                        assert(non_roots@.contains(c));
                                    } else {
                                        assert(roots@.contains(c));
                                    }
                                }
                            }
                            assert forall|y: usize|
                                !(#[trigger] roots@.contains(y) && #[trigger] non_roots@.contains(
                                    y,
                                )) by {}
                            // the mark pattern did not change, so the
                            // termination measure did not grow
                            assert(traced_seq(post.blocks@) == traced_seq(before.blocks@).update(
                                c as int,
                                true,
                            ));
                            assert(traced_seq(before.blocks@)[c as int] == true);
                            crate::list::lemma_count_true_update(
                                traced_seq(before.blocks@),
                                c as int,
                                true,
                            );
                            assert(live_seq(post.blocks@) == live_seq(before.blocks@));
                            lemma_traced_le_live(post);
                        }
                    } else {
                        proof {
                            assert(before.tracing(c as int) == before.counter(c as int));
                            assert forall|x: usize| (x as int) < self.n_blocks() implies crate::graph::acct_at(
                                *self,
                                stack@,
                                x,
                            ) by {
                                assert(crate::graph::acct_at(*self, pend0, x));
                                if x != c {
                                    assert(crate::graph::occ(stack@, x) == crate::graph::occ(
                                        pend0,
                                        x,
                                    ));
                                } else {
                                    assert(crate::graph::occ(stack@, c) == crate::graph::occ(
                                        pend0,
                                        c,
                                    ) - 1);
                                }
                            }
                            assert forall|k: int|
                                #![trigger stack@[k]]
                                0 <= k < stack@.len() && g0.live(stack@[k] as int) implies crate::graph::reachable(
                                g0,
                                pc0,
                                stack@[k],
                            ) by {
                                assert(pend0[k] == stack@[k]);
                            }
                        }
                    }
                }
            } else {
                proof {
                    assert forall|x: usize| (x as int) < self.n_blocks() implies crate::graph::acct_at(
                        *self,
                        stack@,
                        x,
                    ) by {
                        assert(crate::graph::acct_at(*self, pend0, x));
                        if self.live(x as int) {
                            assert(x != c);
                            assert(crate::graph::occ(stack@, x) == crate::graph::occ(pend0, x));
                        }
                    }
                    assert forall|k: int|
                        #![trigger stack@[k]]
                        0 <= k < stack@.len() && g0.live(stack@[k] as int) implies crate::graph::reachable(
                        g0,
                        pc0,
                        stack@[k],
                    ) by {
                        assert(pend0[k] == stack@[k]);
                    }
                }
            }
            proof {
                lemma_traced_le_live(*self);
            }
        }
        proof {
            assert(stack@ =~= Seq::<usize>::empty());
        }
    }
}


/// Block `a` was unmarked by the root-tracing phase: it was `Traced` when
/// that phase began (state `h2s`) and is not any more.
pub open spec fn evacuated<T>(now: Heap<T>, h2s: Heap<T>, a: usize) -> bool {
    h2s.live(a as int) && h2s.mark_of(a as int) == Mark::Traced && !(now.live(a as int)
        && now.mark_of(a as int) == Mark::Traced)
}

impl<T> Heap<T> {
    /// Root trace from `start`, an externally reachable block that was just
    /// unmarked and taken off the root list: everything reachable from it is
    /// alive, so evacuate it from whichever scratch list holds it.
    #[verifier::rlimit(100)]
    fn trace_root(
        &mut self,
        start: usize,
        roots: &mut Vec<usize>,
        non_roots: &mut Vec<usize>,
        Ghost(g0): Ghost<Heap<T>>,
        Ghost(h2s): Ghost<Heap<T>>,
        Ghost(rl2): Ghost<Seq<usize>>,
    )
        requires
            old(self).live(start as int),
            old(self).mark_of(start as int) == Mark::NonMarked,
            h2s.live(start as int) && h2s.mark_of(start as int) == Mark::Traced,
            old(self).tracing_inv(old(roots)@, old(non_roots)@),
            old(self).collect_frame(g0),
            old(self).n_blocks() == h2s.n_blocks(),
            forall|i: int| old(self).live(i) == h2s.live(i),
            forall|y: usize|
                #[trigger] rl2.contains(y) ==> h2s.live(y as int) && h2s.mark_of(y as int)
                    == Mark::Traced && g0.live(y as int),
            forall|a: usize|
                (a as int) < h2s.n_blocks() && #[trigger] evacuated(*old(self), h2s, a)
                    ==> crate::graph::reachable(g0, rl2, a),
            forall|a: usize, x: usize|
                #![trigger evacuated(*old(self), h2s, a), g0.spec_trace_edges(a as int).contains(x)]
                (a as int) < h2s.n_blocks() && evacuated(*old(self), h2s, a) && g0.live(x as int)
                    && g0.spec_trace_edges(a as int).contains(x) ==> !(old(self).live(x as int)
                    && old(self).mark_of(x as int) == Mark::Traced) || old(self).spec_trace_edges(
                    start as int,
                ).contains(x),
            forall|y: usize|
                #[trigger] rl2.contains(y) ==> old(roots)@.contains(y) || evacuated(
                    *old(self),
                    h2s,
                    y,
                ),
            forall|y: usize| #[trigger] old(roots)@.contains(y) ==> rl2.contains(y),
            forall|c: int|
                old(self).live(c) && (#[trigger] old(self).mark_of(c)) == Mark::Traced
                    ==> h2s.mark_of(c) == Mark::Traced && old(self).blocks@[c] == h2s.blocks@[c],
        ensures
            final(self).tracing_inv(final(roots)@, final(non_roots)@),
            final(self).collect_frame(*old(self)),
            final(self).possible_cycles@ == old(self).possible_cycles@,
            final(roots)@.len() <= old(roots)@.len(),
            final(self).collect_frame(g0),
            forall|a: usize|
                (a as int) < h2s.n_blocks() && #[trigger] evacuated(*final(self), h2s, a)
                    ==> crate::graph::reachable(g0, rl2, a),
            forall|a: usize, x: usize|
                #![trigger evacuated(*final(self), h2s, a), g0.spec_trace_edges(a as int).contains(x)]
                (a as int) < h2s.n_blocks() && evacuated(*final(self), h2s, a) && g0.live(x as int)
                    && g0.spec_trace_edges(a as int).contains(x) ==> !(final(self).live(x as int)
                    && final(self).mark_of(x as int) == Mark::Traced),
            forall|y: usize|
                #[trigger] rl2.contains(y) ==> final(roots)@.contains(y) || evacuated(
                    *final(self),
                    h2s,
                    y,
                ),
            forall|y: usize| #[trigger] final(roots)@.contains(y) ==> rl2.contains(y),
            forall|c: int|
                final(self).live(c) && (#[trigger] final(self).mark_of(c)) == Mark::Traced
                    ==> h2s.mark_of(c) == Mark::Traced && final(self).blocks@[c] == h2s.blocks@[c],
    {
        let ghost h0 = *old(self);
        let ghost r0 = old(roots)@;
        let mut stack: Vec<usize> = self.trace_edges(start);
        proof {
            lemma_traced_le_live(*self);
            assert(self.collect_frame(h0));
            lemma_frame_te(*self, g0);
            assert(evacuated(*self, h2s, start));
            assert(crate::graph::reachable(g0, rl2, start));
            assert forall|k: int|
                #![trigger stack@[k]]
                0 <= k < stack@.len() && g0.live(stack@[k] as int) implies crate::graph::reachable(
                g0,
                rl2,
                stack@[k],
            ) by {
                assert(self.spec_trace_edges(start as int).contains(stack@[k]));
                assert(self.spec_trace_edges(start as int) == g0.spec_trace_edges(start as int));
                crate::graph::lemma_reachable_step(g0, rl2, start, stack@[k]);
            }
        }
        while stack.len() > 0
            invariant
                self.tracing_inv(roots@, non_roots@),
                self.collect_frame(h0),
                self.possible_cycles@ == h0.possible_cycles@,
                roots@.len() <= r0.len(),
                traced_le_live(*self),
                self.collect_frame(g0),
                self.n_blocks() == h2s.n_blocks(),
                forall|i: int| self.live(i) == h2s.live(i),
                forall|a: usize|
                    (a as int) < h2s.n_blocks() && #[trigger] evacuated(*self, h2s, a)
                        ==> crate::graph::reachable(g0, rl2, a),
                forall|a: usize, x: usize|
                    #![trigger evacuated(*self, h2s, a), g0.spec_trace_edges(a as int).contains(x)]
                    (a as int) < h2s.n_blocks() && evacuated(*self, h2s, a) && g0.live(x as int)
                        && g0.spec_trace_edges(a as int).contains(x) ==> !(self.live(x as int)
                        && self.mark_of(x as int) == Mark::Traced) || stack@.contains(x),
                forall|y: usize|
                    #[trigger] rl2.contains(y) ==> roots@.contains(y) || evacuated(*self, h2s, y),
                forall|y: usize| #[trigger] roots@.contains(y) ==> rl2.contains(y),
                forall|c: int|
                    self.live(c) && (#[trigger] self.mark_of(c)) == Mark::Traced ==> h2s.mark_of(c)
                        == Mark::Traced && self.blocks@[c] == h2s.blocks@[c],
                forall|k: int|
                    #![trigger stack@[k]]
                    0 <= k < stack@.len() && g0.live(stack@[k] as int)
                        ==> crate::graph::reachable(g0, rl2, stack@[k]),
            decreases count_true(traced_seq(self.blocks@)), stack.len(),
        {
            let ghost before = *self;
            let ghost pend0 = stack@;
            let c = match stack.pop() {
                Some(c) => c,
                None => vstd::pervasive::unreached(),
            };
            proof {
                assert(stack@ =~= pend0.drop_last());
                assert(pend0.last() == c);
                assert forall|x: usize| pend0.contains(x) && x != c implies stack@.contains(x) by {
                    let k = choose|k: int| 0 <= k < pend0.len() && pend0[k] == x;
                    assert(k != pend0.len() - 1);
                    assert(stack@[k] == x);
                }
            }
            if self.is_live(c) {
                let cmc = self.cm_of(c);
                if cmc.is_traced() {
                    proof {
                        assert(before.mark_of(c as int) == Mark::Traced);
                        assert(roots@.contains(c) || non_roots@.contains(c));
                    }
                    let mut cm2 = cmc;
                    cm2.mark(Mark::NonMarked);
                    if cmc.tracing_counter() == cmc.counter() {
                        proof {
                            if roots@.contains(c) {
                                let k = choose|k: int| 0 <= k < roots@.len() && roots@[k] == c;
                                assert(before.tracing(roots@[k] as int) < before.counter(
                                    roots@[k] as int,
                                ));
                                assert(false);
                            }
                        }
                        crate::list::list_remove(non_roots, c);
                    } else {
                        proof {
                            if non_roots@.contains(c) {
                                let k = choose|k: int|
                                    0 <= k < non_roots@.len() && non_roots@[k] == c;
                                assert(before.tracing(non_roots@[k] as int) == before.counter(
                                    non_roots@[k] as int,
                                ));
                                assert(false);
                            }
                        }
                        crate::list::list_remove(roots, c);
                    }
                    self.set_cm(c, cm2);
                    proof {
                        let post = *self;
                        self.lemma_len_bound();
                        assert(post.mark_of(c as int) == Mark::NonMarked);
                        assert forall|j: int|
                            0 <= j < before.n_blocks() && j != c implies (#[trigger] post.blocks@[j])
                                == before.blocks@[j] by {}
                        self.lemma_frame_cm_step(before, h0, c);
                        assert forall|k: int|
                            0 <= k < post.possible_cycles@.len() implies post.live(
                            #[trigger] post.possible_cycles@[k] as int,
                        ) && post.mark_of(post.possible_cycles@[k] as int)
                            == Mark::PossibleCycles by {
                            let y = post.possible_cycles@[k];
                            assert(before.live(y as int) && before.mark_of(y as int)
                                == Mark::PossibleCycles);
                            assert(y != c);
                            assert(post.blocks@[y as int] == before.blocks@[y as int]);
                        }
                        assert forall|i: int|
                            #![trigger post.mark_of(i)]
                            post.live(i) && post.mark_of(i) == Mark::PossibleCycles implies post.possible_cycles@.contains(
                            i as usize,
                        ) by {
                            assert(i != c);
                            assert(post.blocks@[i] == before.blocks@[i]);
                            assert(before.live(i) && before.mark_of(i) == Mark::PossibleCycles);
                        }
                        assert forall|i: int| #[trigger] post.live(i) implies 1 <= post.counter(i)
                            && post.tracing(i) <= post.counter(i) by {
                            if i != c {
                                assert(post.blocks@[i] == before.blocks@[i]);
                                assert(before.live(i));
                            }
                        }
                        assert forall|i: int|
                            #![trigger post.mark_of(i)]
                            post.live(i) implies post.mark_of(i) != Mark::Dirty by {
                            if i != c {
                                assert(post.blocks@[i] == before.blocks@[i]);
                                assert(before.live(i));
                                assert(post.mark_of(i) == before.mark_of(i));
                            }
                        }
                        assert forall|i: int|
                            #![trigger post.has_snapshot(i)]
                            post.live(i) && post.has_snapshot(i) implies post.logs@.contains(
                            i as usize,
                        ) by {
                            if i != c {
                                assert(post.blocks@[i] == before.blocks@[i]);
                                assert(before.live(i) && before.has_snapshot(i));
                            } else {
                                assert(post.has_snapshot(i) == before.has_snapshot(i));
                                assert(before.live(i));
                            }
                        }
                        assert forall|k: int|
                            0 <= k < roots@.len() implies post.live(#[trigger] roots@[k] as int)
                            && post.mark_of(roots@[k] as int) == Mark::Traced && post.tracing(
                            roots@[k] as int,
                        ) < post.counter(roots@[k] as int) by {
                            let y = roots@[k];
                            assert(roots@.contains(y));
                            assert(y != c);
                            assert(post.blocks@[y as int] == before.blocks@[y as int]);
                        }
                        assert forall|k: int|
                            0 <= k < non_roots@.len() implies post.live(
                            #[trigger] non_roots@[k] as int,
                        ) && post.mark_of(non_roots@[k] as int) == Mark::Traced && post.tracing(
                            non_roots@[k] as int,
                        ) == post.counter(non_roots@[k] as int) by {
                            let y = non_roots@[k];
                            assert(non_roots@.contains(y));
                            assert(y != c);
                            assert(post.blocks@[y as int] == before.blocks@[y as int]);
                        }
                        assert forall|i: int|
                            #![trigger post.mark_of(i)]
                            post.live(i) && post.mark_of(i) == Mark::Traced implies roots@.contains(
                            i as usize,
                        ) || non_roots@.contains(i as usize) by {
                            assert(i != c);
                            assert(post.blocks@[i] == before.blocks@[i]);
                            assert(before.live(i) && before.mark_of(i) == Mark::Traced);
                        }
                        assert forall|y: usize|
                            !(#[trigger] roots@.contains(y) && #[trigger] non_roots@.contains(
                                y,
                            )) by {}
                        assert(traced_seq(post.blocks@) == traced_seq(before.blocks@).update(
                            c as int,
                            false,
                        ));
                        assert(traced_seq(before.blocks@)[c as int] == true);
                        crate::list::lemma_count_true_update(
                            traced_seq(before.blocks@),
                            c as int,
                            false,
                        );
                        lemma_traced_le_live(post);
                        self.lemma_frame_cm_step(before, g0, c);
                    }
                    let mut more = self.trace_edges(c);
                    let ghost more0 = more@;
                    let ghost dropped = stack@;
                    stack.append(&mut more);
                    proof {
                        let post = *self;
                        post.lemma_len_bound();
                        assert(stack@ == dropped + more0);
                        assert(more0 == post.spec_trace_edges(c as int));
                        assert(post.spec_trace_edges(c as int) == before.spec_trace_edges(
                            c as int,
                        ));
                        lemma_frame_te(before, g0);
                        assert(g0.live(c as int));
                        assert(before.spec_trace_edges(c as int) == g0.spec_trace_edges(c as int));
                        assert(pend0[pend0.len() - 1] == c);
                        assert(crate::graph::reachable(g0, rl2, c));
                        assert forall|x: usize| dropped.contains(x) implies stack@.contains(x) by {
                            let k = choose|k: int| 0 <= k < dropped.len() && dropped[k] == x;
                            assert(stack@[k] == x);
                        }
                        assert forall|x: usize| more0.contains(x) implies stack@.contains(x) by {
                            let k = choose|k: int| 0 <= k < more0.len() && more0[k] == x;
                            assert(stack@[dropped.len() + k] == x);
                        }
                        assert forall|i: int| post.live(i) == h2s.live(i) by {
                            if 0 <= i < before.n_blocks() && i != c {
                                assert(post.blocks@[i] == before.blocks@[i]);
                            }
                        }
                        assert(evacuated(post, h2s, c));
                        assert forall|a: usize|
                            (a as int) < h2s.n_blocks() && #[trigger] evacuated(post, h2s, a) implies crate::graph::reachable(
                            g0,
                            rl2,
                            a,
                        ) by {
                            if a != c {
                                assert(post.blocks@[a as int] == before.blocks@[a as int]);
                                assert(evacuated(before, h2s, a));
                            }
                        }
                        assert forall|a: usize, x: usize|
                            #![trigger evacuated(post, h2s, a), g0.spec_trace_edges(a as int).contains(x)]
                            (a as int) < h2s.n_blocks() && evacuated(post, h2s, a) && g0.live(
                            x as int,
                        ) && g0.spec_trace_edges(a as int).contains(x) implies !(post.live(x as int)
                            && post.mark_of(x as int) == Mark::Traced) || stack@.contains(x) by {
                            if a == c {
                                assert(g0.spec_trace_edges(c as int).contains(x));
                                assert(more0.contains(x));
                                assert(stack@.contains(x));
                            } else {
                                assert(post.blocks@[a as int] == before.blocks@[a as int]);
                                assert(evacuated(before, h2s, a));
                                if post.live(x as int) && post.mark_of(x as int) == Mark::Traced {
                                    assert(x != c);
                                    assert(post.blocks@[x as int] == before.blocks@[x as int]);
                                    assert(before.live(x as int) && before.mark_of(x as int)
                                        == Mark::Traced);
                                    assert(pend0.contains(x));
                                    assert(stack@.contains(x));
                                }
                            }
                        }
                        assert forall|y: usize|
                            #[trigger] rl2.contains(y) implies roots@.contains(y) || evacuated(
                            post,
                            h2s,
                            y,
                        ) by {
                            if !roots@.contains(y) {
                                if y != c && !evacuated(before, h2s, y) {
                                    assert(before.live(y as int) && before.mark_of(y as int)
                                        == Mark::Traced);
                                    assert(h2s.live(y as int) && h2s.mark_of(y as int)
                                        == Mark::Traced);
                                    assert(false);
                                }
                                if y != c {
                                    assert(post.blocks@[y as int] == before.blocks@[y as int]);
                                }
                            }
                        }
                        assert forall|cc: int|
                            post.live(cc) && (#[trigger] post.mark_of(cc)) == Mark::Traced implies h2s.mark_of(
                            cc,
                        ) == Mark::Traced && post.blocks@[cc] == h2s.blocks@[cc] by {
                            assert(cc != c);
                            assert(post.blocks@[cc] == before.blocks@[cc]);
                            assert(before.live(cc) && before.mark_of(cc) == Mark::Traced);
                        }
                        assert forall|k: int|
                            #![trigger stack@[k]]
                            0 <= k < stack@.len() && g0.live(stack@[k] as int) implies crate::graph::reachable(
                            g0,
                            rl2,
                            stack@[k],
                        ) by {
                            if k < dropped.len() {
                                assert(stack@[k] == dropped[k]);
                                assert(dropped[k] == pend0[k]);
                            } else {
                                assert(stack@[k] == more0[k - dropped.len()]);
                                assert(g0.spec_trace_edges(c as int).contains(stack@[k]));
                                crate::graph::lemma_reachable_step(g0, rl2, c, stack@[k]);
                            }
                        }
                    }
                }
            }
            proof {
                lemma_traced_le_live(*self);
            }
        }
    }
}


impl<T> Heap<T> {
    /// Trial deletion over the drained candidate list.
    ///
    /// Counting phase: every candidate root is traced, and each block
    /// reached collects one tracing credit per incoming edge; blocks whose
    /// credits cover their whole strong count gather in the non-root list,
    /// the others in the root list. Root-tracing phase: everything reachable
    /// from a root list entry is evacuated and unmarked. What remains on the
    /// non-root list is cycle garbage; it is finalized, its edges are
    /// released on the collector's side, and only then is it deallocated, so
    /// destructors may still observe their sibling blocks. Strong counts of
    /// surviving blocks never move, and the contract pins the reclaimed set
    /// exactly: a block alive at entry is gone afterwards if and only if it
    /// is [`crate::graph::cyclic_garbage`] of the candidate list.
    #[verifier::rlimit(100)]
    pub fn collect(&mut self)
        requires
            old(self).wf(),
            old(self).collector_state == STATES::COLLECTING,
        ensures
            final(self).wf(),
            final(self).possible_cycles@.len() == 0,
            final(self).n_blocks() == old(self).n_blocks(),
            final(self).thread_actions@ == old(self).thread_actions@,
            final(self).collector_state == old(self).collector_state,
            final(self).collector_version == old(self).collector_version,
            final(self).logs@ == old(self).logs@,
            final(self).stop == old(self).stop,
            final(self).spawned == old(self).spawned,
            final(self).running == old(self).running,
            final(self).n_acyclic_dropped == old(self).n_acyclic_dropped,
            final(self).n_cyclic_dropped >= old(self).n_cyclic_dropped,
            final(self).n_cyclic_dropped - old(self).n_cyclic_dropped == count_true(
                none_seq(final(self).blocks@),
            ) - count_true(none_seq(old(self).blocks@)),
            forall|i: int|
                #[trigger] final(self).live(i) ==> old(self).live(i) && final(self).counter(i)
                    == old(self).counter(i) && final(self).block(i).lm == old(self).block(i).lm
                    && final(self).block(i).elem == old(self).block(i).elem
                    && final(self).finalized(i) == old(self).finalized(i)
                    && final(self).mark_of(i) == Mark::NonMarked,
            old(self).possible_cycles@.len() == 0 ==> *final(self) == *old(self),
            forall|b: usize|
                (b as int) < old(self).n_blocks() && old(self).live(b as int) ==> (!final(self).live(b as int) <==> crate::graph::cyclic_garbage(
                    *old(self),
                    old(self).possible_cycles@,
                    b,
                )),
    {
        let ghost h0 = *old(self);
        let ghost pc0 = old(self).possible_cycles@;
        let mut root_list: Vec<usize> = Vec::new();
        let mut non_root_list: Vec<usize> = Vec::new();
        proof {
            assert forall|i: int|
                #![trigger self.mark_of(i)]
                self.live(i) implies self.mark_of(i) != Mark::Dirty && self.mark_of(i)
                != Mark::Traced by {}
            assert(self.tracing_inv(root_list@, non_root_list@));
            assert(self.collect_frame(h0));
            assert forall|x: usize| (x as int) < self.n_blocks() implies crate::graph::acct_at(
                *self,
                Seq::<usize>::empty(),
                x,
            ) by {
                crate::graph::lemma_traced_edges_zero(*self, x, self.n_blocks());
            }
        }

        // Counting phase over the candidate list.
        while self.possible_cycles.len() > 0
            invariant
                self.tracing_inv(root_list@, non_root_list@),
                self.collect_frame(h0),
                h0.possible_cycles@.len() == 0 ==> (*self == h0 && root_list@.len() == 0
                    && non_root_list@.len() == 0),
                crate::graph::acct(*self, Seq::<usize>::empty()),
                forall|i: int|
                    #![trigger self.mark_of(i)]
                    self.live(i) && self.mark_of(i) == Mark::Traced ==> crate::graph::reachable(
                        h0,
                        pc0,
                        i as usize,
                    ),
                forall|y: usize|
                    #[trigger] pc0.contains(y) ==> self.possible_cycles@.contains(y) || (self.live(
                        y as int,
                    ) && self.mark_of(y as int) == Mark::Traced),
                forall|y: usize| #[trigger]
                    self.possible_cycles@.contains(y) ==> pc0.contains(y),
            decreases self.possible_cycles@.len(),
        {
            let ghost before = *self;
            let r = match self.possible_cycles.pop() {
                Some(r) => r,
                None => vstd::pervasive::unreached(),
            };
            proof {
                assert(before.possible_cycles@[before.possible_cycles@.len() - 1] == r);
                assert(before.live(r as int) && before.mark_of(r as int) == Mark::PossibleCycles);
                if root_list@.contains(r) {
                    let k = choose|k: int| 0 <= k < root_list@.len() && root_list@[k] == r;
                    assert(before.mark_of(root_list@[k] as int) == Mark::Traced);
                    assert(false);
                }
                if non_root_list@.contains(r) {
                    let k = choose|k: int| 0 <= k < non_root_list@.len() && non_root_list@[k] == r;
                    assert(before.mark_of(non_root_list@[k] as int) == Mark::Traced);
                    assert(false);
                }
                crate::list::lemma_push_contains(root_list@, r);
                crate::list::lemma_push_no_dup(root_list@, r);
            }
            let mut cm = self.cm_of(r);
            cm.reset_tracing_counter();
            cm.mark(Mark::Traced);
            self.set_cm(r, cm);
            root_list.push(r);
            proof {
                let post = *self;
                let ghost popped = *old(self);
                self.lemma_len_bound();
                assert(post.mark_of(r as int) == Mark::Traced);
                assert(post.tracing(r as int) == 0);
                assert(post.counter(r as int) == before.counter(r as int));
                assert forall|j: int|
                    0 <= j < before.n_blocks() && j != r implies (#[trigger] post.blocks@[j])
                        == before.blocks@[j] by {}
                self.lemma_frame_cm_step(before, h0, r);
                assert forall|k: int|
                    0 <= k < post.possible_cycles@.len() implies post.live(
                    #[trigger] post.possible_cycles@[k] as int,
                ) && post.mark_of(post.possible_cycles@[k] as int) == Mark::PossibleCycles by {
                    let y = post.possible_cycles@[k];
                    assert(before.possible_cycles@[k] == y);
                    assert(before.live(y as int) && before.mark_of(y as int)
                        == Mark::PossibleCycles);
                    assert(before.possible_cycles@.no_duplicates());
                    assert(y != r);
                    assert(post.blocks@[y as int] == before.blocks@[y as int]);
                }
                assert forall|i: int|
                    #![trigger post.mark_of(i)]
                    post.live(i) && post.mark_of(i) == Mark::PossibleCycles implies post.possible_cycles@.contains(
                    i as usize,
                ) by {
                    assert(i != r);
                    assert(post.blocks@[i] == before.blocks@[i]);
                    assert(before.live(i) && before.mark_of(i) == Mark::PossibleCycles);
                    assert(before.possible_cycles@.contains(i as usize));
                    let k = choose|k: int|
                        0 <= k < before.possible_cycles@.len() && before.possible_cycles@[k]
                            == i as usize;
                    assert(k != before.possible_cycles@.len() - 1);
                    assert(post.possible_cycles@[k] == i as usize);
                }
                assert forall|i: int| #[trigger] post.live(i) implies 1 <= post.counter(i)
                    && post.tracing(i) <= post.counter(i) by {
                    if i != r {
                        assert(post.blocks@[i] == before.blocks@[i]);
                        assert(before.live(i));
                    }
                }
                assert forall|i: int|
                    #![trigger post.mark_of(i)]
                    post.live(i) implies post.mark_of(i) != Mark::Dirty by {
                    if i != r {
                        assert(post.blocks@[i] == before.blocks@[i]);
                        assert(before.live(i));
                        assert(post.mark_of(i) == before.mark_of(i));
                    }
                }
                assert forall|i: int|
                    #![trigger post.has_snapshot(i)]
                    post.live(i) && post.has_snapshot(i) implies post.logs@.contains(i as usize) by {
                    if i != r {
                        assert(post.blocks@[i] == before.blocks@[i]);
                        assert(before.live(i) && before.has_snapshot(i));
                    } else {
                        assert(post.has_snapshot(i) == before.has_snapshot(i));
                        assert(before.live(i));
                    }
                }
                assert forall|k: int|
                    0 <= k < root_list@.len() implies post.live(#[trigger] root_list@[k] as int)
                    && post.mark_of(root_list@[k] as int) == Mark::Traced && post.tracing(
                    root_list@[k] as int,
                ) < post.counter(root_list@[k] as int) by {
                    let y = root_list@[k];
                    if y != r {
                        assert(post.blocks@[y as int] == before.blocks@[y as int]);
                    }
                }
                assert forall|k: int|
                    0 <= k < non_root_list@.len() implies post.live(
                    #[trigger] non_root_list@[k] as int,
                ) && post.mark_of(non_root_list@[k] as int) == Mark::Traced && post.tracing(
                    non_root_list@[k] as int,
                ) == post.counter(non_root_list@[k] as int) by {
                    let y = non_root_list@[k];
                    assert(non_root_list@.contains(y));
                    assert(y != r);
                    assert(post.blocks@[y as int] == before.blocks@[y as int]);
                }
                assert forall|i: int|
                    #![trigger post.mark_of(i)]
                    post.live(i) && post.mark_of(i) == Mark::Traced implies root_list@.contains(
                    i as usize,
                ) || non_root_list@.contains(i as usize) by {
                    if i != r {
                        assert(post.blocks@[i] == before.blocks@[i]);
                        assert(before.live(i) && before.mark_of(i) == Mark::Traced);
                    } else {
                        assert(root_list@.last() == r);
                    }
                }
                assert forall|y: usize|
                    !(#[trigger] root_list@.contains(y) && #[trigger] non_root_list@.contains(
                        y,
                    )) by {}
                assert(self.tracing_inv(root_list@, non_root_list@));
                // counting bookkeeping: the fresh root has zero credits and
                // all of its edges pending
                assert(before.possible_cycles@.contains(r));
                assert(pc0.contains(r));
                lemma_frame_te(before, h0);
                assert(h0.live(r as int));
                crate::graph::lemma_reachable_base(h0, pc0, r);
                assert(post.spec_trace_edges(r as int) == before.spec_trace_edges(r as int));
                assert forall|x: usize| (x as int) < post.n_blocks() implies crate::graph::acct_at(
                    post,
                    post.spec_trace_edges(r as int),
                    x,
                ) by {
                    assert(crate::graph::acct_at(before, Seq::<usize>::empty(), x));
                    crate::graph::lemma_traced_edges_update(before, post, r, x, post.n_blocks());
                    assert(crate::graph::traced_occ(before, r, x) == 0);
                    assert(crate::graph::traced_occ(post, r, x) == crate::graph::occ(
                        post.spec_trace_edges(r as int),
                        x,
                    ));
                    assert(crate::graph::occ(Seq::<usize>::empty(), x) == 0);
                    if x != r {
                        if post.live(x as int) {
                            assert(post.blocks@[x as int] == before.blocks@[x as int]);
                        }
                    } else {
                        assert(post.tracing(r as int) == 0);
                        assert(post.counter(r as int) >= 1);
                    }
                }
                assert forall|i: int|
                    #![trigger post.mark_of(i)]
                    post.live(i) && post.mark_of(i) == Mark::Traced implies crate::graph::reachable(
                    h0,
                    pc0,
                    i as usize,
                ) by {
                    if i != r {
                        assert(post.blocks@[i] == before.blocks@[i]);
                        assert(before.live(i) && before.mark_of(i) == Mark::Traced);
                    } else {
                        post.lemma_len_bound();
                        assert(i as usize == r);
                    }
                }
                assert forall|y: usize|
                    #[trigger] pc0.contains(y) implies post.possible_cycles@.contains(y) || (
                post.live(y as int) && post.mark_of(y as int) == Mark::Traced) by {
                    if before.possible_cycles@.contains(y) {
                        if y == r {
                            assert(post.mark_of(r as int) == Mark::Traced);
                        } else {
                            let k = choose|k: int|
                                0 <= k < before.possible_cycles@.len()
                                    && before.possible_cycles@[k] == y;
                            assert(k != before.possible_cycles@.len() - 1);
                            assert(post.possible_cycles@[k] == y);
                        }
                    } else {
                        assert(before.live(y as int) && before.mark_of(y as int) == Mark::Traced);
                        if y != r {
                            assert(post.blocks@[y as int] == before.blocks@[y as int]);
                        }
                    }
                }
                assert forall|y: usize| #[trigger]
                    post.possible_cycles@.contains(y) implies pc0.contains(y) by {
                    let k = choose|k: int|
                        0 <= k < post.possible_cycles@.len() && post.possible_cycles@[k] == y;
                    assert(before.possible_cycles@[k] == y);
                    assert(before.possible_cycles@.contains(y));
                }
            }
            self.trace_counting(r, &mut root_list, &mut non_root_list, Ghost(h0), Ghost(pc0));
        }

        let ghost h2s = *self;
        let ghost rl2 = root_list@;
        proof {
            lemma_frame_te(h2s, h0);
            // the counting phase has visited everything the candidates reach,
            // and a block's tracing credits are exactly its traced in-edges
            assert forall|a: usize, x: usize|
                #![trigger h2s.mark_of(a as int), h0.spec_trace_edges(a as int).contains(x)]
                h2s.live(a as int) && h2s.mark_of(a as int) == Mark::Traced && h2s.live(x as int)
                    && h0.spec_trace_edges(a as int).contains(x) implies h2s.mark_of(x as int)
                == Mark::Traced by {
                h2s.lemma_len_bound();
                assert(crate::graph::acct_at(h2s, Seq::<usize>::empty(), x));
                assert(h2s.spec_trace_edges(a as int) == h0.spec_trace_edges(a as int));
                if h2s.mark_of(x as int) != Mark::Traced {
                    crate::graph::lemma_occ_contains(h2s.spec_trace_edges(a as int), x);
                    crate::graph::lemma_traced_edges_lb(h2s, a, x, h2s.n_blocks());
                    assert(crate::graph::occ(Seq::<usize>::empty(), x) == 0);
                    assert(false);
                }
            }
            let traced_p = |b: usize| h2s.live(b as int) && h2s.mark_of(b as int) == Mark::Traced;
            assert forall|b: usize| crate::graph::reachable(h0, pc0, b) implies h2s.live(b as int)
                && h2s.mark_of(b as int) == Mark::Traced by {
                let f = choose|f: nat| crate::graph::reaches(h0, pc0, b, f);
                assert forall|y: usize| h0.live(y as int) && pc0.contains(y) implies #[trigger] traced_p(
                    y,
                ) by {
                    assert(self.possible_cycles@.contains(y) || (self.live(y as int)
                        && self.mark_of(y as int) == Mark::Traced));
                }
                assert forall|a: usize, x: usize|
                    #![trigger traced_p(a), h0.spec_trace_edges(a as int).contains(x)]
                    traced_p(a) && h0.live(x as int) && h0.spec_trace_edges(a as int).contains(
                    x,
                ) implies traced_p(x) by {
                    assert(h2s.live(x as int));
                }
                crate::graph::lemma_reachable_closed(h0, pc0, traced_p, b, f);
                assert(traced_p(b));
            }
            assert forall|b: usize|
                h2s.live(b as int) && (#[trigger] h2s.mark_of(b as int)) == Mark::Traced implies crate::graph::reachable(
                h0,
                pc0,
                b,
            ) by {}
            assert forall|b: int|
                0 <= b < h0.n_blocks() implies ((h2s.live(b) && h2s.mark_of(b) == Mark::Traced)
                == crate::graph::reachable(h0, pc0, b as usize)) by {
                h2s.lemma_len_bound();
                assert((b as usize) as int == b);
                if h2s.live(b) && h2s.mark_of(b) == Mark::Traced {
                    assert(h2s.live((b as usize) as int) && h2s.mark_of((b as usize) as int)
                        == Mark::Traced);
                    assert(crate::graph::reachable(h0, pc0, b as usize));
                }
                if crate::graph::reachable(h0, pc0, b as usize) {
                    assert(h2s.live((b as usize) as int) && h2s.mark_of((b as usize) as int)
                        == Mark::Traced);
                }
            }
            assert forall|b: int|
                0 <= b < h0.n_blocks() && h0.live(b) implies (#[trigger] h2s.spec_trace_edges(b))
                == h0.spec_trace_edges(b) by {
                assert(h2s.live(b));
            }
            assert forall|c: usize|
                crate::graph::in_traced(h2s, c) == (#[trigger] crate::graph::internal_edges_into(
                    h0,
                    pc0,
                    c,
                )) by {
                crate::graph::lemma_sums_agree(h2s, h0, pc0, c, h2s.n_blocks());
            }
            // the root list holds exactly the externally live closure blocks
            assert forall|y: usize| #[trigger] rl2.contains(y) implies crate::graph::externally_live(
                h0,
                pc0,
                y,
            ) by {
                let k = choose|k: int| 0 <= k < rl2.len() && rl2[k] == y;
                assert(h2s.live(rl2[k] as int) && h2s.mark_of(rl2[k] as int) == Mark::Traced
                    && h2s.tracing(rl2[k] as int) < h2s.counter(rl2[k] as int));
                h2s.lemma_len_bound();
                assert(crate::graph::acct_at(h2s, Seq::<usize>::empty(), y));
                assert(h2s.tracing(y as int) == crate::graph::in_traced(h2s, y));
                assert(h0.counter(y as int) == h2s.counter(y as int));
            }
            assert forall|x: usize| #[trigger] crate::graph::externally_live(h0, pc0, x) implies rl2.contains(
                x,
            ) by {
                assert(h2s.live(x as int) && h2s.mark_of(x as int) == Mark::Traced);
                assert(rl2.contains(x) || non_root_list@.contains(x));
                if non_root_list@.contains(x) {
                    let k = choose|k: int|
                        0 <= k < non_root_list@.len() && non_root_list@[k] == x;
                    assert(h2s.tracing(non_root_list@[k] as int) == h2s.counter(
                        non_root_list@[k] as int,
                    ));
                    h2s.lemma_len_bound();
                    assert(crate::graph::acct_at(h2s, Seq::<usize>::empty(), x));
                    assert(crate::graph::in_traced(h2s, x) >= h2s.counter(x as int));
                    assert(false);
                }
            }
        }

        // Root-tracing phase: evacuate everything externally reachable.
        while root_list.len() > 0
            invariant
                self.tracing_inv(root_list@, non_root_list@),
                self.collect_frame(h0),
                self.possible_cycles@.len() == 0,
                h0.possible_cycles@.len() == 0 ==> (*self == h0 && root_list@.len() == 0
                    && non_root_list@.len() == 0),
                self.n_blocks() == h2s.n_blocks(),
                forall|i: int| self.live(i) == h2s.live(i),
                forall|b: usize|
                    #[trigger] crate::graph::reachable(h0, pc0, b) <==> (h2s.live(b as int)
                        && h2s.mark_of(b as int) == Mark::Traced),
                forall|y: usize|
                    #[trigger] rl2.contains(y) <==> crate::graph::externally_live(h0, pc0, y),
                forall|y: usize|
                    #[trigger] rl2.contains(y) ==> h2s.live(y as int) && h2s.mark_of(y as int)
                        == Mark::Traced && h0.live(y as int),
                forall|a: usize, x: usize|
                    #![trigger h2s.mark_of(a as int), h0.spec_trace_edges(a as int).contains(x)]
                    h2s.live(a as int) && h2s.mark_of(a as int) == Mark::Traced && h2s.live(
                        x as int,
                    ) && h0.spec_trace_edges(a as int).contains(x) ==> h2s.mark_of(x as int)
                        == Mark::Traced,
                forall|a: usize|
                    (a as int) < h2s.n_blocks() && #[trigger] evacuated(*self, h2s, a)
                        ==> crate::graph::reachable(h0, rl2, a),
                forall|a: usize, x: usize|
                    #![trigger evacuated(*self, h2s, a), h0.spec_trace_edges(a as int).contains(x)]
                    (a as int) < h2s.n_blocks() && evacuated(*self, h2s, a) && h0.live(x as int)
                        && h0.spec_trace_edges(a as int).contains(x) ==> !(self.live(x as int)
                        && self.mark_of(x as int) == Mark::Traced),
                forall|y: usize|
                    #[trigger] rl2.contains(y) ==> root_list@.contains(y) || evacuated(
                        *self,
                        h2s,
                        y,
                    ),
                forall|y: usize| #[trigger] root_list@.contains(y) ==> rl2.contains(y),
                forall|c: int|
                    self.live(c) && (#[trigger] self.mark_of(c)) == Mark::Traced ==> h2s.mark_of(c)
                        == Mark::Traced && self.blocks@[c] == h2s.blocks@[c],
            decreases root_list@.len(),
        {
            let ghost before = *self;
            let ghost rl0 = root_list@;
            let r = match root_list.pop() {
                Some(r) => r,
                None => vstd::pervasive::unreached(),
            };
            proof {
                assert(rl0[rl0.len() - 1] == r);
                assert(rl0.contains(r));
                assert(rl2.contains(r));
                assert(before.live(r as int) && before.mark_of(r as int) == Mark::Traced);
            }
            let mut cm = self.cm_of(r);
            cm.mark(Mark::NonMarked);
            self.set_cm(r, cm);
            proof {
                let post = *self;
                self.lemma_len_bound();
                assert(post.mark_of(r as int) == Mark::NonMarked);
                assert forall|j: int|
                    0 <= j < before.n_blocks() && j != r implies (#[trigger] post.blocks@[j])
                        == before.blocks@[j] by {}
                self.lemma_frame_cm_step(before, h0, r);
                assert forall|k: int|
                    0 <= k < post.possible_cycles@.len() implies post.live(
                    #[trigger] post.possible_cycles@[k] as int,
                ) && post.mark_of(post.possible_cycles@[k] as int) == Mark::PossibleCycles by {}
                assert forall|i: int|
                    #![trigger post.mark_of(i)]
                    post.live(i) && post.mark_of(i) == Mark::PossibleCycles implies post.possible_cycles@.contains(
                    i as usize,
                ) by {
                    assert(i != r);
                    assert(post.blocks@[i] == before.blocks@[i]);
                    assert(before.live(i) && before.mark_of(i) == Mark::PossibleCycles);
                }
                assert forall|i: int| #[trigger] post.live(i) implies 1 <= post.counter(i)
                    && post.tracing(i) <= post.counter(i) by {
                    if i != r {
                        assert(post.blocks@[i] == before.blocks@[i]);
                        assert(before.live(i));
                    }
                }
                assert forall|i: int|
                    #![trigger post.mark_of(i)]
                    post.live(i) implies post.mark_of(i) != Mark::Dirty by {
                    if i != r {
                        assert(post.blocks@[i] == before.blocks@[i]);
                        assert(before.live(i));
                        assert(post.mark_of(i) == before.mark_of(i));
                    }
                }
                assert forall|i: int|
                    #![trigger post.has_snapshot(i)]
                    post.live(i) && post.has_snapshot(i) implies post.logs@.contains(i as usize) by {
                    if i != r {
                        assert(post.blocks@[i] == before.blocks@[i]);
                        assert(before.live(i) && before.has_snapshot(i));
                    } else {
                        assert(post.has_snapshot(i) == before.has_snapshot(i));
                        assert(before.live(i));
                    }
                }
                assert forall|k: int|
                    0 <= k < root_list@.len() implies post.live(#[trigger] root_list@[k] as int)
                    && post.mark_of(root_list@[k] as int) == Mark::Traced && post.tracing(
                    root_list@[k] as int,
                ) < post.counter(root_list@[k] as int) by {
                    let y = root_list@[k];
                    assert(rl0[k] == y);
                    assert(rl0.no_duplicates());
                    assert(y != r);
                    assert(post.blocks@[y as int] == before.blocks@[y as int]);
                }
                assert forall|k: int|
                    0 <= k < non_root_list@.len() implies post.live(
                    #[trigger] non_root_list@[k] as int,
                ) && post.mark_of(non_root_list@[k] as int) == Mark::Traced && post.tracing(
                    non_root_list@[k] as int,
                ) == post.counter(non_root_list@[k] as int) by {
                    let y = non_root_list@[k];
                    assert(non_root_list@.contains(y));
                    if rl0.contains(y) {
                        assert(false);
                    }
                    assert(y != r);
                    assert(post.blocks@[y as int] == before.blocks@[y as int]);
                }
                assert forall|i: int|
                    #![trigger post.mark_of(i)]
                    post.live(i) && post.mark_of(i) == Mark::Traced implies root_list@.contains(
                    i as usize,
                ) || non_root_list@.contains(i as usize) by {
                    assert(i != r);
                    assert(post.blocks@[i] == before.blocks@[i]);
                    assert(before.live(i) && before.mark_of(i) == Mark::Traced);
                    assert(rl0.contains(i as usize) || non_root_list@.contains(i as usize));
                    if rl0.contains(i as usize) {
                        let k = choose|k: int| 0 <= k < rl0.len() && rl0[k] == i as usize;
                        assert(k != rl0.len() - 1);
                        assert(root_list@[k] == i as usize);
                    }
                }
                assert forall|y: usize|
                    !(#[trigger] root_list@.contains(y) && #[trigger] non_root_list@.contains(
                        y,
                    )) by {
                    if root_list@.contains(y) {
                        let k = choose|k: int| 0 <= k < root_list@.len() && root_list@[k] == y;
                        assert(rl0[k] == y);
                        assert(rl0.contains(y));
                    }
                }
                assert(self.tracing_inv(root_list@, non_root_list@));
                // the freshly unmarked root joins the evacuated set, with all
                // of its edges pending in the trace it is about to run
                lemma_frame_te(post, h0);
                assert forall|i: int| post.live(i) == h2s.live(i) by {
                    if 0 <= i < before.n_blocks() && i != r {
                        assert(post.blocks@[i] == before.blocks@[i]);
                    }
                }
                assert(evacuated(post, h2s, r));
                assert(h0.live(r as int));
                crate::graph::lemma_reachable_base(h0, rl2, r);
                assert forall|a: usize|
                    (a as int) < h2s.n_blocks() && #[trigger] evacuated(post, h2s, a) implies crate::graph::reachable(
                    h0,
                    rl2,
                    a,
                ) by {
                    if a != r {
                        assert(post.blocks@[a as int] == before.blocks@[a as int]);
                        assert(evacuated(before, h2s, a));
                    }
                }
                assert forall|a: usize, x: usize|
                    #![trigger evacuated(post, h2s, a), h0.spec_trace_edges(a as int).contains(x)]
                    (a as int) < h2s.n_blocks() && evacuated(post, h2s, a) && h0.live(x as int)
                        && h0.spec_trace_edges(a as int).contains(x) implies !(post.live(x as int)
                        && post.mark_of(x as int) == Mark::Traced) || post.spec_trace_edges(
                    r as int,
                ).contains(x) by {
                    if a == r {
                        assert(post.spec_trace_edges(r as int) == h0.spec_trace_edges(r as int));
                    } else {
                        assert(post.blocks@[a as int] == before.blocks@[a as int]);
                        assert(evacuated(before, h2s, a));
                        if post.live(x as int) && post.mark_of(x as int) == Mark::Traced {
                            assert(x != r);
                            assert(post.blocks@[x as int] == before.blocks@[x as int]);
                            assert(before.live(x as int) && before.mark_of(x as int)
                                == Mark::Traced);
                            assert(false);
                        }
                    }
                }
                assert forall|y: usize|
                    #[trigger] rl2.contains(y) implies root_list@.contains(y) || evacuated(
                    post,
                    h2s,
                    y,
                ) by {
                    if !root_list@.contains(y) {
                        if y == r {
                            assert(evacuated(post, h2s, r));
                        } else if rl0.contains(y) {
                            let k = choose|k: int| 0 <= k < rl0.len() && rl0[k] == y;
                            assert(k != rl0.len() - 1);
                            assert(root_list@[k] == y);
                            assert(false);
                        } else {
                            assert(evacuated(before, h2s, y));
                            assert(post.blocks@[y as int] == before.blocks@[y as int]);
                        }
                    }
                }
                assert forall|c2: int|
                    post.live(c2) && (#[trigger] post.mark_of(c2)) == Mark::Traced implies h2s.mark_of(
                    c2,
                ) == Mark::Traced && post.blocks@[c2] == h2s.blocks@[c2] by {
                    assert(c2 != r);
                    assert(post.blocks@[c2] == before.blocks@[c2]);
                    assert(before.live(c2) && before.mark_of(c2) == Mark::Traced);
                }
            }
            self.trace_root(r, &mut root_list, &mut non_root_list, Ghost(h0), Ghost(h2s), Ghost(rl2));
        }

        let ghost h3 = *self;
        proof {
            // what survives the root trace still marked is exactly the cycle
            // garbage of the candidate list
            assert forall|b: usize|
                (h3.live(b as int) && h3.mark_of(b as int) == Mark::Traced)
                    <==> #[trigger] crate::graph::cyclic_garbage(h0, pc0, b) by {
                if h3.live(b as int) && h3.mark_of(b as int) == Mark::Traced {
                    assert(h2s.mark_of(b as int) == Mark::Traced && h3.blocks@[b as int]
                        == h2s.blocks@[b as int]);
                    assert(crate::graph::reachable(h0, pc0, b));
                    if crate::graph::saved(h0, pc0, b) {
                        let x = choose|x: usize|
                            crate::graph::externally_live(h0, pc0, x) && crate::graph::reachable(
                                h0,
                                seq![x],
                                b,
                            );
                        assert(rl2.contains(x));
                        let f = choose|f: nat| crate::graph::reaches(h0, seq![x], b, f);
                        assert forall|y: usize| seq![x].contains(y) implies #[trigger] rl2.contains(
                            y,
                        ) by {
                            let k = choose|k: int| 0 <= k < seq![x].len() && seq![x][k] == y;
                            assert(seq![x][0] == x);
                        }
                        crate::graph::lemma_reaches_mono_srcs(h0, seq![x], rl2, b, f);
                        let evac_p = |bb: usize| h2s.live(bb as int) && h2s.mark_of(bb as int)
                            == Mark::Traced && !(h3.live(bb as int) && h3.mark_of(bb as int)
                            == Mark::Traced);
                        assert forall|y: usize| h0.live(y as int) && rl2.contains(y) implies #[trigger] evac_p(
                            y,
                        ) by {
                            assert(root_list@.contains(y) || evacuated(h3, h2s, y));
                            assert(root_list@.len() == 0);
                            if root_list@.contains(y) {
                                let k = choose|k: int|
                                    0 <= k < root_list@.len() && root_list@[k] == y;
                            }
                        }
                        assert forall|a: usize, x2: usize|
                            #![trigger evac_p(a), h0.spec_trace_edges(a as int).contains(x2)]
                            evac_p(a) && h0.live(x2 as int) && h0.spec_trace_edges(
                            a as int,
                        ).contains(x2) implies evac_p(x2) by {
                            h0.lemma_len_bound();
                            assert(evacuated(h3, h2s, a));
                            assert(!(h3.live(x2 as int) && h3.mark_of(x2 as int) == Mark::Traced));
                            assert(h2s.live(x2 as int));
                            assert(h2s.mark_of(x2 as int) == Mark::Traced);
                        }
                        crate::graph::lemma_reachable_closed(h0, rl2, evac_p, b, f);
                        assert(evac_p(b));
                        assert(false);
                    }
                }
                if crate::graph::cyclic_garbage(h0, pc0, b) {
                    assert(crate::graph::reachable(h0, pc0, b));
                    assert(h2s.live(b as int) && h2s.mark_of(b as int) == Mark::Traced);
                    assert(h3.live(b as int));
                    if h3.mark_of(b as int) != Mark::Traced {
                        assert(evacuated(h3, h2s, b));
                        assert(crate::graph::reachable(h0, rl2, b));
                        let f = choose|f: nat| crate::graph::reaches(h0, rl2, b, f);
                        crate::graph::lemma_reaches_split(h0, rl2, b, f);
                        let x = choose|x: usize|
                            rl2.contains(x) && crate::graph::reaches(h0, seq![x], b, f);
                        assert(crate::graph::externally_live(h0, pc0, x));
                        assert(crate::graph::reachable(h0, seq![x], b));
                        assert(crate::graph::saved(h0, pc0, b));
                        assert(false);
                    }
                }
            }
        }

        proof {
            lemma_frame_te(h3, h0);
        }

        // Reclamation, first pass: run finalization on the garbage.
        let mut k: usize = 0;
        while k < non_root_list.len()
            invariant
                0 <= k <= non_root_list@.len(),
                forall|b: usize|
                    (h3.live(b as int) && h3.mark_of(b as int) == Mark::Traced)
                        <==> #[trigger] crate::graph::cyclic_garbage(h0, pc0, b),
                forall|i: int| h3.live(i) == h0.live(i),
                self.tracing_inv(root_list@, non_root_list@),
                root_list@.len() == 0,
                self.possible_cycles@.len() == 0,
                h0.possible_cycles@.len() == 0 ==> (*self == h0 && root_list@.len() == 0
                    && non_root_list@.len() == 0),
                self.n_blocks() == h3.n_blocks(),
                forall|i: int| self.live(i) == h3.live(i),
                forall|i: int|
                    h3.live(i) && !non_root_list@.contains(i as usize) ==> (
                    #[trigger] self.blocks@[i]) == h3.blocks@[i],
                forall|i: int|
                    #[trigger] h3.live(i) ==> self.counter(i) == h3.counter(i) && self.tracing(i)
                        == h3.tracing(i) && self.mark_of(i) == h3.mark_of(i) && self.block(i).lm
                        == h3.block(i).lm && self.block(i).elem == h3.block(i).elem,
                self.thread_actions@ == h3.thread_actions@,
                self.collector_state == h3.collector_state,
                self.collector_version == h3.collector_version,
                self.logs@ == h3.logs@,
                self.stop == h3.stop,
                self.spawned == h3.spawned,
                self.running == h3.running,
                self.n_acyclic_dropped == h3.n_acyclic_dropped,
                self.n_cyclic_dropped == h3.n_cyclic_dropped,
            decreases non_root_list@.len() - k,
        {
            let ghost before = *self;
            let b = non_root_list[k];
            proof {
                assert(non_root_list@[k as int] == b);
                assert(before.live(b as int));
            }
            let mut cm = self.cm_of(b);
            if cm.needs_finalization() {
                cm.set_finalized(true);
                self.set_cm(b, cm);
                proof {
                    let post = *self;
                    self.lemma_len_bound();
                    assert forall|i: int| post.live(i) == h3.live(i) by {
                        if 0 <= i < before.n_blocks() && i != b {
                            assert(post.blocks@[i] == before.blocks@[i]);
                        }
                    }
                    assert forall|i: int|
                        h3.live(i) && !non_root_list@.contains(i as usize) implies (
                        #[trigger] post.blocks@[i]) == h3.blocks@[i] by {
                        assert(non_root_list@.contains(b));
                        assert(i != b);
                        assert(post.blocks@[i] == before.blocks@[i]);
                    }
                    assert forall|i: int| #[trigger] h3.live(i) implies post.counter(i)
                        == h3.counter(i) && post.tracing(i) == h3.tracing(i) && post.mark_of(i)
                        == h3.mark_of(i) && post.block(i).lm == h3.block(i).lm && post.block(
                        i,
                    ).elem == h3.block(i).elem by {
                        if i != b {
                            assert(post.blocks@[i] == before.blocks@[i]);
                        }
                    }
                    assert forall|kk: int|
                        0 <= kk < post.possible_cycles@.len() implies post.live(
                        #[trigger] post.possible_cycles@[kk] as int,
                    ) && post.mark_of(post.possible_cycles@[kk] as int) == Mark::PossibleCycles by {}
                    assert forall|i: int|
                        #![trigger post.mark_of(i)]
                        post.live(i) implies post.mark_of(i) != Mark::Dirty && (post.mark_of(i)
                        == Mark::PossibleCycles ==> post.possible_cycles@.contains(i as usize)) by {
                        if i != b {
                            assert(post.blocks@[i] == before.blocks@[i]);
                            assert(before.live(i));
                            assert(post.mark_of(i) == before.mark_of(i));
                        } else {
                            assert(post.mark_of(i) == before.mark_of(i));
                            assert(before.live(i));
                        }
                    }
                    assert forall|i: int| #[trigger] post.live(i) implies 1 <= post.counter(i)
                        && post.tracing(i) <= post.counter(i) by {
                        if i != b {
                            assert(post.blocks@[i] == before.blocks@[i]);
                            assert(before.live(i));
                        } else {
                            assert(post.counter(i) == before.counter(i) && post.tracing(i)
                                == before.tracing(i));
                            assert(before.live(i));
                        }
                    }
                    assert forall|i: int|
                        #![trigger post.has_snapshot(i)]
                        post.live(i) && post.has_snapshot(i) implies post.logs@.contains(
                        i as usize,
                    ) by {
                        if i != b {
                            assert(post.blocks@[i] == before.blocks@[i]);
                            assert(before.live(i) && before.has_snapshot(i));
                        } else {
                            assert(post.has_snapshot(i) == before.has_snapshot(i));
                            assert(before.live(i));
                        }
                    }
                    assert(none_seq(post.blocks@) == none_seq(before.blocks@));
                    assert forall|kk: int|
                        0 <= kk < non_root_list@.len() implies post.live(
                        #[trigger] non_root_list@[kk] as int,
                    ) && post.mark_of(non_root_list@[kk] as int) == Mark::Traced && post.tracing(
                        non_root_list@[kk] as int,
                    ) == post.counter(non_root_list@[kk] as int) by {
                        let y = non_root_list@[kk];
                        if y != b {
                            assert(post.blocks@[y as int] == before.blocks@[y as int]);
                        } else {
                            assert(post.mark_of(y as int) == before.mark_of(y as int));
                        }
                    }
                    assert forall|i: int|
                        #![trigger post.mark_of(i)]
                        post.live(i) && post.mark_of(i) == Mark::Traced implies root_list@.contains(
                        i as usize,
                    ) || non_root_list@.contains(i as usize) by {
                        if i != b {
                            assert(post.blocks@[i] == before.blocks@[i]);
                            assert(before.live(i) && before.mark_of(i) == Mark::Traced);
                        } else {
                            assert(before.mark_of(i) == Mark::Traced);
                        }
                    }
                    assert(self.tracing_inv(root_list@, non_root_list@));
                }
            }
            k = k + 1;
        }

        let ghost hA = *self;

        // Reclamation, second pass: drop the garbage values in place. In
        // this model that means releasing their outgoing edges; the blocks
        // themselves stay allocated, so a destructor can still reach its
        // siblings. Dropped on the collector's side: no deltas are pushed.
        let mut k2: usize = 0;
        while k2 < non_root_list.len()
            invariant
                0 <= k2 <= non_root_list@.len(),
                forall|b: usize|
                    (h3.live(b as int) && h3.mark_of(b as int) == Mark::Traced)
                        <==> #[trigger] crate::graph::cyclic_garbage(h0, pc0, b),
                forall|i: int| h3.live(i) == h0.live(i),
                forall|i: int| hA.live(i) == h3.live(i),
                forall|i: int| #![trigger hA.mark_of(i)] h3.live(i) ==> hA.mark_of(i) == h3.mark_of(i),
                self.tracing_inv(root_list@, non_root_list@),
                root_list@.len() == 0,
                self.possible_cycles@.len() == 0,
                h0.possible_cycles@.len() == 0 ==> (*self == h0 && root_list@.len() == 0
                    && non_root_list@.len() == 0),
                self.n_blocks() == hA.n_blocks(),
                forall|i: int| self.live(i) == hA.live(i),
                forall|i: int|
                    hA.live(i) && !non_root_list@.contains(i as usize) ==> (
                    #[trigger] self.blocks@[i]) == hA.blocks@[i],
                forall|i: int|
                    #[trigger] hA.live(i) ==> self.counter(i) == hA.counter(i) && self.tracing(i)
                        == hA.tracing(i) && self.mark_of(i) == hA.mark_of(i) && self.finalized(i)
                        == hA.finalized(i) && self.block(i).elem == hA.block(i).elem,
                self.thread_actions@ == hA.thread_actions@,
                self.collector_state == hA.collector_state,
                self.collector_version == hA.collector_version,
                self.logs@ == hA.logs@,
                self.stop == hA.stop,
                self.spawned == hA.spawned,
                self.running == hA.running,
                self.n_acyclic_dropped == hA.n_acyclic_dropped,
                self.n_cyclic_dropped == hA.n_cyclic_dropped,
            decreases non_root_list@.len() - k2,
        {
            let ghost before = *self;
            let b = non_root_list[k2];
            proof {
                assert(non_root_list@[k2 as int] == b);
                assert(before.live(b as int));
            }
            self.set_edges(b, Vec::new());
            proof {
                let post = *self;
                self.lemma_len_bound();
                assert forall|i: int| post.live(i) == hA.live(i) by {
                    if 0 <= i < before.n_blocks() && i != b {
                        assert(post.blocks@[i] == before.blocks@[i]);
                    }
                }
                assert forall|i: int|
                    hA.live(i) && !non_root_list@.contains(i as usize) implies (
                    #[trigger] post.blocks@[i]) == hA.blocks@[i] by {
                    assert(non_root_list@.contains(b));
                    assert(i != b);
                    assert(post.blocks@[i] == before.blocks@[i]);
                }
                assert forall|i: int| #[trigger] hA.live(i) implies post.counter(i) == hA.counter(
                    i,
                ) && post.tracing(i) == hA.tracing(i) && post.mark_of(i) == hA.mark_of(i)
                    && post.finalized(i) == hA.finalized(i) && post.block(i).elem == hA.block(
                    i,
                ).elem by {
                    if i != b {
                        assert(post.blocks@[i] == before.blocks@[i]);
                    }
                }
                assert forall|kk: int|
                    0 <= kk < post.possible_cycles@.len() implies post.live(
                    #[trigger] post.possible_cycles@[kk] as int,
                ) && post.mark_of(post.possible_cycles@[kk] as int) == Mark::PossibleCycles by {}
                assert forall|i: int|
                    #![trigger post.mark_of(i)]
                    post.live(i) implies post.mark_of(i) != Mark::Dirty && (post.mark_of(i)
                    == Mark::PossibleCycles ==> post.possible_cycles@.contains(i as usize)) by {
                    if i != b {
                        assert(post.blocks@[i] == before.blocks@[i]);
                        assert(before.live(i));
                        assert(post.mark_of(i) == before.mark_of(i));
                    } else {
                        assert(post.mark_of(i) == before.mark_of(i));
                        assert(before.live(i));
                    }
                }
                assert forall|i: int| #[trigger] post.live(i) implies 1 <= post.counter(i)
                    && post.tracing(i) <= post.counter(i) by {
                    if i != b {
                        assert(post.blocks@[i] == before.blocks@[i]);
                        assert(before.live(i));
                    } else {
                        assert(post.counter(i) == before.counter(i) && post.tracing(i)
                            == before.tracing(i));
                        assert(before.live(i));
                    }
                }
                assert forall|i: int|
                    #![trigger post.has_snapshot(i)]
                    post.live(i) && post.has_snapshot(i) implies post.logs@.contains(i as usize) by {
                    if i != b {
                        assert(post.blocks@[i] == before.blocks@[i]);
                        assert(before.live(i) && before.has_snapshot(i));
                    } else {
                        assert(post.has_snapshot(i) == before.has_snapshot(i));
                        assert(before.live(i));
                    }
                }
                assert(none_seq(post.blocks@) == none_seq(before.blocks@));
                assert forall|kk: int|
                    0 <= kk < non_root_list@.len() implies post.live(
                    #[trigger] non_root_list@[kk] as int,
                ) && post.mark_of(non_root_list@[kk] as int) == Mark::Traced && post.tracing(
                    non_root_list@[kk] as int,
                ) == post.counter(non_root_list@[kk] as int) by {
                    let y = non_root_list@[kk];
                    if y != b {
                        assert(post.blocks@[y as int] == before.blocks@[y as int]);
                    } else {
                        assert(post.mark_of(y as int) == before.mark_of(y as int));
                    }
                }
                assert forall|i: int|
                    #![trigger post.mark_of(i)]
                    post.live(i) && post.mark_of(i) == Mark::Traced implies root_list@.contains(
                    i as usize,
                ) || non_root_list@.contains(i as usize) by {
                    if i != b {
                        assert(post.blocks@[i] == before.blocks@[i]);
                        assert(before.live(i) && before.mark_of(i) == Mark::Traced);
                    } else {
                        assert(before.mark_of(i) == Mark::Traced);
                    }
                }
                assert(self.tracing_inv(root_list@, non_root_list@));
            }
            k2 = k2 + 1;
        }

        let ghost hB = *self;

        proof {
            // at this point the still-marked blocks are exactly the garbage
            assert forall|b: usize|
                (hB.live(b as int) && hB.mark_of(b as int) == Mark::Traced)
                    <==> #[trigger] crate::graph::cyclic_garbage(h0, pc0, b) by {
                if (b as int) < hB.n_blocks() {
                    assert(hB.live(b as int) == hA.live(b as int));
                    if hA.live(b as int) {
                        assert(hB.mark_of(b as int) == hA.mark_of(b as int));
                        assert(hA.mark_of(b as int) == h3.mark_of(b as int));
                    }
                } else {
                    if crate::graph::cyclic_garbage(h0, pc0, b) {
                        let f = choose|f: nat| crate::graph::reaches(h0, pc0, b, f);
                        assert(h0.live(b as int));
                        assert(false);
                    }
                }
            }
        }

        // Reclamation, third pass: deallocate.
        let mut k3: usize = 0;
        while k3 < non_root_list.len()
            invariant
                0 <= k3 <= non_root_list@.len(),
                forall|b: usize|
                    (hB.live(b as int) && hB.mark_of(b as int) == Mark::Traced)
                        <==> #[trigger] crate::graph::cyclic_garbage(h0, pc0, b),
                forall|i: int|
                    #![trigger hB.mark_of(i)]
                    hB.live(i) && hB.mark_of(i) == Mark::Traced ==> non_root_list@.contains(
                        i as usize,
                    ),
                forall|i: int| hB.live(i) == h0.live(i),
                forall|m: int|
                    0 <= m < non_root_list@.len() ==> hB.live(#[trigger] non_root_list@[m] as int)
                        && hB.mark_of(non_root_list@[m] as int) == Mark::Traced,
                non_root_list@.no_duplicates(),
                self.possible_cycles@.len() == 0,
                h0.possible_cycles@.len() == 0 ==> (*self == h0 && root_list@.len() == 0
                    && non_root_list@.len() == 0),
                self.n_blocks() == hB.n_blocks(),
                forall|m: int|
                    k3 <= m < non_root_list@.len() ==> self.live(
                        #[trigger] non_root_list@[m] as int,
                    ) && self.mark_of(non_root_list@[m] as int) == Mark::Traced,
                forall|m: int| 0 <= m < k3 ==> !self.live(#[trigger] non_root_list@[m] as int),
                forall|i: int| #[trigger] self.live(i) ==> hB.live(i),
                forall|i: int|
                    hB.live(i) && !non_root_list@.contains(i as usize) ==> (
                    #[trigger] self.blocks@[i]) == hB.blocks@[i],
                forall|i: int|
                    #[trigger] self.live(i) ==> self.counter(i) == hB.counter(i) && self.tracing(i)
                        == hB.tracing(i) && self.mark_of(i) == hB.mark_of(i) && self.block(i).lm
                        == hB.block(i).lm && self.block(i).elem == hB.block(i).elem
                        && self.finalized(i) == hB.finalized(i),
                forall|i: int|
                    #![trigger self.mark_of(i)]
                    self.live(i) ==> (self.mark_of(i) == Mark::NonMarked || self.mark_of(i)
                        == Mark::Traced),
                forall|i: int|
                    #![trigger self.mark_of(i)]
                    self.live(i) && self.mark_of(i) == Mark::Traced ==> exists|m: int|
                        k3 <= m < non_root_list@.len() && non_root_list@[m] == i as usize,
                forall|i: int|
                    #[trigger] self.live(i) ==> 1 <= self.counter(i) && self.tracing(i)
                        <= self.counter(i),
                forall|i: int|
                    #![trigger self.has_snapshot(i)]
                    self.live(i) && self.has_snapshot(i) ==> self.logs@.contains(i as usize),
                self.n_acyclic_dropped + self.n_cyclic_dropped == count_true(
                    none_seq(self.blocks@),
                ),
                self.thread_actions@ == hB.thread_actions@,
                self.collector_state == hB.collector_state,
                self.collector_version == hB.collector_version,
                self.logs@ == hB.logs@,
                self.stop == hB.stop,
                self.spawned == hB.spawned,
                self.running == hB.running,
                self.n_acyclic_dropped == hB.n_acyclic_dropped,
                self.n_cyclic_dropped == hB.n_cyclic_dropped + k3,
            decreases non_root_list@.len() - k3,
        {
            let ghost before = *self;
            let b = non_root_list[k3];
            proof {
                assert(non_root_list@[k3 as int] == b);
                assert(before.live(b as int));
                crate::list::lemma_count_true_update(none_seq(before.blocks@), b as int, true);
                crate::list::lemma_count_true_bounds(none_seq(before.blocks@).update(b as int, true));
                before.lemma_len_bound();
                assert(self.n_cyclic_dropped < u64::MAX);
            }
            self.free_slot(b);
            self.n_cyclic_dropped = self.n_cyclic_dropped + 1;
            proof {
                let post = *self;
                self.lemma_len_bound();
                assert(count_true(none_seq(post.blocks@)) == count_true(none_seq(before.blocks@))
                    + 1);
                assert forall|m: int|
                    k3 + 1 <= m < non_root_list@.len() implies post.live(
                    #[trigger] non_root_list@[m] as int,
                ) && post.mark_of(non_root_list@[m] as int) == Mark::Traced by {
                    let y = non_root_list@[m];
                    assert(y != b);
                    assert(post.blocks@[y as int] == before.blocks@[y as int]);
                }
                assert forall|m: int| 0 <= m < k3 + 1 implies !post.live(
                    #[trigger] non_root_list@[m] as int,
                ) by {
                    let y = non_root_list@[m];
                    if m < k3 {
                        assert(!before.live(y as int));
                        if y != b && (y as int) < before.n_blocks() {
                            assert(post.blocks@[y as int] == before.blocks@[y as int]);
                        }
                    }
                }
                assert forall|i: int| #[trigger] post.live(i) implies hB.live(i) && post.counter(i)
                    == hB.counter(i) && post.tracing(i) == hB.tracing(i) && post.mark_of(i)
                    == hB.mark_of(i) && post.block(i).lm == hB.block(i).lm && post.block(i).elem
                    == hB.block(i).elem && post.finalized(i) == hB.finalized(i) && 1 <= post.counter(
                    i,
                ) && post.tracing(i) <= post.counter(i) && (post.mark_of(i) == Mark::NonMarked
                    || post.mark_of(i) == Mark::Traced) by {
                    assert(i != b);
                    assert(post.blocks@[i] == before.blocks@[i]);
                    assert(before.live(i));
                }
                assert forall|i: int|
                    hB.live(i) && !non_root_list@.contains(i as usize) implies (
                    #[trigger] post.blocks@[i]) == hB.blocks@[i] by {
                    assert(non_root_list@.contains(b));
                    assert(i != b);
                    assert(post.blocks@[i] == before.blocks@[i]);
                }
                assert forall|i: int|
                    #![trigger post.mark_of(i)]
                    post.live(i) && post.mark_of(i) == Mark::Traced implies exists|m: int|
                        k3 + 1 <= m < non_root_list@.len() && non_root_list@[m] == i as usize by {
                    assert(i != b);
                    assert(post.blocks@[i] == before.blocks@[i]);
                    assert(before.live(i) && before.mark_of(i) == Mark::Traced);
                    let m = choose|m: int|
                        k3 <= m < non_root_list@.len() && non_root_list@[m] == i as usize;
                    if m == k3 {
                        assert(non_root_list@[m] == b);
                        assert(0 <= i < post.n_blocks());
                        assert(i == b as int);
                        assert(false);
                    }
                    assert(non_root_list@[m] == i as usize);
                }
                assert forall|i: int|
                    #![trigger post.has_snapshot(i)]
                    post.live(i) && post.has_snapshot(i) implies post.logs@.contains(i as usize) by {
                    assert(i != b);
                    assert(post.blocks@[i] == before.blocks@[i]);
                    assert(before.live(i) && before.has_snapshot(i));
                }
            }
            k3 = k3 + 1;
        }

        proof {
            let post = *self;
            assert forall|i: int| #[trigger] post.live(i) implies post.mark_of(i)
                == Mark::NonMarked by {
                if post.mark_of(i) == Mark::Traced {
                    assert(exists|m: int|
                        k3 <= m < non_root_list@.len() && non_root_list@[m] == i as usize);
                    assert(false);
                }
            }
            assert forall|i: int|
                #![trigger post.mark_of(i)]
                post.live(i) && post.mark_of(i) == Mark::PossibleCycles implies post.possible_cycles@.contains(
                i as usize,
            ) by {
                assert(post.mark_of(i) == Mark::NonMarked);
            }
            assert forall|i: int| #[trigger] post.live(i) implies h0.live(i) && post.counter(i)
                == h0.counter(i) && post.block(i).lm == h0.block(i).lm && post.block(i).elem
                == h0.block(i).elem && post.finalized(i) == h0.finalized(i) by {
                assert(hB.live(i));
                assert(hA.live(i));
                assert(h3.live(i));
                assert(h3.counter(i) == h0.counter(i) && h3.block(i).lm == h0.block(i).lm
                    && h3.block(i).elem == h0.block(i).elem && h3.finalized(i) == h0.finalized(i));
                assert(hA.counter(i) == h3.counter(i));
                assert(hB.counter(i) == hA.counter(i));
                assert(post.block(i).lm == hB.block(i).lm);
                if non_root_list@.contains(i as usize) {
                    let m = choose|m: int|
                        0 <= m < non_root_list@.len() && non_root_list@[m] == i as usize;
                    post.lemma_len_bound();
                    assert(!post.live(non_root_list@[m] as int));
                    assert(false);
                }
                assert(hA.blocks@[i] == h3.blocks@[i]);
                assert(hB.blocks@[i] == hA.blocks@[i]);
            }
            assert(post.wf());
        }
    }
}


/// Opening a cycle: the state moves to `COLLECTING`, the version up by one,
/// and nothing of the arena, the inbox, the candidate list, the registry or
/// the counters moves.
pub open spec fn started_outcome<T>(pre: Heap<T>, post: Heap<T>) -> bool {
    &&& post.collector_state == STATES::COLLECTING
    &&& post.collector_version == pre.collector_version + 1
    &&& post.blocks@ == pre.blocks@
    &&& post.thread_actions@ == pre.thread_actions@
    &&& post.possible_cycles@ == pre.possible_cycles@
    &&& post.logs@ == pre.logs@
    &&& post.n_acyclic_dropped == pre.n_acyclic_dropped
    &&& post.n_cyclic_dropped == pre.n_cyclic_dropped
}

/// Applying the drained inbox, block by block: with `gain` the old count
/// plus the block's `Add` deltas and `loss` its `Remove` deltas, the block
/// survives exactly when `gain > loss`, at count `gain - loss`, buffered as
/// a cycle candidate exactly when a `Remove` touched it; otherwise it is
/// reclaimed and counted in `n_acyclic_dropped`.
pub open spec fn apply_changes_outcome<T>(pre: Heap<T>, post: Heap<T>) -> bool {
    &&& post.thread_actions@.len() == 0
    &&& post.pc_entries_ok()
    &&& post.collector_state == pre.collector_state
    &&& post.collector_version == pre.collector_version
    &&& post.logs@ == pre.logs@
    &&& post.n_cyclic_dropped == pre.n_cyclic_dropped
    &&& post.n_acyclic_dropped - pre.n_acyclic_dropped == count_true(none_seq(post.blocks@))
        - count_true(none_seq(pre.blocks@))
    &&& post.n_blocks() == pre.n_blocks()
    &&& (forall|b: int| post.live(b) ==> pre.live(b))
    &&& (forall|b: int|
        #[trigger] pre.live(b) ==> {
            let gain = pre.counter(b) + adds_for(pre.thread_actions@, b as usize);
            let loss = removes_for(pre.thread_actions@, b as usize);
            &&& (post.live(b) <==> gain > loss)
            &&& (post.live(b) ==> post.counter(b) == gain - loss)
            &&& (post.live(b) ==> (post.possible_cycles@.contains(b as usize) <==> (
            pre.possible_cycles@.contains(b as usize) || loss >= 1)))
            &&& (post.live(b) ==> post.block(b).lm == pre.block(b).lm && post.block(b).elem
                == pre.block(b).elem)
        })
}

/// Trial deletion: the candidate list empties, and of the blocks alive when
/// it ran, exactly the cycle garbage of that list is gone afterwards, each
/// reclaimed block counted in `n_cyclic_dropped`; survivors keep their
/// counts and values untouched.
pub open spec fn collect_outcome<T>(pre: Heap<T>, post: Heap<T>) -> bool {
    &&& post.possible_cycles@.len() == 0
    &&& post.n_blocks() == pre.n_blocks()
    &&& post.thread_actions@ == pre.thread_actions@
    &&& post.collector_state == pre.collector_state
    &&& post.collector_version == pre.collector_version
    &&& post.logs@ == pre.logs@
    &&& post.n_acyclic_dropped == pre.n_acyclic_dropped
    &&& post.n_cyclic_dropped - pre.n_cyclic_dropped == count_true(none_seq(post.blocks@))
        - count_true(none_seq(pre.blocks@))
    &&& (forall|i: int|
        #[trigger] post.live(i) ==> pre.live(i) && post.counter(i) == pre.counter(i)
            && post.block(i).elem == pre.block(i).elem)
    &&& (forall|b: usize|
        (b as int) < pre.n_blocks() && pre.live(b as int) ==> (!post.live(b as int)
            <==> crate::graph::cyclic_garbage(pre, pre.possible_cycles@, b)))
}

/// Cleaning and going back to sleep: every snapshot is destroyed and the
/// registry emptied; blocks, counts, marks, edges and counters stay put.
pub open spec fn cleaned_outcome<T>(pre: Heap<T>, post: Heap<T>) -> bool {
    &&& post.collector_state == STATES::SLEEPING
    &&& post.logs@.len() == 0
    &&& post.thread_actions@ == pre.thread_actions@
    &&& post.collector_version == pre.collector_version
    &&& post.possible_cycles@ == pre.possible_cycles@
    &&& post.n_blocks() == pre.n_blocks()
    &&& (forall|i: int| post.live(i) == pre.live(i))
    &&& (forall|i: int|
        #[trigger] pre.live(i) ==> post.counter(i) == pre.counter(i) && post.mark_of(i)
            == pre.mark_of(i) && post.edges_of(i) == pre.edges_of(i) && post.block(i).elem
            == pre.block(i).elem && !post.has_snapshot(i))
    &&& post.n_acyclic_dropped == pre.n_acyclic_dropped
    &&& post.n_cyclic_dropped == pre.n_cyclic_dropped
}

/// The whole cycle as the chain of its four steps, anchored at the states
/// the cycle actually went through.
pub open spec fn cycle_outcome<T>(pre: Heap<T>, post: Heap<T>) -> bool {
    exists|bumped: Heap<T>, drained: Heap<T>, swept: Heap<T>|
        started_outcome(pre, bumped) && #[trigger] apply_changes_outcome(bumped, drained)
            && #[trigger] collect_outcome(drained, swept) && cleaned_outcome(swept, post)
}

/// Run one full collection cycle if the collector is there to run it; a
/// signal to a collector that was never started, or was already stopped and
/// joined, does nothing. Fails only when an `Add` delta overflows a count —
/// the fatal "too many references" condition — and then aborts the cycle
/// mid-`COLLECTING` with nothing reclaimed, the way the collector thread
/// dies on that panic.
pub fn collect_cycles<T>(heap: &mut Heap<T>) -> (r: Result<(), CounterError>)
    requires
        old(heap).wf(),
        old(heap).collector_state == STATES::SLEEPING,
        old(heap).collector_version < u64::MAX,
    ensures
        final(heap).wf(),
        !old(heap).running ==> *final(heap) == *old(heap) && r is Ok,
        old(heap).running ==> final(heap).collector_version == old(heap).collector_version + 1,
        old(heap).running && r is Ok ==> final(heap).collector_state == STATES::SLEEPING && final(heap).thread_actions@.len() == 0 && final(heap).possible_cycles@.len() == 0 && final(heap).logs@.len() == 0 && (forall|i: int|
            #[trigger] final(heap).live(i) ==> !final(heap).has_snapshot(i)),
        r is Err ==> r == Result::<(), CounterError>::Err(CounterError::Overflow) && final(heap).collector_state == STATES::COLLECTING,
        old(heap).running && r is Ok ==> cycle_outcome(*old(heap), *final(heap)),
        (r is Ok && old(heap).running) ==> (forall|b: int|
            #[trigger] old(heap).live(b) ==> old(heap).counter(b) + count_actions(
                old(heap).thread_actions@,
                b as usize,
                crate::cc::Action::Add,
                old(heap).thread_actions@.len() as int,
            ) <= MAX_COUNTER),
        (forall|b: int|
            #[trigger] old(heap).live(b) ==> old(heap).counter(b) + count_actions(
                old(heap).thread_actions@,
                b as usize,
                crate::cc::Action::Add,
                old(heap).thread_actions@.len() as int,
            ) <= MAX_COUNTER) ==> r is Ok,
        final(heap).running == old(heap).running,
        final(heap).spawned == old(heap).spawned,
        final(heap).stop == old(heap).stop,
        final(heap).n_acyclic_dropped >= old(heap).n_acyclic_dropped,
        final(heap).n_cyclic_dropped >= old(heap).n_cyclic_dropped,
{
    if !heap.running {
        return Ok(());
    }
    heap.start_collecting();
    let ghost h1 = *heap;
    let applied = heap.apply_changes();
    let ghost drained_state = *heap;
    if applied.is_err() {
        proof {
            let b = choose|b: int|
                #[trigger] h1.live(b) && h1.counter(b) + adds_for(h1.thread_actions@, b as usize)
                    > MAX_COUNTER;
            assert(old(heap).live(b));
            assert(old(heap).counter(b) + count_actions(
                old(heap).thread_actions@,
                b as usize,
                crate::cc::Action::Add,
                old(heap).thread_actions@.len() as int,
            ) > MAX_COUNTER);
        }
        return Err(CounterError::Overflow);
    }
    proof {
        assert forall|b: int| #[trigger] old(heap).live(b) implies old(heap).counter(b)
            + count_actions(
            old(heap).thread_actions@,
            b as usize,
            crate::cc::Action::Add,
            old(heap).thread_actions@.len() as int,
        ) <= MAX_COUNTER by {
            assert(h1.live(b) == old(heap).live(b));
            assert(h1.counter(b) == old(heap).counter(b));
            assert(h1.counter(b) + adds_for(h1.thread_actions@, b as usize) <= MAX_COUNTER);
        }
    }
    heap.collect();
    let ghost swept = *heap;
    heap.clean_logs();
    heap.finish_collection();
    proof {
        assert(started_outcome(*old(heap), h1));
        assert(apply_changes_outcome(h1, drained_state));
        assert(collect_outcome(drained_state, swept));
        assert(cleaned_outcome(swept, *heap));
        assert(cycle_outcome(*old(heap), *heap));
    }
    Ok(())
}

/// Stop the collector: set the stop flag, run the final cycle, and join.
/// When the collector was never started, or was already stopped, this is a
/// no-op: nothing is spawned, no counter moves, nothing panics.
pub fn collect_and_stop<T>(heap: &mut Heap<T>) -> (r: Result<(), CounterError>)
    requires
        old(heap).wf(),
        old(heap).collector_state == STATES::SLEEPING,
        old(heap).collector_version < u64::MAX,
    ensures
        final(heap).wf(),
        !old(heap).running ==> *final(heap) == *old(heap) && r is Ok,
        old(heap).running ==> final(heap).stop && !final(heap).running && final(heap).collector_version == old(heap).collector_version + 1,
        old(heap).running && r is Ok ==> final(heap).collector_state == STATES::SLEEPING && final(heap).thread_actions@.len() == 0 && final(heap).possible_cycles@.len() == 0 && final(heap).logs@.len() == 0,
        old(heap).running && r is Ok ==> cycle_outcome(*old(heap), *final(heap)),
        r is Err ==> r == Result::<(), CounterError>::Err(CounterError::Overflow),
        (forall|b: int|
            #[trigger] old(heap).live(b) ==> old(heap).counter(b) + count_actions(
                old(heap).thread_actions@,
                b as usize,
                crate::cc::Action::Add,
                old(heap).thread_actions@.len() as int,
            ) <= MAX_COUNTER) ==> r is Ok,
        final(heap).spawned == old(heap).spawned,
        final(heap).n_acyclic_dropped >= old(heap).n_acyclic_dropped,
        final(heap).n_cyclic_dropped >= old(heap).n_cyclic_dropped,
{
    if !heap.running {
        return Ok(());
    }
    heap.stop = true;
    proof {
        lemma_wf_same_blocks(*old(heap), *heap);
    }
    let ghost hs = *heap;
    let r = collect_cycles(heap);
    proof {
        if r is Err {
            let b = choose|b: int|
                #[trigger] hs.live(b) && hs.counter(b) + count_actions(
                    hs.thread_actions@,
                    b as usize,
                    crate::cc::Action::Add,
                    hs.thread_actions@.len() as int,
                ) > MAX_COUNTER;
            assert(old(heap).live(b));
            assert(old(heap).counter(b) + count_actions(
                old(heap).thread_actions@,
                b as usize,
                crate::cc::Action::Add,
                old(heap).thread_actions@.len() as int,
            ) > MAX_COUNTER);
        }
    }
    heap.running = false;
    proof {
        let ghost mid = Heap { running: true, ..*heap };
        lemma_wf_same_blocks(mid, *heap);
    }
    r
}


/// Law: outside the collector's brief internal steps, every live block keeps
/// a strong count of at least one. A block whose count reaches zero does not
/// stay live: it is reclaimed on the spot.
pub proof fn lemma_live_count_at_least_one<T>(heap: Heap<T>, i: int)
    requires
        heap.wf(),
        heap.live(i),
    ensures
        heap.counter(i) >= 1,
{
}

/// Law: a block's `PossibleCycles` mark and its membership in the
/// `possible_cycles` list agree exactly.
pub proof fn lemma_buffered_iff_marked<T>(heap: Heap<T>, i: int)
    requires
        heap.wf(),
        heap.live(i),
    ensures
        heap.mark_of(i) == Mark::PossibleCycles <==> heap.possible_cycles@.contains(i as usize),
{
    if heap.possible_cycles@.contains(i as usize) {
        let k = choose|k: int|
            0 <= k < heap.possible_cycles@.len() && heap.possible_cycles@[k] == i as usize;
        assert(heap.mark_of(heap.possible_cycles@[k] as int) == Mark::PossibleCycles);
        heap.lemma_len_bound();
        assert(heap.possible_cycles@[k] as int == i);
    }
}

/// Law: a live block's scratch tracing count never exceeds its strong count.
pub proof fn lemma_tracing_count_bounded<T>(heap: Heap<T>, i: int)
    requires
        heap.wf(),
        heap.live(i),
    ensures
        heap.tracing(i) <= heap.counter(i),
{
}


} // verus!
