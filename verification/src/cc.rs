//! Handles and control blocks.
//!
//! A [`Cc`] names one control block of a [`Heap`]. Creating a block starts
//! the count at one with no inbox entry; cloning a handle appends an `Add`
//! delta and dropping one appends a `Remove` delta, both applied later by the
//! collector. The block keeps, besides the packed counter word, its outgoing
//! edges behind a modeled logged mutex and the user value itself.

use vstd::prelude::*;

use crate::collector::{init_collector, Heap, STATES};
use crate::counter_marker::{CounterMarker, Mark};
use crate::log_pointer::LoggedMutex;

verus! {

/// A deferred reference-count delta.
#[derive(Clone, Copy, Debug, PartialEq, Eq, Structural)]
pub enum Action {
    Add,
    Remove,
}

/// One inbox entry: which block, and in which direction the count moves.
#[derive(Clone, Copy, Debug, PartialEq, Eq, Structural)]
pub struct ActionEntry {
    pub cc_box: usize,
    pub action: Action,
}

impl ActionEntry {
    pub fn new(cc_box: usize, action: Action) -> (e: Self)
        ensures
            e.cc_box == cc_box,
            e.action == action,
    {
        ActionEntry { cc_box, action }
    }
}

/// A control block: the packed counter/mark word, the outgoing edges behind
/// their logged mutex, and the user value.
pub struct CcBox<T> {
    pub counter_marker: CounterMarker,
    pub lm: LoggedMutex,
    pub elem: T,
}

impl<T> CcBox<T> {
    /// A fresh block: count one, no marks, no edges, no snapshot.
    pub fn new(t: T) -> (b: CcBox<T>)
        ensures
            b.counter_marker.counter_spec() == 1,
            b.counter_marker.tracing_spec() == 0,
            b.counter_marker.mark_spec() == Mark::NonMarked,
            !b.counter_marker.finalized_spec(),
            b.lm.edges@.len() == 0,
            b.lm.log_pointer.version == 0,
            b.lm.log_pointer.snapshot is None,
            b.elem == t,
    {
        CcBox {
            counter_marker: CounterMarker::new_with_counter_to_one(false),
            lm: LoggedMutex::new(Vec::new()),
            elem: t,
        }
    }

    /// Borrow the user value.
    pub fn get_elem(&self) -> (r: &T)
        ensures
            *r == self.elem,
    {
        &self.elem
    }

    /// Read the counter/mark word.
    pub fn counter_marker(&self) -> (cm: CounterMarker)
        ensures
            cm == self.counter_marker,
    {
        self.counter_marker
    }
}

/// A cycle-collected handle: the index of its control block.
pub struct Cc {
    pub idx: usize,
}

impl Cc {
    /// Allocate a new managed value. The count starts at one and no inbox
    /// entry is pushed; the collector is started on the first allocation.
    pub fn new<T>(heap: &mut Heap<T>, t: T) -> (c: Cc)
        requires
            old(heap).wf(),
        ensures
            final(heap).wf(),
            c.idx == old(heap).n_blocks(),
            final(heap).n_blocks() == old(heap).n_blocks() + 1,
            final(heap).live(c.idx as int),
            final(heap).counter(c.idx as int) == 1,
            final(heap).tracing(c.idx as int) == 0,
            final(heap).mark_of(c.idx as int) == Mark::NonMarked,
            !final(heap).finalized(c.idx as int),
            final(heap).edges_of(c.idx as int).len() == 0,
            final(heap).log_version(c.idx as int) == 0,
            !final(heap).has_snapshot(c.idx as int),
            final(heap).block(c.idx as int).elem == t,
            forall|j: int|
                0 <= j < old(heap).n_blocks() ==> final(heap).blocks@[j] == old(heap).blocks@[j],
            final(heap).thread_actions@ == old(heap).thread_actions@,
            final(heap).collector_state == old(heap).collector_state,
            final(heap).collector_version == old(heap).collector_version,
            final(heap).possible_cycles@ == old(heap).possible_cycles@,
            final(heap).logs@ == old(heap).logs@,
            final(heap).stop == old(heap).stop,
            final(heap).spawned,
            final(heap).running == (old(heap).running || !old(heap).spawned),
            final(heap).n_acyclic_dropped == old(heap).n_acyclic_dropped,
            final(heap).n_cyclic_dropped == old(heap).n_cyclic_dropped,
    {
        init_collector(heap);
        let b = CcBox::new(t);
        let i = heap.alloc_block(b);
        proof {
            let pre = *old(heap);
            let post = *heap;
            lemma_count_true_push(crate::collector::none_seq(pre.blocks@), false);
            assert forall|j: int| 0 <= j < pre.n_blocks() implies post.blocks@[j]
                == pre.blocks@[j] by {}
            assert forall|k: int|
                0 <= k < post.possible_cycles@.len() implies post.live(
                #[trigger] post.possible_cycles@[k] as int,
            ) && post.mark_of(post.possible_cycles@[k] as int) == Mark::PossibleCycles by {
                assert(pre.live(post.possible_cycles@[k] as int));
                assert(post.blocks@[post.possible_cycles@[k] as int]
                    == pre.blocks@[post.possible_cycles@[k] as int]);
            }
            assert forall|j: int| #[trigger] post.live(j) implies 1 <= post.counter(j)
                && post.tracing(j) <= post.counter(j) by {
                if j < pre.n_blocks() {
                    assert(post.blocks@[j] == pre.blocks@[j]);
                    assert(pre.live(j));
                }
            }
            assert forall|j: int|
                #![trigger post.mark_of(j)]
                post.live(j) implies (post.mark_of(j) == Mark::NonMarked || post.mark_of(j)
                == Mark::PossibleCycles) && (post.mark_of(j) == Mark::PossibleCycles
                ==> post.possible_cycles@.contains(j as usize)) by {
                if j < pre.n_blocks() {
                    assert(post.blocks@[j] == pre.blocks@[j]);
                    assert(pre.live(j));
                    assert(pre.mark_of(j) == post.mark_of(j));
                }
            }
            assert forall|j: int|
                #![trigger post.has_snapshot(j)]
                post.live(j) && post.has_snapshot(j) implies post.logs@.contains(j as usize) by {
                if j < pre.n_blocks() {
                    assert(post.blocks@[j] == pre.blocks@[j]);
                    assert(pre.live(j) && pre.has_snapshot(j));
                }
            }
        }
        Cc { idx: i }
    }

    /// Whether two handles point to the same block.
    pub fn ptr_eq(this: &Cc, other: &Cc) -> (r: bool)
        ensures
            r == (this.idx == other.idx),
    {
        this.idx == other.idx
    }

    /// The strong count the collector has applied so far for this block.
    /// Deltas still in the inbox are not visible here.
    pub fn strong_count<T>(&self, heap: &Heap<T>) -> (r: u32)
        requires
            heap.live(self.idx as int),
        ensures
            r == heap.counter(self.idx as int),
    {
        heap.cm_of(self.idx).counter()
    }

    /// Whether the applied strong count is exactly one.
    pub fn is_unique<T>(&self, heap: &Heap<T>) -> (r: bool)
        requires
            heap.live(self.idx as int),
        ensures
            r == (heap.counter(self.idx as int) == 1),
    {
        self.strong_count(heap) == 1
    }

    /// Make the value finalizable again. Must not be called while the
    /// collector is inside a cycle.
    pub fn finalize_again<T>(&self, heap: &mut Heap<T>)
        requires
            old(heap).wf(),
            old(heap).live(self.idx as int),
            old(heap).collector_state == STATES::SLEEPING,
        ensures
            final(heap).wf(),
            !final(heap).finalized(self.idx as int),
            final(heap).same_admin(*old(heap)),
            final(heap).n_blocks() == old(heap).n_blocks(),
            forall|j: int|
                old(heap).valid(j) && j != self.idx ==> final(heap).blocks@[j] == old(heap).blocks@[j],
            final(heap).live(self.idx as int),
            final(heap).counter(self.idx as int) == old(heap).counter(self.idx as int),
            final(heap).tracing(self.idx as int) == old(heap).tracing(self.idx as int),
            final(heap).mark_of(self.idx as int) == old(heap).mark_of(self.idx as int),
            final(heap).block(self.idx as int).lm == old(heap).block(self.idx as int).lm,
            final(heap).block(self.idx as int).elem == old(heap).block(self.idx as int).elem,
    {
        let mut cm = heap.cm_of(self.idx);
        cm.set_finalized(false);
        heap.set_cm(self.idx, cm);
        proof {
            crate::collector::lemma_wf_one_block_edit(*old(heap), *heap, self.idx as int);
        }
    }

    /// Whether the value has already been finalized.
    pub fn already_finalized<T>(&self, heap: &Heap<T>) -> (r: bool)
        requires
            heap.live(self.idx as int),
        ensures
            r == heap.finalized(self.idx as int),
    {
        !heap.cm_of(self.idx).needs_finalization()
    }

    /// Marking a buffered allocation as alive is a disabled optimization:
    /// the call is kept and does nothing.
    pub fn mark_alive(&self) {
    }

    /// Clone the handle: push one `Add` delta; the count itself moves only
    /// when the collector applies it.
    pub fn clone<T>(&self, heap: &mut Heap<T>) -> (c: Cc)
        requires
            old(heap).wf(),
        ensures
            final(heap).wf(),
            c.idx == self.idx,
            final(heap).thread_actions@ == old(heap).thread_actions@.push(
                (ActionEntry { cc_box: self.idx, action: Action::Add }),
            ),
            final(heap).blocks@ == old(heap).blocks@,
            final(heap).collector_state == old(heap).collector_state,
            final(heap).collector_version == old(heap).collector_version,
            final(heap).possible_cycles@ == old(heap).possible_cycles@,
            final(heap).logs@ == old(heap).logs@,
            final(heap).stop == old(heap).stop,
            final(heap).spawned == old(heap).spawned,
            final(heap).running == old(heap).running,
            final(heap).n_acyclic_dropped == old(heap).n_acyclic_dropped,
            final(heap).n_cyclic_dropped == old(heap).n_cyclic_dropped,
    {
        heap.thread_actions.push(ActionEntry::new(self.idx, Action::Add));
        proof {
            crate::collector::lemma_wf_same_blocks(*old(heap), *heap);
        }
        Cc { idx: self.idx }
    }

    /// Drop the handle: push one `Remove` delta. The collector must still be
    /// there to drain it; dropping a handle after `collect_and_stop` is not
    /// part of the contract, so the accidental silent leak of a teardown-time
    /// drop cannot arise here.
    pub fn drop_handle<T>(self, heap: &mut Heap<T>)
        requires
            old(heap).wf(),
            old(heap).running,
        ensures
            final(heap).wf(),
            final(heap).thread_actions@ == old(heap).thread_actions@.push(
                (ActionEntry { cc_box: self.idx, action: Action::Remove }),
            ),
            final(heap).blocks@ == old(heap).blocks@,
            final(heap).collector_state == old(heap).collector_state,
            final(heap).collector_version == old(heap).collector_version,
            final(heap).possible_cycles@ == old(heap).possible_cycles@,
            final(heap).logs@ == old(heap).logs@,
            final(heap).stop == old(heap).stop,
            final(heap).spawned == old(heap).spawned,
            final(heap).running == old(heap).running,
            final(heap).n_acyclic_dropped == old(heap).n_acyclic_dropped,
            final(heap).n_cyclic_dropped == old(heap).n_cyclic_dropped,
    {
        heap.thread_actions.push(ActionEntry::new(self.idx, Action::Remove));
        proof {
            crate::collector::lemma_wf_same_blocks(*old(heap), *heap);
        }
    }

    /// Borrow the managed value.
    pub fn deref<'a, T>(&self, heap: &'a Heap<T>) -> (r: &'a T)
        requires
            heap.live(self.idx as int),
        ensures
            *r == heap.block(self.idx as int).elem,
    {
        match &heap.blocks[self.idx] {
            Some(b) => &b.elem,
            None => vstd::pervasive::unreached(),
        }
    }
}

/// Appending an entry moves `count_true` by its value.
pub proof fn lemma_count_true_push(s: Seq<bool>, v: bool)
    ensures
        crate::list::count_true(s.push(v)) == crate::list::count_true(s) + (if v {
            1int
        } else {
            0int
        }),
{
    assert(s.push(v).drop_last() =~= s);
    assert(s.push(v).last() == v);
}

} // verus!
