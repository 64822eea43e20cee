//! The logged mutex: edge snapshots for tracing under concurrent writers.
//!
//! In a concurrent runtime a block's outgoing edges live behind a mutex, and
//! the first `lock` taken while the collector is collecting copies the edges
//! into a snapshot slot beside the mutex, versioned by the collector's cycle
//! number; the collector traces that snapshot instead of racing the writer.
//! In this sequential model the inner mutex is uncontended and disappears:
//! what remains — and is verified — is the snapshot decision itself. Locking
//! is an operation on the [`Heap`], since it reads the collector's phase and
//! version and registers the snapshot for the cleaning phase.

use vstd::prelude::*;

use crate::cc::Cc;
use crate::collector::{live_seq, none_seq, traced_seq, Heap, STATES};
use crate::list::copy_indices;

verus! {

/// The snapshot slot beside a block's edges: the last version at which a
/// snapshot was taken, and the snapshot itself while one is published.
pub struct LogPointer {
    pub version: u64,
    pub snapshot: Option<Vec<usize>>,
}

impl LogPointer {
    pub fn new() -> (lp: Self)
        ensures
            lp.version == 0,
            lp.snapshot is None,
    {
        LogPointer { version: 0, snapshot: None }
    }
}

/// A block's guarded edge list together with its snapshot slot.
pub struct LoggedMutex {
    pub log_pointer: LogPointer,
    pub edges: Vec<usize>,
}

impl LoggedMutex {
    pub fn new(value: Vec<usize>) -> (m: Self)
        ensures
            m.log_pointer.version == 0,
            m.log_pointer.snapshot is None,
            m.edges@ == value@,
    {
        LoggedMutex { log_pointer: LogPointer::new(), edges: value }
    }
}

/// The indices named by a sequence of handles.
pub open spec fn idxs_of(s: Seq<Cc>) -> Seq<usize> {
    Seq::new(s.len(), |i: int| s[i].idx)
}

/// One `Remove` delta for every index, in order.
pub open spec fn removes_of(s: Seq<usize>) -> Seq<crate::cc::ActionEntry> {
    Seq::new(
        s.len(),
        |i: int| (crate::cc::ActionEntry { cc_box: s[i], action: crate::cc::Action::Remove }),
    )
}

/// Whether a lock taken now on block `b`'s logged mutex would publish a
/// fresh snapshot: the collector is collecting and the slot holds none for
/// the current cycle.
pub open spec fn wants_snapshot<T>(pre: Heap<T>, b: usize) -> bool {
    pre.collector_state == STATES::COLLECTING && (pre.log_version(b as int)
        != pre.collector_version || !pre.has_snapshot(b as int))
}

/// What taking a lock on block `b`'s logged mutex does to the heap: if the
/// collector is collecting and the slot holds no snapshot of the current
/// cycle, the live edges are copied into the slot, stamped with the
/// collector's version and registered; otherwise nothing changes. Nothing
/// else of the heap moves.
pub open spec fn log_copy_post<T>(pre: Heap<T>, post: Heap<T>, b: usize) -> bool {
    &&& post.n_blocks() == pre.n_blocks()
    &&& forall|j: int| pre.valid(j) && j != b ==> post.blocks@[j] == pre.blocks@[j]
    &&& post.live(b as int)
    &&& post.block(b as int).counter_marker == pre.block(b as int).counter_marker
    &&& post.edges_of(b as int) == pre.edges_of(b as int)
    &&& post.block(b as int).elem == pre.block(b as int).elem
    &&& post.thread_actions@ == pre.thread_actions@
    &&& post.collector_state == pre.collector_state
    &&& post.collector_version == pre.collector_version
    &&& post.possible_cycles@ == pre.possible_cycles@
    &&& post.stop == pre.stop
    &&& post.spawned == pre.spawned
    &&& post.running == pre.running
    &&& post.n_acyclic_dropped == pre.n_acyclic_dropped
    &&& post.n_cyclic_dropped == pre.n_cyclic_dropped
    &&& if wants_snapshot(pre, b) {
        &&& post.log_version(b as int) == pre.collector_version
        &&& post.has_snapshot(b as int)
        &&& post.snapshot(b as int) == pre.edges_of(b as int)
        &&& post.logs@ == pre.logs@.push(b)
    } else {
        &&& post.blocks@[b as int] == pre.blocks@[b as int]
        &&& post.logs@ == pre.logs@
    }
}

impl<T> Heap<T> {
    /// The snapshot step shared by `lock` and `try_lock`.
    fn log_copy(&mut self, b: usize)
        requires
            old(self).wf(),
            old(self).live(b as int),
        ensures
            final(self).wf(),
            log_copy_post(*old(self), *final(self), b),
    {
        if crate::collector::is_collecting(self) {
            let v = self.collector_version;
            let needs: bool = match &self.blocks[b] {
                Some(blk) => blk.lm.log_pointer.version != v || blk.lm.log_pointer.snapshot.is_none(),
                None => vstd::pervasive::unreached(),
            };
            if needs {
                let snap = match &self.blocks[b] {
                    Some(blk) => copy_indices(&blk.lm.edges),
                    None => vstd::pervasive::unreached(),
                };
                self.set_log(b, LogPointer { version: v, snapshot: Some(snap) });
                self.logs.push(b);
                proof {
                    let pre = *old(self);
                    let post = *self;
                    assert forall|k: int|
                        0 <= k < post.possible_cycles@.len() implies post.live(
                        #[trigger] post.possible_cycles@[k] as int,
                    ) && post.mark_of(post.possible_cycles@[k] as int)
                        == crate::counter_marker::Mark::PossibleCycles by {
                        let e = post.possible_cycles@[k] as int;
                        assert(pre.live(e) && pre.mark_of(e)
                            == crate::counter_marker::Mark::PossibleCycles);
                        if e != b {
                            assert(post.blocks@[e] == pre.blocks@[e]);
                        }
                    }
                    assert forall|j: int|
                        #![trigger post.mark_of(j)]
                        post.live(j) implies (post.mark_of(j)
                        == crate::counter_marker::Mark::NonMarked || post.mark_of(j)
                        == crate::counter_marker::Mark::PossibleCycles) && (post.mark_of(j)
                        == crate::counter_marker::Mark::PossibleCycles
                        ==> post.possible_cycles@.contains(j as usize)) by {
                        if j != b {
                            assert(post.blocks@[j] == pre.blocks@[j]);
                            assert(pre.live(j));
                            assert(post.mark_of(j) == pre.mark_of(j));
                        } else {
                            assert(pre.live(j));
                            assert(post.mark_of(j) == pre.mark_of(j));
                        }
                    }
                    assert forall|j: int| #[trigger] post.live(j) implies 1 <= post.counter(j)
                        && post.tracing(j) <= post.counter(j) by {
                        if j != b {
                            assert(post.blocks@[j] == pre.blocks@[j]);
                            assert(pre.live(j));
                        } else {
                            assert(pre.live(j));
                            assert(post.counter(j) == pre.counter(j) && post.tracing(j)
                                == pre.tracing(j));
                        }
                    }
                    assert forall|j: int|
                        #![trigger post.has_snapshot(j)]
                        post.live(j) && post.has_snapshot(j) implies post.logs@.contains(
                        j as usize,
                    ) by {
                        if j != b {
                            assert(post.blocks@[j] == pre.blocks@[j]);
                            assert(pre.live(j) && pre.has_snapshot(j));
                            assert(pre.logs@.contains(j as usize));
                            assert(post.logs@ == pre.logs@.push(b));
                            let k = choose|k: int|
                                0 <= k < pre.logs@.len() && pre.logs@[k] == j as usize;
                            assert(post.logs@[k] == j as usize);
                        } else {
                            assert(post.logs@[post.logs@.len() - 1] == b);
                        }
                    }
                }
            }
        }
    }

    /// Lock the logged mutex of block `b` and read its edges. While the
    /// collector is collecting, the first lock of the cycle publishes a
    /// snapshot stamped with the current collector version; later locks in
    /// the same cycle leave it in place.
    pub fn lock(&mut self, b: &Cc) -> (guard: Vec<usize>)
        requires
            old(self).wf(),
            old(self).live(b.idx as int),
        ensures
            final(self).wf(),
            log_copy_post(*old(self), *final(self), b.idx),
            guard@ == old(self).edges_of(b.idx as int),
    {
        self.log_copy(b.idx);
        match &self.blocks[b.idx] {
            Some(blk) => copy_indices(&blk.lm.edges),
            None => vstd::pervasive::unreached(),
        }
    }

    /// As `lock`; in this sequential model the mutex is never contended, so
    /// the guard is always granted.
    pub fn try_lock(&mut self, b: &Cc) -> (guard: Option<Vec<usize>>)
        requires
            old(self).wf(),
            old(self).live(b.idx as int),
        ensures
            final(self).wf(),
            log_copy_post(*old(self), *final(self), b.idx),
            guard is Some,
            guard->Some_0@ == old(self).edges_of(b.idx as int),
    {
        self.log_copy(b.idx);
        match &self.blocks[b.idx] {
            Some(blk) => Some(copy_indices(&blk.lm.edges)),
            None => vstd::pervasive::unreached(),
        }
    }

    /// An exclusive borrow of the edges: a copy already exists at a higher
    /// layer, so the snapshot slot is dropped.
    pub fn get_mut(&mut self, b: &Cc)
        requires
            old(self).wf(),
            old(self).live(b.idx as int),
        ensures
            final(self).wf(),
            !final(self).has_snapshot(b.idx as int),
            final(self).log_version(b.idx as int) == old(self).log_version(b.idx as int),
            final(self).edges_of(b.idx as int) == old(self).edges_of(b.idx as int),
            final(self).block(b.idx as int).counter_marker == old(self).block(
                b.idx as int,
            ).counter_marker,
            final(self).block(b.idx as int).elem == old(self).block(b.idx as int).elem,
            final(self).same_admin(*old(self)),
            final(self).n_blocks() == old(self).n_blocks(),
            forall|j: int|
                old(self).valid(j) && j != b.idx ==> final(self).blocks@[j] == old(self).blocks@[j],
    {
        let version = match &self.blocks[b.idx] {
            Some(blk) => blk.lm.log_pointer.version,
            None => vstd::pervasive::unreached(),
        };
        self.set_log(b.idx, LogPointer { version, snapshot: None });
        proof {
            crate::collector::lemma_wf_one_block_edit(*old(self), *self, b.idx as int);
        }
    }

    /// Lock block `b`'s logged mutex and overwrite its edges with the blocks
    /// the given handles name. The handles are absorbed into the edges; the
    /// old edges are dropped on this mutator's side, so each pushes one
    /// `Remove` delta (none once the collector is gone). The snapshot taken
    /// by the lock, if any, still shows the edges from before the write.
    pub fn lock_store(&mut self, b: &Cc, new_edges: Vec<Cc>)
        requires
            old(self).wf(),
            old(self).live(b.idx as int),
        ensures
            final(self).wf(),
            final(self).edges_of(b.idx as int) == idxs_of(new_edges@),
            final(self).thread_actions@ == old(self).thread_actions@ + (if old(self).running {
                removes_of(old(self).edges_of(b.idx as int))
            } else {
                Seq::<crate::cc::ActionEntry>::empty()
            }),
            final(self).n_blocks() == old(self).n_blocks(),
            forall|j: int|
                old(self).valid(j) && j != b.idx ==> final(self).blocks@[j] == old(self).blocks@[j],
            final(self).live(b.idx as int),
            final(self).block(b.idx as int).counter_marker == old(self).block(
                b.idx as int,
            ).counter_marker,
            final(self).block(b.idx as int).elem == old(self).block(b.idx as int).elem,
            final(self).collector_state == old(self).collector_state,
            final(self).collector_version == old(self).collector_version,
            final(self).possible_cycles@ == old(self).possible_cycles@,
            final(self).stop == old(self).stop,
            final(self).spawned == old(self).spawned,
            final(self).running == old(self).running,
            final(self).n_acyclic_dropped == old(self).n_acyclic_dropped,
            final(self).n_cyclic_dropped == old(self).n_cyclic_dropped,
            wants_snapshot(*old(self), b.idx) ==> final(self).has_snapshot(b.idx as int)
                && final(self).log_version(b.idx as int) == old(self).collector_version
                && final(self).snapshot(b.idx as int) == old(self).edges_of(b.idx as int)
                && final(self).logs@ == old(self).logs@.push(b.idx),
            !wants_snapshot(*old(self), b.idx) ==> final(self).block(b.idx as int).lm.log_pointer
                == old(self).block(b.idx as int).lm.log_pointer && final(self).logs@ == old(self).logs@,
    {
        self.log_copy(b.idx);
        let ghost mid = *self;
        let old_edges = match &self.blocks[b.idx] {
            Some(blk) => copy_indices(&blk.lm.edges),
            None => vstd::pervasive::unreached(),
        };
        let mut newv: Vec<usize> = Vec::new();
        let mut k: usize = 0;
        while k < new_edges.len()
            invariant
                0 <= k <= new_edges@.len(),
                newv@ == idxs_of(new_edges@.subrange(0, k as int)),
            decreases new_edges@.len() - k,
        {
            newv.push(new_edges[k].idx);
            proof {
                assert(newv@ =~= idxs_of(new_edges@.subrange(0, k + 1 as int)));
            }
            k = k + 1;
        }
        proof {
            assert(new_edges@.subrange(0, new_edges@.len() as int) =~= new_edges@);
        }
        self.set_edges(b.idx, newv);
        proof {
            crate::collector::lemma_wf_one_block_edit(mid, *self, b.idx as int);
        }
        let ghost mid2 = *self;
        if self.running {
            let mut k: usize = 0;
            while k < old_edges.len()
                invariant
                    0 <= k <= old_edges@.len(),
                    *self == (Heap {
                        thread_actions: self.thread_actions,
                        ..mid2
                    }),
                    self.thread_actions@ == mid2.thread_actions@ + removes_of(
                        old_edges@.subrange(0, k as int),
                    ),
                decreases old_edges@.len() - k,
            {
                self.thread_actions.push(
                    crate::cc::ActionEntry::new(old_edges[k], crate::cc::Action::Remove),
                );
                proof {
                    assert(self.thread_actions@ =~= mid2.thread_actions@ + removes_of(
                        old_edges@.subrange(0, k + 1 as int),
                    ));
                }
                k = k + 1;
            }
            proof {
                assert(old_edges@.subrange(0, old_edges@.len() as int) =~= old_edges@);
                assert(self.thread_actions@ == mid2.thread_actions@ + removes_of(old_edges@));
                crate::collector::lemma_wf_same_blocks(mid2, *self);
            }
        } else {
            proof {
                assert(self.thread_actions@ =~= self.thread_actions@ + Seq::<
                    crate::cc::ActionEntry,
                >::empty());
            }
        }
    }

    /// The edges the collector traces for block `b` this cycle: the published
    /// snapshot if it carries the current version, else the live edges (the
    /// uncontended `try_lock` path).
    pub open spec fn spec_trace_edges(self, i: int) -> Seq<usize> {
        if self.log_version(i) == self.collector_version && self.has_snapshot(i) {
            self.snapshot(i)
        } else {
            self.edges_of(i)
        }
    }

    /// Resolve the edges to trace for block `b`.
    pub(crate) fn trace_edges(&self, b: usize) -> (v: Vec<usize>)
        requires
            self.live(b as int),
        ensures
            v@ == self.spec_trace_edges(b as int),
    {
        match &self.blocks[b] {
            Some(blk) => {
                if blk.lm.log_pointer.version == self.collector_version {
                    match &blk.lm.log_pointer.snapshot {
                        Some(s) => copy_indices(s),
                        None => copy_indices(&blk.lm.edges),
                    }
                } else {
                    copy_indices(&blk.lm.edges)
                }
            },
            None => vstd::pervasive::unreached(),
        }
    }
}

} // verus!
