//! The graph theory behind trial deletion.
//!
//! Collection reasons about the object graph whose vertices are live blocks
//! and whose arcs are the trace edges ([`Heap::spec_trace_edges`]): the
//! snapshot of a logged mutex where one is current, its live edges
//! otherwise. This module defines reachability along those edges, the count
//! of edges into a block from inside a reachable closure, and from the two
//! the set the collector exists to compute: [`cyclic_garbage`] — the blocks
//! reachable from the candidate set that no block with an unaccounted
//! (external) reference can reach. It also defines the counting-phase
//! bookkeeping [`acct`]: how a block's tracing count, the edges out of
//! already-traced blocks and the still-pending trace stack relate at every
//! step.

use vstd::prelude::*;

use crate::collector::Heap;
use crate::counter_marker::Mark;

verus! {

/// Occurrences of `x` in `s`.
pub open spec fn occ(s: Seq<usize>, x: usize) -> int
    decreases s.len(),
{
    if s.len() == 0 {
        0
    } else {
        occ(s.drop_last(), x) + if s.last() == x {
            1int
        } else {
            0int
        }
    }
}

pub proof fn lemma_occ_nonneg(s: Seq<usize>, x: usize)
    ensures
        occ(s, x) >= 0,
    decreases s.len(),
{
    if s.len() > 0 {
        lemma_occ_nonneg(s.drop_last(), x);
    }
}

pub proof fn lemma_occ_append(s: Seq<usize>, t: Seq<usize>, x: usize)
    ensures
        occ(s + t, x) == occ(s, x) + occ(t, x),
    decreases t.len(),
{
    if t.len() == 0 {
        assert(s + t =~= s);
    } else {
        assert((s + t).drop_last() =~= s + t.drop_last());
        assert((s + t).last() == t.last());
        lemma_occ_append(s, t.drop_last(), x);
    }
}

/// `x` occurs at least once exactly when the list holds it.
pub proof fn lemma_occ_contains(s: Seq<usize>, x: usize)
    ensures
        (occ(s, x) >= 1) == s.contains(x),
    decreases s.len(),
{
    lemma_occ_nonneg(s, x);
    if s.len() > 0 {
        lemma_occ_contains(s.drop_last(), x);
        lemma_occ_nonneg(s.drop_last(), x);
        if s.last() == x {
            assert(s[s.len() - 1] == x);
            assert(s.contains(x));
        }
        if s.contains(x) && s.last() != x {
            let i = choose|i: int| 0 <= i < s.len() && s[i] == x;
            assert(s.drop_last()[i] == x);
            assert(s.drop_last().contains(x));
        }
        if s.drop_last().contains(x) {
            let i = choose|i: int| 0 <= i < s.drop_last().len() && s.drop_last()[i] == x;
            assert(s[i] == x);
            assert(s.contains(x));
        }
    }
}

/// Edges from `b` into `c`, counted only while `b` is live and traced.
pub open spec fn traced_occ<T>(h: Heap<T>, b: usize, c: usize) -> int {
    if h.live(b as int) && h.mark_of(b as int) == Mark::Traced {
        occ(h.spec_trace_edges(b as int), c)
    } else {
        0
    }
}

/// Edges into `c` from live `Traced` blocks with index below `n`.
pub open spec fn traced_edges_into<T>(h: Heap<T>, c: usize, n: int) -> int
    decreases n,
{
    if n <= 0 {
        0
    } else {
        traced_edges_into(h, c, n - 1) + traced_occ(h, (n - 1) as usize, c)
    }
}

/// Edges into `c` from the whole arena's traced blocks.
pub open spec fn in_traced<T>(h: Heap<T>, c: usize) -> int {
    traced_edges_into(h, c, h.n_blocks())
}

/// Editing one block moves every traced-edge count by that block's
/// share delta.
pub proof fn lemma_traced_edges_update<T>(h1: Heap<T>, h2: Heap<T>, b: usize, c: usize, n: int)
    requires
        h2.n_blocks() == h1.n_blocks(),
        h2.collector_version == h1.collector_version,
        forall|j: int|
            0 <= j < h1.n_blocks() && j != b ==> (#[trigger] h2.blocks@[j]) == h1.blocks@[j],
        n <= h1.n_blocks(),
    ensures
        traced_edges_into(h2, c, n) == traced_edges_into(h1, c, n) + (if (b as int) < n {
            traced_occ(h2, b, c) - traced_occ(h1, b, c)
        } else {
            0int
        }),
    decreases n,
{
    if n > 0 {
        lemma_traced_edges_update(h1, h2, b, c, n - 1);
        h1.lemma_len_bound();
        let d = (n - 1) as usize;
        assert(d as int == n - 1);
        if (n - 1) != b {
            assert(h2.blocks@[d as int] == h1.blocks@[d as int]);
            assert(h2.live(d as int) == h1.live(d as int));
            assert(traced_occ(h2, d, c) == traced_occ(h1, d, c));
        }
    }
}

/// A single traced block's edges bound the whole count from below.
pub proof fn lemma_traced_edges_lb<T>(h: Heap<T>, a: usize, c: usize, n: int)
    requires
        0 <= a as int,
        (a as int) < n,
        n <= h.n_blocks(),
        h.live(a as int),
        h.mark_of(a as int) == Mark::Traced,
    ensures
        traced_edges_into(h, c, n) >= occ(h.spec_trace_edges(a as int), c),
    decreases n,
{
    h.lemma_len_bound();
    let d = (n - 1) as usize;
    assert(d as int == n - 1);
    lemma_occ_nonneg(h.spec_trace_edges(d as int), c);
    if (a as int) < n - 1 {
        lemma_traced_edges_lb(h, a, c, n - 1);
        assert(traced_occ(h, d, c) >= 0);
    } else {
        lemma_traced_edges_nonneg(h, c, n - 1);
        assert(d == a);
        assert(traced_occ(h, d, c) == occ(h.spec_trace_edges(a as int), c));
    }
}

pub proof fn lemma_traced_edges_nonneg<T>(h: Heap<T>, c: usize, n: int)
    ensures
        traced_edges_into(h, c, n) >= 0,
    decreases n,
{
    if n > 0 {
        lemma_traced_edges_nonneg(h, c, n - 1);
        let d = (n - 1) as usize;
        lemma_occ_nonneg(h.spec_trace_edges(d as int), c);
        assert(traced_occ(h, d, c) >= 0);
    }
}

/// With no traced blocks there are no traced edges.
pub proof fn lemma_traced_edges_zero<T>(h: Heap<T>, c: usize, n: int)
    requires
        forall|b: int|
            #![trigger h.mark_of(b)]
            h.live(b) ==> h.mark_of(b) != Mark::Traced,
    ensures
        traced_edges_into(h, c, n) == 0,
    decreases n,
{
    if n > 0 {
        lemma_traced_edges_zero(h, c, n - 1);
        let d = (n - 1) as usize;
        if h.live(d as int) {
            assert(h.mark_of(d as int) != Mark::Traced);
        }
        assert(traced_occ(h, d, c) == 0);
    }
}

/// `b` can be reached from one of the sources in at most `fuel` steps along
/// trace edges, through live blocks.
pub open spec fn reaches<T>(h: Heap<T>, srcs: Seq<usize>, b: usize, fuel: nat) -> bool
    decreases fuel,
{
    h.live(b as int) && (srcs.contains(b) || (fuel > 0 && exists|a: usize|
        reaches(h, srcs, a, (fuel - 1) as nat) && h.spec_trace_edges(a as int).contains(b)))
}

/// `b` can be reached from the sources along trace edges.
pub open spec fn reachable<T>(h: Heap<T>, srcs: Seq<usize>, b: usize) -> bool {
    exists|fuel: nat| reaches(h, srcs, b, fuel)
}

pub proof fn lemma_reachable_base<T>(h: Heap<T>, srcs: Seq<usize>, b: usize)
    requires
        h.live(b as int),
        srcs.contains(b),
    ensures
        reachable(h, srcs, b),
{
    assert(reaches(h, srcs, b, 0));
}

pub proof fn lemma_reachable_step<T>(h: Heap<T>, srcs: Seq<usize>, a: usize, b: usize)
    requires
        reachable(h, srcs, a),
        h.live(b as int),
        h.spec_trace_edges(a as int).contains(b),
    ensures
        reachable(h, srcs, b),
{
    let fuel = choose|fuel: nat| reaches(h, srcs, a, fuel);
    assert(reaches(h, srcs, b, fuel + 1));
}

/// Induction principle: a predicate that holds on the live sources and is
/// closed under live trace edges holds on everything reachable.
pub proof fn lemma_reachable_closed<T>(
    h: Heap<T>,
    srcs: Seq<usize>,
    p: spec_fn(usize) -> bool,
    b: usize,
    fuel: nat,
)
    requires
        forall|y: usize| h.live(y as int) && srcs.contains(y) ==> #[trigger] p(y),
        forall|a: usize, x: usize|
            #![trigger p(a), h.spec_trace_edges(a as int).contains(x)]
            p(a) && h.live(x as int) && h.spec_trace_edges(a as int).contains(x) ==> p(x),
        reaches(h, srcs, b, fuel),
    ensures
        p(b),
    decreases fuel,
{
    if !srcs.contains(b) {
        let a = choose|a: usize|
            reaches(h, srcs, a, (fuel - 1) as nat) && h.spec_trace_edges(a as int).contains(b);
        lemma_reachable_closed(h, srcs, p, a, (fuel - 1) as nat);
    }
}

/// Reaching from a list of sources is reaching from one of its members.
pub proof fn lemma_reaches_split<T>(h: Heap<T>, srcs: Seq<usize>, b: usize, fuel: nat)
    requires
        reaches(h, srcs, b, fuel),
    ensures
        exists|x: usize| srcs.contains(x) && reaches(h, seq![x], b, fuel),
    decreases fuel,
{
    if srcs.contains(b) {
        assert(seq![b].contains(b)) by {
            assert(seq![b][0] == b);
        }
        assert(reaches(h, seq![b], b, fuel));
    } else {
        let a = choose|a: usize|
            reaches(h, srcs, a, (fuel - 1) as nat) && h.spec_trace_edges(a as int).contains(b);
        lemma_reaches_split(h, srcs, a, (fuel - 1) as nat);
        let x = choose|x: usize| srcs.contains(x) && reaches(h, seq![x], a, (fuel - 1) as nat);
        assert(reaches(h, seq![x], b, fuel));
    }
}

/// Reachability grows with the source list.
pub proof fn lemma_reaches_mono_srcs<T>(
    h: Heap<T>,
    s1: Seq<usize>,
    s2: Seq<usize>,
    b: usize,
    fuel: nat,
)
    requires
        forall|y: usize| s1.contains(y) ==> #[trigger] s2.contains(y),
        reaches(h, s1, b, fuel),
    ensures
        reaches(h, s2, b, fuel),
    decreases fuel,
{
    if !s1.contains(b) {
        let a = choose|a: usize|
            reaches(h, s1, a, (fuel - 1) as nat) && h.spec_trace_edges(a as int).contains(b);
        lemma_reaches_mono_srcs(h, s1, s2, a, (fuel - 1) as nat);
        assert(reaches(h, s2, b, fuel));
    }
}

/// Edges into `c` from reachable blocks with index below `n`.
pub open spec fn reach_edges_into<T>(h: Heap<T>, srcs: Seq<usize>, c: usize, n: int) -> int
    decreases n,
{
    if n <= 0 {
        0
    } else {
        reach_edges_into(h, srcs, c, n - 1) + if reachable(h, srcs, (n - 1) as usize) {
            occ(h.spec_trace_edges(n - 1), c)
        } else {
            0int
        }
    }
}

/// Edges into `c` from inside the reachable closure of the sources.
pub open spec fn internal_edges_into<T>(h: Heap<T>, srcs: Seq<usize>, c: usize) -> int {
    reach_edges_into(h, srcs, c, h.n_blocks())
}

/// When the traced blocks of `ht` are exactly the blocks reachable in `h0`,
/// and their trace edges agree, the two edge counts agree.
pub proof fn lemma_sums_agree<T>(ht: Heap<T>, h0: Heap<T>, srcs: Seq<usize>, c: usize, n: int)
    requires
        ht.n_blocks() == h0.n_blocks(),
        forall|b: int|
            0 <= b < h0.n_blocks() ==> ((ht.live(b) && ht.mark_of(b) == Mark::Traced)
                == reachable(h0, srcs, b as usize)),
        forall|b: int|
            0 <= b < h0.n_blocks() && h0.live(b) ==> (#[trigger] ht.spec_trace_edges(b))
                == h0.spec_trace_edges(b),
        n <= h0.n_blocks(),
    ensures
        traced_edges_into(ht, c, n) == reach_edges_into(h0, srcs, c, n),
    decreases n,
{
    if n > 0 {
        lemma_sums_agree(ht, h0, srcs, c, n - 1);
        h0.lemma_len_bound();
        let b = (n - 1) as usize;
        assert(b as int == n - 1);
        if reachable(h0, srcs, b) {
            let fuel = choose|fuel: nat| reaches(h0, srcs, b, fuel);
            assert(h0.live(b as int));
            assert(ht.live(b as int) && ht.mark_of(b as int) == Mark::Traced);
            assert(ht.spec_trace_edges(b as int) == h0.spec_trace_edges(b as int));
            assert(traced_occ(ht, b, c) == occ(h0.spec_trace_edges(b as int), c));
        } else {
            assert(!(ht.live(b as int) && ht.mark_of(b as int) == Mark::Traced));
            assert(traced_occ(ht, b, c) == 0);
        }
    }
}

/// A reachable block that still has references no traced edge accounts for:
/// something outside the closure keeps it alive.
pub open spec fn externally_live<T>(h: Heap<T>, srcs: Seq<usize>, x: usize) -> bool {
    reachable(h, srcs, x) && internal_edges_into(h, srcs, x) < h.counter(x as int)
}

/// Some externally live block of the closure reaches `b`.
pub open spec fn saved<T>(h: Heap<T>, srcs: Seq<usize>, b: usize) -> bool {
    exists|x: usize| externally_live(h, srcs, x) && reachable(h, seq![x], b)
}

/// The cycle garbage of a candidate list: reachable from it, and out of
/// reach of every block that an external reference keeps alive.
pub open spec fn cyclic_garbage<T>(h: Heap<T>, srcs: Seq<usize>, b: usize) -> bool {
    reachable(h, srcs, b) && !saved(h, srcs, b)
}

/// The counting phase's bookkeeping for one block: a traced block's tracing
/// count is the number of traced edges into it already consumed from the
/// pending stack, clamped at its strong count; an untraced block's incoming
/// traced edges are all still pending.
pub open spec fn acct_at<T>(h: Heap<T>, pending: Seq<usize>, c: usize) -> bool {
    h.live(c as int) ==> if h.mark_of(c as int) == Mark::Traced {
        &&& in_traced(h, c) - occ(pending, c) >= 0
        &&& (h.tracing(c as int) < h.counter(c as int) ==> h.tracing(c as int) == in_traced(h, c)
            - occ(pending, c))
        &&& (h.tracing(c as int) == h.counter(c as int) ==> in_traced(h, c) - occ(pending, c)
            >= h.counter(c as int))
    } else {
        in_traced(h, c) == occ(pending, c)
    }
}

/// The counting bookkeeping for every block.
pub open spec fn acct<T>(h: Heap<T>, pending: Seq<usize>) -> bool {
    forall|c: usize| (c as int) < h.n_blocks() ==> #[trigger] acct_at(h, pending, c)
}


/// Law: a candidate closure isolated from external roots is garbage in
/// full. If every block reachable from the candidate list has its whole
/// strong count accounted for by edges from inside that closure — no
/// external handle and no edge from outside holds any of it — then nothing
/// in the closure is saved, and one collection reclaims every block of it.
pub proof fn lemma_isolated_closure_is_garbage<T>(h: Heap<T>, srcs: Seq<usize>, b: usize)
    requires
        forall|x: usize|
            #[trigger] reachable(h, srcs, x) ==> internal_edges_into(h, srcs, x) >= h.counter(
                x as int,
            ),
        reachable(h, srcs, b),
    ensures
        cyclic_garbage(h, srcs, b),
{
    if saved(h, srcs, b) {
        let x = choose|x: usize| externally_live(h, srcs, x) && reachable(h, seq![x], b);
        assert(reachable(h, srcs, x));
        assert(false);
    }
}

} // verus!
