//! List support for the collector.
//!
//! The collector's three lists (`possible_cycles`, the per-cycle root list and
//! non-root list) are kept as vectors of block indices; `add` pushes to the
//! head end and `remove` unlinks by value. The lists never hold an index
//! twice, and the contracts here are stated over that no-duplicate view.
//!
//! The module also holds the small counting theory (`count_true`) used for the
//! termination measures of the tracing loops.

use vstd::prelude::*;

verus! {

/// Remove `x` from the list, which must hold no duplicates. After the call
/// the list holds exactly the other elements, in their old order.
pub fn list_remove(v: &mut Vec<usize>, x: usize)
    requires
        old(v)@.no_duplicates(),
    ensures
        final(v)@.no_duplicates(),
        forall|y: usize| #[trigger] final(v)@.contains(y) <==> (old(v)@.contains(y) && y != x),
        final(v)@.len() == old(v)@.len() - (if old(v)@.contains(x) {
            1int
        } else {
            0int
        }),
        forall|y: usize| old(v)@.contains(y) && y != x ==> final(v)@.contains(y),
{
    let ghost orig = v@;
    let mut i: usize = 0;
    while i < v.len()
        invariant
            v@ == orig,
            orig == old(v)@,
            orig.no_duplicates(),
            0 <= i <= orig.len(),
            forall|k: int| 0 <= k < i ==> orig[k] != x,
        decreases v@.len() - i,
    {
        if v[i] == x {
            v.remove(i);
            proof {
                let r = v@;
                assert forall|y: usize| #[trigger] r.contains(y) implies (orig.contains(y) && y
                    != x) by {
                    let k = choose|k: int| 0 <= k < r.len() && r[k] == y;
                    if k < i {
                        assert(orig[k] == y);
                    } else {
                        assert(orig[k + 1] == y);
                    }
                    assert(orig.contains(y));
                    if y == x {
                        let k2 = if k < i {
                            k
                        } else {
                            k + 1
                        };
                        assert(orig[k2] == y && orig[i as int] == x && k2 != i);
                    }
                }
                assert forall|y: usize| orig.contains(y) && y != x implies r.contains(y) by {
                    let k = choose|k: int| 0 <= k < orig.len() && orig[k] == y;
                    if k < i {
                        assert(r[k] == y);
                    } else {
                        assert(k != i);
                        assert(r[k - 1] == y);
                    }
                }
                assert forall|a: int, b: int| 0 <= a < b < r.len() implies r[a] != r[b] by {
                    let a2 = if a < i {
                        a
                    } else {
                        a + 1
                    };
                    let b2 = if b < i {
                        b
                    } else {
                        b + 1
                    };
                    assert(r[a] == orig[a2] && r[b] == orig[b2]);
                }
                assert(orig.contains(x));
            }
            return ;
        }
        i = i + 1;
    }
    proof {
        if orig.contains(x) {
            let k = choose|k: int| 0 <= k < orig.len() && orig[k] == x;
            assert(orig[k] != x);
        }
    }
}

/// Whether the list holds `x`.
pub fn list_contains(v: &Vec<usize>, x: usize) -> (r: bool)
    ensures
        r == v@.contains(x),
{
    let mut i: usize = 0;
    while i < v.len()
        invariant
            0 <= i <= v@.len(),
            forall|k: int| 0 <= k < i ==> v@[k] != x,
        decreases v@.len() - i,
    {
        if v[i] == x {
            return true;
        }
        i = i + 1;
    }
    proof {
        if v@.contains(x) {
            let k = choose|k: int| 0 <= k < v@.len() && v@[k] == x;
            assert(v@[k] != x);
        }
    }
    false
}

/// A by-value copy of a list of indices.
pub fn copy_indices(v: &Vec<usize>) -> (r: Vec<usize>)
    ensures
        r@ == v@,
{
    let mut r: Vec<usize> = Vec::new();
    let mut i: usize = 0;
    while i < v.len()
        invariant
            0 <= i <= v@.len(),
            r@ == v@.subrange(0, i as int),
        decreases v@.len() - i,
    {
        r.push(v[i]);
        proof {
            assert(r@ =~= v@.subrange(0, i + 1 as int));
        }
        i = i + 1;
    }
    proof {
        assert(r@ =~= v@);
    }
    r
}

/// How many entries of `s` are true.
pub open spec fn count_true(s: Seq<bool>) -> int
    decreases s.len(),
{
    if s.len() == 0 {
        0
    } else {
        count_true(s.drop_last()) + if s.last() {
            1int
        } else {
            0int
        }
    }
}

pub proof fn lemma_count_true_bounds(s: Seq<bool>)
    ensures
        0 <= count_true(s) <= s.len(),
    decreases s.len(),
{
    if s.len() > 0 {
        lemma_count_true_bounds(s.drop_last());
    }
}

/// Updating one entry moves the count by the difference of the old and new
/// values.
pub proof fn lemma_count_true_update(s: Seq<bool>, j: int, v: bool)
    requires
        0 <= j < s.len(),
    ensures
        count_true(s.update(j, v)) == count_true(s) - (if s[j] {
            1int
        } else {
            0int
        }) + (if v {
            1int
        } else {
            0int
        }),
    decreases s.len(),
{
    let s2 = s.update(j, v);
    if j == s.len() - 1 {
        assert(s2.drop_last() =~= s.drop_last());
    } else {
        assert(s2.drop_last() =~= s.drop_last().update(j, v));
        lemma_count_true_update(s.drop_last(), j, v);
    }
}

/// Appending to a list extends what it holds by exactly the new element.
pub proof fn lemma_push_contains(s: Seq<usize>, x: usize)
    ensures
        forall|y: usize| #[trigger] s.push(x).contains(y) <==> (s.contains(y) || y == x),
{
    assert forall|y: usize| #[trigger] s.push(x).contains(y) implies (s.contains(y) || y == x) by {
        let k = choose|k: int| 0 <= k < s.push(x).len() && s.push(x)[k] == y;
        if k < s.len() {
            assert(s[k] == y);
        }
    }
    assert forall|y: usize| (s.contains(y) || y == x) implies #[trigger] s.push(x).contains(y) by {
        if y == x {
            assert(s.push(x)[s.len() as int] == y);
        } else {
            let k = choose|k: int| 0 <= k < s.len() && s[k] == y;
            assert(s.push(x)[k] == y);
        }
    }
}

/// Appending a fresh element keeps a list duplicate-free.
pub proof fn lemma_push_no_dup(s: Seq<usize>, x: usize)
    requires
        s.no_duplicates(),
        !s.contains(x),
    ensures
        s.push(x).no_duplicates(),
{
    let t = s.push(x);
    assert forall|a: int, b: int|
        0 <= a < t.len() && 0 <= b < t.len() && a != b implies t[a] != t[b] by {
        if a < s.len() && b < s.len() {
        } else if a == s.len() {
            assert(t[a] == x);
            assert(t[b] == s[b]);
            if s[b] == x {
                assert(s.contains(x));
            }
        } else {
            assert(t[b] == x);
            assert(t[a] == s[a]);
            if s[a] == x {
                assert(s.contains(x));
            }
        }
    }
}

/// A pointwise-smaller sequence has no larger count.
pub proof fn lemma_count_true_le(s1: Seq<bool>, s2: Seq<bool>)
    requires
        s1.len() == s2.len(),
        forall|i: int| 0 <= i < s1.len() && s1[i] ==> s2[i],
    ensures
        count_true(s1) <= count_true(s2),
    decreases s1.len(),
{
    if s1.len() > 0 {
        lemma_count_true_le(s1.drop_last(), s2.drop_last());
    }
}

} // verus!
