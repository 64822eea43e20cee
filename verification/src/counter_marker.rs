//! The packed counter/mark word of a control block.
//!
//! A single `u64` holds the strong reference count, the scratch tracing count
//! used by trial deletion, the two-bit mark, and the finalized bit:
//!
//! ```text
//! bits  0..22   strong count        (saturates at 2^22 - 1)
//! bits 22..44   tracing count       (same width)
//! bits 44..46   mark                (NonMarked / PossibleCycles / Traced / Dirty)
//! bit  46       finalized
//! ```
//!
//! Packing keeps every state transition a single word update; the contracts
//! below expose the word only through its four projections.

use vstd::prelude::*;

verus! {

/// Largest representable strong count (and tracing count): `2^22 - 1`.
pub const MAX_COUNTER: u64 = 0x3F_FFFF;

const TRACING_SHIFT: u64 = 22;

const MARK_SHIFT: u64 = 44;

const FINALIZED_SHIFT: u64 = 46;

/// The two-bit mark encoding a block's position in the collection state
/// machine.
#[derive(Clone, Copy, Debug, PartialEq, Eq, Structural)]
pub enum Mark {
    NonMarked,
    PossibleCycles,
    Traced,
    Dirty,
}

/// Failure of a counter update: the count would leave `0 ..= MAX_COUNTER`.
#[derive(Clone, Copy, Debug, PartialEq, Eq, Structural)]
pub enum CounterError {
    Overflow,
    Underflow,
}

/// The packed word. `Copy`, so blocks can be updated by value.
#[derive(Clone, Copy, Debug)]
pub struct CounterMarker {
    word: u64,
}

pub open spec fn mark_of_bits(bits: u64) -> Mark {
    if bits == 0 {
        Mark::NonMarked
    } else if bits == 1 {
        Mark::PossibleCycles
    } else if bits == 2 {
        Mark::Traced
    } else {
        Mark::Dirty
    }
}

impl CounterMarker {
    /// Both packed counts always fit their 22-bit fields.
    pub proof fn lemma_word_bounds(self)
        ensures
            self.counter_spec() <= MAX_COUNTER,
            self.tracing_spec() <= MAX_COUNTER,
    {
        let w = self.word;
        assert((w & MAX_COUNTER) <= MAX_COUNTER && ((w >> TRACING_SHIFT) & MAX_COUNTER)
            <= MAX_COUNTER) by (bit_vector);
    }

    /// The strong reference count stored in the word.
    pub closed spec fn counter_spec(self) -> u64 {
        self.word & MAX_COUNTER
    }

    /// The scratch tracing count stored in the word.
    pub closed spec fn tracing_spec(self) -> u64 {
        (self.word >> TRACING_SHIFT) & MAX_COUNTER
    }

    /// The mark stored in the word.
    pub closed spec fn mark_spec(self) -> Mark {
        mark_of_bits((self.word >> MARK_SHIFT) & 3)
    }

    /// Whether the block's value has already been finalized.
    pub closed spec fn finalized_spec(self) -> bool {
        (self.word >> FINALIZED_SHIFT) & 1 == 1
    }

    /// A fresh word: count 1, tracing count 0, not marked.
    pub fn new_with_counter_to_one(already_finalized: bool) -> (r: Self)
        ensures
            r.counter_spec() == 1,
            r.tracing_spec() == 0,
            r.mark_spec() == Mark::NonMarked,
            r.finalized_spec() == already_finalized,
    {
        let word: u64 = if already_finalized {
            1u64 | (1u64 << FINALIZED_SHIFT)
        } else {
            1u64
        };
        proof {
            assert((1u64 & MAX_COUNTER) == 1 && ((1u64 >> TRACING_SHIFT) & MAX_COUNTER) == 0
                && ((1u64 >> MARK_SHIFT) & 3) == 0 && ((1u64 >> FINALIZED_SHIFT) & 1) == 0)
                by (bit_vector);
            assert({
                let w = 1u64 | (1u64 << FINALIZED_SHIFT);
                (w & MAX_COUNTER) == 1 && ((w >> TRACING_SHIFT) & MAX_COUNTER) == 0 && ((w
                    >> MARK_SHIFT) & 3) == 0 && ((w >> FINALIZED_SHIFT) & 1) == 1
            }) by (bit_vector);
        }
        CounterMarker { word }
    }

    /// Read the strong count.
    pub fn counter(&self) -> (r: u32)
        ensures
            r == self.counter_spec(),
    {
        proof {
            let w = self.word;
            assert((w & MAX_COUNTER) <= MAX_COUNTER) by (bit_vector);
        }
        (self.word & MAX_COUNTER) as u32
    }

    /// Read the tracing count.
    pub fn tracing_counter(&self) -> (r: u32)
        ensures
            r == self.tracing_spec(),
    {
        proof {
            let w = self.word;
            assert(((w >> TRACING_SHIFT) & MAX_COUNTER) <= MAX_COUNTER) by (bit_vector);
        }
        ((self.word >> TRACING_SHIFT) & MAX_COUNTER) as u32
    }

    /// Add one to the strong count; fails exactly when it is saturated.
    pub fn increment_counter(&mut self) -> (r: Result<(), CounterError>)
        ensures
            r is Err <==> old(self).counter_spec() == MAX_COUNTER,
            r is Err ==> r == Result::<(), CounterError>::Err(CounterError::Overflow) && *final(self)
                == *old(self),
            r is Ok ==> final(self).counter_spec() == old(self).counter_spec() + 1,
            final(self).tracing_spec() == old(self).tracing_spec(),
            final(self).mark_spec() == old(self).mark_spec(),
            final(self).finalized_spec() == old(self).finalized_spec(),
    {
        proof {
            let w = self.word;
            assert((w & MAX_COUNTER) <= MAX_COUNTER) by (bit_vector);
        }
        if (self.word & MAX_COUNTER) == MAX_COUNTER {
            Err(CounterError::Overflow)
        } else {
            proof {
                let w = self.word;
                assert((w & MAX_COUNTER) < MAX_COUNTER ==> w < 0xFFFF_FFFF_FFFF_FFFFu64 && (((w
                    + 1) as u64 & MAX_COUNTER) == (w & MAX_COUNTER) + 1) && ((((w + 1) as u64
                    >> TRACING_SHIFT) & MAX_COUNTER) == ((w >> TRACING_SHIFT) & MAX_COUNTER)) && ((((
                w + 1) as u64 >> MARK_SHIFT) & 3) == ((w >> MARK_SHIFT) & 3)) && ((((w + 1) as u64
                    >> FINALIZED_SHIFT) & 1) == ((w >> FINALIZED_SHIFT) & 1))) by (bit_vector);
            }
            self.word = self.word + 1;
            Ok(())
        }
    }

    /// Subtract one from the strong count; fails exactly when it is zero.
    pub fn decrement_counter(&mut self) -> (r: Result<(), CounterError>)
        ensures
            r is Err <==> old(self).counter_spec() == 0,
            r is Err ==> r == Result::<(), CounterError>::Err(CounterError::Underflow) && *final(self)
                == *old(self),
            r is Ok ==> final(self).counter_spec() == old(self).counter_spec() - 1,
            final(self).tracing_spec() == old(self).tracing_spec(),
            final(self).mark_spec() == old(self).mark_spec(),
            final(self).finalized_spec() == old(self).finalized_spec(),
    {
        if (self.word & MAX_COUNTER) == 0 {
            Err(CounterError::Underflow)
        } else {
            proof {
                let w = self.word;
                assert((w & MAX_COUNTER) > 0 ==> w >= 1 && (((w - 1) as u64 & MAX_COUNTER) == (w
                    & MAX_COUNTER) - 1) && ((((w - 1) as u64 >> TRACING_SHIFT) & MAX_COUNTER) == ((w
                    >> TRACING_SHIFT) & MAX_COUNTER)) && ((((w - 1) as u64 >> MARK_SHIFT) & 3) == ((
                w >> MARK_SHIFT) & 3)) && ((((w - 1) as u64 >> FINALIZED_SHIFT) & 1) == ((w
                    >> FINALIZED_SHIFT) & 1))) by (bit_vector);
            }
            self.word = self.word - 1;
            Ok(())
        }
    }

    /// Zero the tracing count.
    pub fn reset_tracing_counter(&mut self)
        ensures
            final(self).tracing_spec() == 0,
            final(self).counter_spec() == old(self).counter_spec(),
            final(self).mark_spec() == old(self).mark_spec(),
            final(self).finalized_spec() == old(self).finalized_spec(),
    {
        proof {
            let w = self.word;
            assert({
                let w2 = w & !(MAX_COUNTER << TRACING_SHIFT);
                ((w2 >> TRACING_SHIFT) & MAX_COUNTER) == 0 && (w2 & MAX_COUNTER) == (w
                    & MAX_COUNTER) && ((w2 >> MARK_SHIFT) & 3) == ((w >> MARK_SHIFT) & 3) && ((w2
                    >> FINALIZED_SHIFT) & 1) == ((w >> FINALIZED_SHIFT) & 1)
            }) by (bit_vector);
        }
        self.word = self.word & !(MAX_COUNTER << TRACING_SHIFT);
    }

    /// Add one to the tracing count; fails exactly when it is saturated.
    pub fn increment_tracing_counter(&mut self) -> (r: Result<(), CounterError>)
        ensures
            r is Err <==> old(self).tracing_spec() == MAX_COUNTER,
            r is Err ==> r == Result::<(), CounterError>::Err(CounterError::Overflow) && *final(self)
                == *old(self),
            r is Ok ==> final(self).tracing_spec() == old(self).tracing_spec() + 1,
            final(self).counter_spec() == old(self).counter_spec(),
            final(self).mark_spec() == old(self).mark_spec(),
            final(self).finalized_spec() == old(self).finalized_spec(),
    {
        proof {
            let w = self.word;
            assert(((w >> TRACING_SHIFT) & MAX_COUNTER) <= MAX_COUNTER) by (bit_vector);
        }
        if ((self.word >> TRACING_SHIFT) & MAX_COUNTER) == MAX_COUNTER {
            Err(CounterError::Overflow)
        } else {
            proof {
                let w = self.word;
                assert(((w >> TRACING_SHIFT) & MAX_COUNTER) < MAX_COUNTER ==> w + (1u64
                    << TRACING_SHIFT) <= 0xFFFF_FFFF_FFFF_FFFFu64 && (((w + (1u64 << TRACING_SHIFT))
                    as u64 & MAX_COUNTER) == (w & MAX_COUNTER)) && ((((w + (1u64 << TRACING_SHIFT))
                    as u64 >> TRACING_SHIFT) & MAX_COUNTER) == ((w >> TRACING_SHIFT) & MAX_COUNTER)
                    + 1) && ((((w + (1u64 << TRACING_SHIFT)) as u64 >> MARK_SHIFT) & 3) == ((w
                    >> MARK_SHIFT) & 3)) && ((((w + (1u64 << TRACING_SHIFT)) as u64
                    >> FINALIZED_SHIFT) & 1) == ((w >> FINALIZED_SHIFT) & 1))) by (bit_vector);
            }
            self.word = self.word + (1u64 << TRACING_SHIFT);
            Ok(())
        }
    }

    /// Overwrite the mark field.
    pub fn mark(&mut self, m: Mark)
        ensures
            final(self).mark_spec() == m,
            final(self).counter_spec() == old(self).counter_spec(),
            final(self).tracing_spec() == old(self).tracing_spec(),
            final(self).finalized_spec() == old(self).finalized_spec(),
    {
        let bits: u64 = match m {
            Mark::NonMarked => 0,
            Mark::PossibleCycles => 1,
            Mark::Traced => 2,
            Mark::Dirty => 3,
        };
        proof {
            let w = self.word;
            let b = bits;
            assert(b <= 3 ==> {
                let w2 = (w & !(3u64 << MARK_SHIFT)) | (b << MARK_SHIFT);
                ((w2 >> MARK_SHIFT) & 3) == b && (w2 & MAX_COUNTER) == (w & MAX_COUNTER) && ((w2
                    >> TRACING_SHIFT) & MAX_COUNTER) == ((w >> TRACING_SHIFT) & MAX_COUNTER) && ((w2
                    >> FINALIZED_SHIFT) & 1) == ((w >> FINALIZED_SHIFT) & 1)
            }) by (bit_vector);
        }
        self.word = (self.word & !(3u64 << MARK_SHIFT)) | (bits << MARK_SHIFT);
    }

    /// Whether the mark says the block is linked into `possible_cycles`.
    pub fn is_in_possible_cycles(&self) -> (r: bool)
        ensures
            r == (self.mark_spec() == Mark::PossibleCycles),
    {
        proof {
            let w = self.word;
            assert(((w >> MARK_SHIFT) & 3) <= 3) by (bit_vector);
        }
        ((self.word >> MARK_SHIFT) & 3) == 1
    }

    /// Whether the block has been visited by the counting phase.
    pub fn is_traced(&self) -> (r: bool)
        ensures
            r == (self.mark_spec() == Mark::Traced),
    {
        proof {
            let w = self.word;
            assert(((w >> MARK_SHIFT) & 3) <= 3) by (bit_vector);
        }
        ((self.word >> MARK_SHIFT) & 3) == 2
    }

    /// Whether the block carries no mark at all.
    pub fn is_not_marked(&self) -> (r: bool)
        ensures
            r == (self.mark_spec() == Mark::NonMarked),
    {
        proof {
            let w = self.word;
            assert(((w >> MARK_SHIFT) & 3) <= 3) by (bit_vector);
        }
        ((self.word >> MARK_SHIFT) & 3) == 0
    }

    /// Whether the finalizer still has to run for this block.
    pub fn needs_finalization(&self) -> (r: bool)
        ensures
            r == !self.finalized_spec(),
    {
        proof {
            let w = self.word;
            assert(((w >> FINALIZED_SHIFT) & 1) <= 1) by (bit_vector);
        }
        ((self.word >> FINALIZED_SHIFT) & 1) == 0
    }

    /// Set or clear the finalized bit.
    pub fn set_finalized(&mut self, finalized: bool)
        ensures
            final(self).finalized_spec() == finalized,
            final(self).counter_spec() == old(self).counter_spec(),
            final(self).tracing_spec() == old(self).tracing_spec(),
            final(self).mark_spec() == old(self).mark_spec(),
    {
        proof {
            let w = self.word;
            assert({
                let w2 = w | (1u64 << FINALIZED_SHIFT);
                ((w2 >> FINALIZED_SHIFT) & 1) == 1 && (w2 & MAX_COUNTER) == (w & MAX_COUNTER) && ((
                w2 >> TRACING_SHIFT) & MAX_COUNTER) == ((w >> TRACING_SHIFT) & MAX_COUNTER) && ((w2
                    >> MARK_SHIFT) & 3) == ((w >> MARK_SHIFT) & 3)
            }) by (bit_vector);
            assert({
                let w2 = w & !(1u64 << FINALIZED_SHIFT);
                ((w2 >> FINALIZED_SHIFT) & 1) == 0 && (w2 & MAX_COUNTER) == (w & MAX_COUNTER) && ((
                w2 >> TRACING_SHIFT) & MAX_COUNTER) == ((w >> TRACING_SHIFT) & MAX_COUNTER) && ((w2
                    >> MARK_SHIFT) & 3) == ((w >> MARK_SHIFT) & 3)
            }) by (bit_vector);
        }
        if finalized {
            self.word = self.word | (1u64 << FINALIZED_SHIFT);
        } else {
            self.word = self.word & !(1u64 << FINALIZED_SHIFT);
        }
    }
}

} // verus!
