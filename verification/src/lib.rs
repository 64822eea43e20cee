//! A sequential, verified model of a thread-aware cycle-collecting shared
//! pointer in the Bacon–Rajan style.
//!
//! Application code allocates values as control blocks inside a [`Heap`];
//! a [`cc::Cc`] handle names one block. Handle clones and drops do not touch
//! the reference count directly: they append deferred deltas to an inbox that
//! the collector drains once per cycle. Cycles that the counts alone cannot
//! reclaim are found by trial deletion over the drained snapshot, using each
//! block's logged-mutex edge snapshot so that tracing never races a writer.
//!
//! The concurrent runtime (threads, condition variables, real mutexes) lives
//! outside this crate; everything here is the collector's logic itself, stated
//! and proved over a single explicit state value.

pub mod cc;
pub mod collector;
pub mod counter_marker;
pub mod graph;
pub mod list;
pub mod log_pointer;
