//! A read-copy-update cell: a container for a single heap-allocated value,
//! read through counted guards and replaced out-of-place by writers.
//!
//! The synchronization protocol packs a pointer and a reader count into one
//! 128-bit tagged word.  The cell keeps two such words: `latest`, naming the
//! current value, and `to_clear`, the single retirement station where a
//! displaced value waits for its remaining readers to drain before it is
//! freed.  This crate verifies that protocol: the state of a cell is modelled
//! in [`model`], every operation is proved to follow the model's transitions,
//! and the protocol invariants (a referenced allocation is never freed, every
//! allocation is freed at most once, at most one allocation retires at a
//! time) are proved in [`laws`].

pub mod word;
pub mod exclusion;
pub mod model;
pub mod cell;
pub mod laws;

pub use cell::RcuCell;
pub use cell::RcuGuard;
