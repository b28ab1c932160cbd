//! Writer exclusion: the reader/writer lock that serializes read-modify-write
//! installers.
//!
//! A plain installation takes the shared side of the lock around its swap; a
//! read-modify-write installation takes the exclusive side while it reads the
//! current value, computes, and swaps.  The lock carries no data and no
//! contract states anything of it: it orders writers against each other,
//! which is already expressed here by exclusive access to the cell, so the
//! calls below are trusted only to return.

use parking_lot::lock_api;
use vstd::prelude::*;

verus! {

#[verifier::external_type_specification]
#[verifier::external_body]
pub struct ExRawRwLock(parking_lot::RawRwLock);

#[verifier::external_type_specification]
#[verifier::external_body]
#[verifier::reject_recursive_types(R)]
#[verifier::reject_recursive_types(T)]
pub struct ExRwLock<R, T: ?Sized>(lock_api::RwLock<R, T>);

/// The held shared side of a writer-exclusion lock.  The guard type's own
/// generics carry a trait of `lock_api`, which keeps it from being declared
/// to the verifier directly, so it is held opaquely.
#[verifier::external_body]
pub struct SharedHeld<'a> {
    guard: parking_lot::RwLockReadGuard<'a, ()>,
}

/// The held exclusive side of a writer-exclusion lock, held opaquely for the
/// same reason as [`SharedHeld`].
#[verifier::external_body]
pub struct ExclusiveHeld<'a> {
    guard: parking_lot::RwLockWriteGuard<'a, ()>,
}

/// Relies on parking_lot's `RwLock::new` (through `lock_api`): makes a fresh,
/// unheld reader/writer lock.
#[verifier::external_body]
pub(crate) fn exclusion_new() -> parking_lot::RwLock<()> {
    parking_lot::RwLock::new(())
}

/// Relies on `lock_api::RwLock::read`: returns once the shared side is held.
#[verifier::external_body]
pub(crate) fn acquire_shared<'a>(lock: &'a parking_lot::RwLock<()>) -> SharedHeld<'a> {
    SharedHeld { guard: lock.read() }
}

/// Relies on `lock_api::RwLock::write`: returns once the exclusive side is
/// held.
#[verifier::external_body]
pub(crate) fn acquire_exclusive<'a>(lock: &'a parking_lot::RwLock<()>) -> ExclusiveHeld<'a> {
    ExclusiveHeld { guard: lock.write() }
}

/// Relies on `core::mem::drop`: releases the shared side.
#[verifier::external_body]
pub(crate) fn release_shared(held: SharedHeld<'_>) {
    drop(held)
}

/// Relies on `core::mem::drop`: releases the exclusive side.
#[verifier::external_body]
pub(crate) fn release_exclusive(held: ExclusiveHeld<'_>) {
    drop(held)
}

} // verus!
