//! The shared handle to one keyed semaphore, and the trusted boundary to
//! the underlying counting-semaphore primitive.
//!
//! The semaphore itself (acquire blocks until a permit is free, dropping a
//! permit returns it, permits are never negative) is an outside collaborator
//! that this crate only creates and shares, never reimplements. A handle is
//! modelled by a [`HandleInfo`]: the semaphore it refers to, a creation
//! number that identifies that semaphore among all the semaphores one
//! registry ever creates, and the permit capacity it was created with.
use std::sync::Arc;
use tokio::sync::Semaphore;
use vstd::prelude::*;

verus! {

/// The most permits the underlying semaphore accepts; this equals tokio's
/// `Semaphore::MAX_PERMITS` (`usize::MAX >> 3`, written here as a division
/// of the same value), above which `Semaphore::new` panics.
pub const MAX_SEMAPHORE_PERMITS: usize = usize::MAX / 8;

#[verifier::external_type_specification]
#[verifier::external_body]
pub struct ExSemaphore(Semaphore);

/// Relies on `tokio::sync::Semaphore::new`: it returns a fresh counting
/// semaphore with `permits` initial permits. It panics above
/// `Semaphore::MAX_PERMITS`; the precondition excludes those inputs.
/// Nothing is claimed of the returned value, which is opaque here.
pub assume_specification[ Semaphore::new ](permits: usize) -> Semaphore
    requires
        permits <= MAX_SEMAPHORE_PERMITS,
;

/// Relies on `Arc::clone`: the returned reference is counted against the
/// same allocation, so it carries the very same semaphore.
#[verifier::external_body]
fn clone_semaphore_arc(s: &Arc<Semaphore>) -> (r: Arc<Semaphore>)
    ensures
        r == *s,
{
    Arc::clone(s)
}

/// The ghost content of a handle: which semaphore it refers to, under
/// which identity, and with which capacity.
pub struct HandleInfo {
    /// The shared semaphore itself (an opaque value).
    pub semaphore: Arc<Semaphore>,
    /// Creation number: every semaphore a registry creates gets a distinct
    /// one, so equal numbers mean the identical underlying semaphore.
    pub id: int,
    /// The permit capacity the semaphore was created with.
    pub permits: int,
}

/// A shared, reference-counted handle to one counting semaphore.
///
/// Handles are snapshots of shared ownership: removing the semaphore's key
/// from a registry never invalidates a handle already held, and the
/// semaphore lives until its last handle is dropped.
pub struct SemaphoreHandle {
    semaphore: Arc<Semaphore>,
    id: u64,
    permits: usize,
}

impl View for SemaphoreHandle {
    type V = HandleInfo;

    closed spec fn view(&self) -> HandleInfo {
        HandleInfo {
            semaphore: self.semaphore,
            id: self.id as int,
            permits: self.permits as int,
        }
    }
}

impl SemaphoreHandle {
    /// Creates a handle to a brand-new semaphore with the given capacity,
    /// under the given creation number.
    pub(crate) fn create(id: u64, permits: usize) -> (h: SemaphoreHandle)
        requires
            permits <= MAX_SEMAPHORE_PERMITS,
        ensures
            h@.id == id as int,
            h@.permits == permits as int,
    {
        let sem = Semaphore::new(permits);
        SemaphoreHandle { semaphore: Arc::new(sem), id, permits }
    }

    /// The permit capacity the underlying semaphore was created with.
    pub fn permits(&self) -> (n: usize)
        ensures
            n as int == self@.permits,
    {
        self.permits
    }

    /// The creation number of the underlying semaphore.
    pub fn id(&self) -> (n: u64)
        ensures
            n as int == self@.id,
    {
        self.id
    }

    /// The underlying semaphore, shared: callers perform their own
    /// acquire and release against it, outside the registry.
    pub fn semaphore(&self) -> (s: Arc<Semaphore>)
        ensures
            s == self@.semaphore,
    {
        clone_semaphore_arc(&self.semaphore)
    }

    /// Another handle to the very same semaphore.
    pub fn duplicate(&self) -> (h: SemaphoreHandle)
        ensures
            h@ == self@,
    {
        SemaphoreHandle {
            semaphore: clone_semaphore_arc(&self.semaphore),
            id: self.id,
            permits: self.permits,
        }
    }
}

} // verus!
