//! Handles to managed objects.
//!
//! `GcPtr` is a lightweight copyable reference to a heap slot; it does not
//! affect the root count, so an object referenced only by `GcPtr`s is
//! collected unless it is reachable from a root. `GcRoot` is the rooted
//! handle returned by allocation: while the heap's root count for the slot
//! stays positive the object survives every collection.

use vstd::prelude::*;

verus! {

/// Lightweight reference to a managed object.
///
/// `GcPtr` designates a heap slot and does not manage root counts. Use it
/// inside managed objects (through the heap's cells) to reference other
/// managed objects without rooting them; use [`GcRoot`] to keep an object
/// alive.
#[derive(Clone, Copy, Debug, PartialEq, Eq, Structural)]
pub struct GcPtr {
    id: usize,
}

impl GcPtr {
    /// The heap slot this pointer designates.
    pub closed spec fn id(self) -> usize {
        self.id
    }

    /// Create a pointer to the given slot (for internal use).
    pub(crate) fn new(id: usize) -> (r: GcPtr)
        ensures
            r.id() == id,
    {
        GcPtr { id }
    }

    /// The slot index, as a plain integer (for internal use).
    pub(crate) fn index(self) -> (r: usize)
        ensures
            r == self.id(),
    {
        self.id
    }
}

/// Rooted handle to a managed object.
///
/// A `GcRoot` stands for one unit of the object's root count: the heap hands
/// one out from `allocate` (the count starts at 1) and from `clone_root`
/// (which increments), and `drop_root` gives it back (which decrements).
/// An object whose root count is positive is never swept.
pub struct GcRoot {
    ptr: GcPtr,
}

impl GcRoot {
    /// The heap slot this root designates.
    pub closed spec fn id(self) -> usize {
        self.ptr.id()
    }

    /// Wrap an already-rooted slot (for internal use; the slot's root count
    /// must already account for this handle).
    pub(crate) fn new_from_ptr(ptr: GcPtr) -> (r: GcRoot)
        ensures
            r.id() == ptr.id(),
    {
        GcRoot { ptr }
    }

    /// A non-rooting pointer to the same object, for storage in managed data
    /// structures.
    pub fn as_ptr(&self) -> (r: GcPtr)
        ensures
            r.id() == self.id(),
    {
        self.ptr
    }
}

} // verus!
