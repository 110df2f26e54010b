//! A mutable cell holding a managed pointer.
//!
//! Stores into a cell must go through the heap (`Heap::cell_store` for a
//! free-standing cell, `Heap::set_cell` for a cell that is part of a managed
//! object), so that the Dijkstra-style insertion write barrier can shade the
//! incoming pointer gray while marking is in progress.

use crate::ptr::GcPtr;
use vstd::prelude::*;

verus! {

/// Cell for storing a managed pointer with a write barrier.
///
/// Reading is a plain copy; writing goes through the heap so the insertion
/// barrier can run. A cell held inside a managed object is traced: the
/// pointer it stores counts as a child of that object.
#[derive(Clone, Copy, Debug)]
pub struct GcCell {
    ptr: GcPtr,
}

impl GcCell {
    /// The slot the stored pointer designates.
    pub closed spec fn target(self) -> usize {
        self.ptr.id()
    }

    pub fn new(ptr: GcPtr) -> (r: GcCell)
        ensures
            r.target() == ptr.id(),
    {
        GcCell { ptr }
    }

    /// Copy the stored pointer out.
    pub fn get(&self) -> (r: GcPtr)
        ensures
            r.id() == self.target(),
    {
        self.ptr
    }

    /// Raw store without the barrier (for internal use; the heap runs the
    /// barrier before calling this).
    pub(crate) fn store_ptr(&mut self, ptr: GcPtr)
        ensures
            final(self).target() == ptr.id(),
    {
        self.ptr = ptr;
    }
}

} // verus!
