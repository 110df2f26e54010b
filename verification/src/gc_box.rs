//! Managed-object layout: header, per-type metadata, and the box.
//!
//! Every managed allocation is a `GcBox`: a header carrying the tri-color
//! mark state, the root count and the per-type metadata, the object's child
//! pointers, and the wrapped value itself.

use crate::color::{AtomicColor, Color};
use vstd::prelude::*;

verus! {

/// Per-type metadata shared by every object of one managed type.
///
/// `layout_size` is the byte size of the complete box, used for heap
/// accounting. `no_trace` marks leaf types that contain no managed pointers:
/// the marker may blacken such objects directly instead of queueing them,
/// and they must hold no children.
#[derive(Clone, Copy, Debug, PartialEq, Eq, Structural)]
pub struct GcVTable {
    /// Byte size of the complete box, for accounting.
    pub layout_size: usize,
    /// True for leaf types that contain no managed pointers.
    pub no_trace: bool,
}

/// Header prefixed to every managed allocation.
///
/// Shared by all `GcBox` instances; lets the collector handle objects of
/// different types uniformly.
pub struct GcHeader {
    /// Current color in the tri-color marking algorithm.
    pub color: AtomicColor,
    /// Number of live root handles; the object is a root iff this is
    /// positive.
    pub root_count: usize,
    /// Per-type metadata.
    pub vtable: GcVTable,
}

impl GcHeader {
    /// A fresh header: White, and already rooted once, so a concurrent sweep
    /// can never free an object between allocation and the return of its
    /// first root handle.
    pub(crate) fn new(vtable: GcVTable) -> (r: GcHeader)
        ensures
            r.color@ == Color::White,
            r.root_count == 1,
            r.vtable == vtable,
    {
        GcHeader { color: AtomicColor::new(Color::White), root_count: 1, vtable }
    }

    pub fn inc_root(&mut self)
        requires
            old(self).root_count < usize::MAX,
        ensures
            final(self).root_count == old(self).root_count + 1,
            final(self).color == old(self).color,
            final(self).vtable == old(self).vtable,
    {
        self.root_count = self.root_count + 1;
    }

    pub fn dec_root(&mut self)
        requires
            old(self).root_count >= 1,
        ensures
            final(self).root_count == old(self).root_count - 1,
            final(self).color == old(self).color,
            final(self).vtable == old(self).vtable,
    {
        self.root_count = self.root_count - 1;
    }

    pub fn is_root(&self) -> (r: bool)
        ensures
            r == (self.root_count > 0),
    {
        self.root_count > 0
    }

    /// Whether the object is collectable once marking is complete: White and
    /// not a root.
    pub fn is_white(&self) -> (r: bool)
        ensures
            r == (self.color@ == Color::White && self.root_count == 0),
    {
        self.color.is_white() && !self.is_root()
    }
}

/// A managed object with its metadata.
///
/// The header carries the collector's per-object state; `cells` holds the
/// managed pointers the object owns (its children in the object graph),
/// which the marker traces; `data` is the wrapped value.
pub struct GcBox<V> {
    pub header: GcHeader,
    pub(crate) cells: Vec<crate::cell::GcCell>,
    pub data: V,
}

impl<V> GcBox<V> {
    /// A fresh box: White, rooted once, no children yet.
    pub(crate) fn new(data: V, vtable: GcVTable) -> (r: GcBox<V>)
        ensures
            r.header.color@ == Color::White,
            r.header.root_count == 1,
            r.header.vtable == vtable,
            r.cells@.len() == 0,
            r.data == data,
    {
        GcBox { header: GcHeader::new(vtable), cells: Vec::new(), data }
    }
}

} // verus!
