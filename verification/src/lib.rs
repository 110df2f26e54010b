//! A tri-color tracing mark-and-sweep garbage collector engine, verified.
//!
//! The heap manages a table of allocations. Every allocation carries a header
//! with its tri-color mark state and a root count; references between managed
//! objects are held in barrier-aware cells, so the collector can traverse the
//! object graph and the insertion write barrier can shade newly stored
//! references during marking. Collection marks everything reachable from a
//! rooted object and then sweeps: unreachable objects are destroyed and their
//! bytes returned, survivors are reset to white for the next cycle.

mod cell;
mod color;
mod gc_box;
mod heap;
mod ptr;
mod trace;

pub use cell::GcCell;
pub use color::{AtomicColor, Color};
pub use gc_box::{GcBox, GcHeader, GcVTable};
pub use heap::{GcOptions, GcPhase, Heap};
pub use ptr::{GcPtr, GcRoot};
pub use trace::Tracer;
