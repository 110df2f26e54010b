//! The collector engine: heap state, allocation, marking, sweeping, pacing.
//!
//! The heap owns a table of slots, each holding a managed box or nothing.
//! Allocation fills a fresh slot (slots are never reused, so a stale pointer
//! can never alias a new object); sweeping empties the slots of objects that
//! are White and unrooted, which destroys the boxed value and releases its
//! storage.
//!
//! The central invariants, each a conjunct of [`Heap::wf`]:
//! - accounting: `bytes_allocated` equals the sum of `layout_size` over all
//!   live objects;
//! - the strong tri-color invariant: no Black object has a White child,
//!   upheld by the insertion write barrier;
//! - every child pointer of a live object designates a live object (no
//!   dangling references);
//! - while the collector is idle every object is White and the gray queue is
//!   empty.

use crate::cell::GcCell;
use crate::color::Color;
use crate::gc_box::{GcBox, GcHeader, GcVTable};
use crate::ptr::{GcPtr, GcRoot};
use crate::trace::{lemma_concat_contains, lemma_drop_last_contains, lemma_push_contains, Tracer};
use vstd::prelude::*;

verus! {

/// Coarse collector state.
#[derive(Clone, Copy, Debug, PartialEq, Eq, Structural)]
pub enum GcPhase {
    /// No collection in progress.
    Idle,
    /// Reachable objects are being marked.
    Marking,
    /// Unreachable objects are being swept.
    Sweeping,
}

/// Garbage collection tuning options.
#[derive(Clone, Copy, Debug, PartialEq, Eq, Structural)]
pub struct GcOptions {
    /// Milliseconds between background collection attempts; 0 disables
    /// background collection.
    pub collection_interval_millis: usize,
    /// Work budget for incremental marking steps in background collection.
    pub incremental_work_budget: usize,
    /// Work budget for mutator assist during allocation (0 = disabled).
    pub assist_work_budget: usize,
    /// Percentage of growth headroom added to live bytes after a sweep to
    /// form the next collection threshold. 0 or `usize::MAX` disables
    /// threshold-based collection.
    pub threshold_percent: usize,
    /// A freshly computed threshold below the current one is adopted only if
    /// it falls below this percentage of the current one; 100 means always
    /// shrink, 0 means never shrink.
    pub threshold_shrink_percent: usize,
    /// Initial and minimum collection threshold in bytes.
    pub min_threshold_bytes: usize,
    /// Hard cap on heap size in bytes; exceeding it forces collection.
    pub limit_bytes: usize,
}

/// The default interactive profile.
pub open spec fn default_options() -> GcOptions {
    GcOptions {
        collection_interval_millis: 100,
        incremental_work_budget: 100,
        assist_work_budget: 5,
        threshold_percent: 30,
        threshold_shrink_percent: 30,
        min_threshold_bytes: 1048576,
        limit_bytes: usize::MAX,
    }
}

/// The profile with threshold-driven and background collection disabled;
/// `force_collect` remains functional.
pub open spec fn off_options() -> GcOptions {
    GcOptions {
        collection_interval_millis: 0,
        incremental_work_budget: usize::MAX,
        assist_work_budget: 0,
        threshold_percent: usize::MAX,
        threshold_shrink_percent: 0,
        min_threshold_bytes: usize::MAX,
        limit_bytes: usize::MAX,
    }
}

impl GcOptions {
    pub open spec fn spec_is_threshold_off(self) -> bool {
        self.threshold_percent == 0 || self.threshold_percent == usize::MAX
    }

    pub open spec fn spec_is_limit_off(self) -> bool {
        self.limit_bytes == usize::MAX
    }

    pub open spec fn spec_is_background_collection_off(self) -> bool {
        self.spec_is_threshold_off() || self.collection_interval_millis == 0
    }

    pub open spec fn spec_is_completely_off(self) -> bool {
        self.spec_is_threshold_off() && self.spec_is_limit_off()
    }

    /// The pacing rule: the next collection threshold, computed from the old
    /// threshold and the bytes that survived a sweep. Live bytes plus the
    /// growth headroom, kept at the old value unless the shrink guard lets a
    /// smaller value through, clamped below by the minimum threshold and
    /// above by `usize::MAX`.
    pub open spec fn spec_calculate_threshold(self, old_threshold: int, live_usage: int) -> int {
        if self.spec_is_threshold_off() {
            usize::MAX as int
        } else {
            let raw = live_usage + (live_usage * self.threshold_percent) / 100;
            if raw < old_threshold && (self.threshold_shrink_percent == 0 || (
            self.threshold_shrink_percent < 100 && raw > (old_threshold
                * self.threshold_shrink_percent) / 100)) {
                old_threshold
            } else {
                let clamped = if raw < self.min_threshold_bytes {
                    self.min_threshold_bytes as int
                } else {
                    raw
                };
                if clamped > usize::MAX as int {
                    usize::MAX as int
                } else {
                    clamped
                }
            }
        }
    }

    /// The default interactive profile.
    pub fn new() -> (r: GcOptions)
        ensures
            r == default_options(),
    {
        GcOptions {
            collection_interval_millis: 100,
            incremental_work_budget: 100,
            assist_work_budget: 5,
            threshold_percent: 30,
            threshold_shrink_percent: 30,
            min_threshold_bytes: 1048576,
            limit_bytes: usize::MAX,
        }
    }

    /// The profile that disables automatic collection.
    pub fn off() -> (r: GcOptions)
        ensures
            r == off_options(),
    {
        GcOptions {
            collection_interval_millis: 0,
            incremental_work_budget: usize::MAX,
            assist_work_budget: 0,
            threshold_percent: usize::MAX,
            threshold_shrink_percent: 0,
            min_threshold_bytes: usize::MAX,
            limit_bytes: usize::MAX,
        }
    }

    fn is_threshold_off(&self) -> (r: bool)
        ensures
            r == self.spec_is_threshold_off(),
    {
        self.threshold_percent == 0 || self.threshold_percent == usize::MAX
    }

    fn is_limit_off(&self) -> (r: bool)
        ensures
            r == self.spec_is_limit_off(),
    {
        self.limit_bytes == usize::MAX
    }

    /// Whether the background worker has nothing to do for these options.
    pub fn is_background_collection_off(&self) -> (r: bool)
        ensures
            r == self.spec_is_background_collection_off(),
    {
        self.is_threshold_off() || self.collection_interval_millis == 0
    }

    fn is_completely_off(&self) -> (r: bool)
        ensures
            r == self.spec_is_completely_off(),
    {
        self.is_threshold_off() && self.is_limit_off()
    }

    /// Pacing: compute the next collection threshold from the old one and
    /// the bytes that survived the sweep.
    fn calculate_threshold(&self, old_threshold: usize, live_usage: usize) -> (r: usize)
        ensures
            r == self.spec_calculate_threshold(old_threshold as int, live_usage as int),
    {
        if self.is_threshold_off() {
            return usize::MAX;
        }
        let live: u128 = live_usage as u128;
        let tp: u128 = self.threshold_percent as u128;
        proof {
            assert(live * tp <= (u64::MAX as u128) * (u64::MAX as u128)) by (nonlinear_arith)
                requires
                    live <= u64::MAX as u128,
                    tp <= u64::MAX as u128,
            ;
        }
        let raw: u128 = live + (live * tp) / 100;
        let old128: u128 = old_threshold as u128;
        if raw < old128 {
            if self.threshold_shrink_percent == 0 {
                return old_threshold;
            } else if self.threshold_shrink_percent < 100 {
                let sp: u128 = self.threshold_shrink_percent as u128;
                proof {
                    assert(old128 * sp <= (u64::MAX as u128) * 100) by (nonlinear_arith)
                        requires
                            old128 <= u64::MAX as u128,
                            sp <= 100,
                    ;
                }
                let shrink_limit: u128 = (old128 * sp) / 100;
                if raw > shrink_limit {
                    return old_threshold;
                }
            }
        }
        let clamped: u128 = if raw < self.min_threshold_bytes as u128 {
            self.min_threshold_bytes as u128
        } else {
            raw
        };
        if clamped > usize::MAX as u128 {
            usize::MAX
        } else {
            clamped as usize
        }
    }
}

/// The garbage-collected heap.
///
/// Manages allocation and reclamation of managed objects and implements the
/// tri-color mark-and-sweep collection algorithm with incremental marking
/// support.
pub struct Heap<V> {
    /// The allocation table; a `None` slot held an object that has been
    /// swept. Slots are never reused.
    slots: Vec<Option<GcBox<V>>>,
    /// Garbage collection options.
    options: GcOptions,
    /// Total bytes currently allocated.
    bytes_allocated: usize,
    /// Current collection threshold in bytes.
    current_threshold: usize,
    /// Shared gray queue for incremental marking.
    gray_queue: Vec<usize>,
    /// Current collection phase.
    phase: GcPhase,
    /// Whether mutator assist runs during allocation; set exactly while
    /// marking.
    assist_enabled: bool,
}

impl<V> Heap<V> {
    // ------------------------------------------------------------------
    // The mathematical model: observations of the heap state.
    // ------------------------------------------------------------------
    /// Number of slots ever allocated (live or already swept).
    pub closed spec fn n_slots(self) -> int {
        self.slots@.len() as int
    }

    /// Whether `id` designates a live object.
    pub closed spec fn live(self, id: usize) -> bool {
        id < self.slots@.len() && self.slots@[id as int] is Some
    }

    spec fn node(self, id: usize) -> GcBox<V>
        recommends
            self.live(id),
    {
        self.slots@[id as int].unwrap()
    }

    /// Mark color of a live object.
    pub closed spec fn color(self, id: usize) -> Color
        recommends
            self.live(id),
    {
        self.node(id).header.color@
    }

    /// Root count of a live object.
    pub closed spec fn root_count(self, id: usize) -> int
        recommends
            self.live(id),
    {
        self.node(id).header.root_count as int
    }

    /// Accounted byte size of a live object.
    pub closed spec fn node_size(self, id: usize) -> int
        recommends
            self.live(id),
    {
        self.node(id).header.vtable.layout_size as int
    }

    /// Whether a live object is of a leaf type without managed pointers.
    pub closed spec fn no_trace(self, id: usize) -> bool
        recommends
            self.live(id),
    {
        self.node(id).header.vtable.no_trace
    }

    /// Number of child pointers (cells) of a live object.
    pub closed spec fn n_children(self, id: usize) -> int
        recommends
            self.live(id),
    {
        self.node(id).cells@.len() as int
    }

    /// The `j`-th child pointer of a live object.
    pub closed spec fn child(self, id: usize, j: int) -> usize
        recommends
            self.live(id),
            0 <= j < self.n_children(id),
    {
        self.node(id).cells@[j].target()
    }

    /// The value stored in a live object.
    pub closed spec fn value(self, id: usize) -> V
        recommends
            self.live(id),
    {
        self.node(id).data
    }

    /// Current collection phase.
    pub closed spec fn phase(self) -> GcPhase {
        self.phase
    }

    /// Total bytes currently allocated.
    pub closed spec fn bytes(self) -> int {
        self.bytes_allocated as int
    }

    /// Current collection threshold.
    pub closed spec fn threshold(self) -> int {
        self.current_threshold as int
    }

    /// The options this heap was created with.
    pub closed spec fn opts(self) -> GcOptions {
        self.options
    }

    /// The shared gray queue, as a sequence of slot indices.
    pub closed spec fn queue(self) -> Seq<usize> {
        self.gray_queue@
    }

    /// Whether mutator assist is enabled.
    pub closed spec fn assist(self) -> bool {
        self.assist_enabled
    }

    /// Sum of the accounted sizes of the live objects among the first `n`
    /// slots.
    pub closed spec fn sum_live_bytes(self, n: int) -> int {
        sum_bytes_seq(self.slots@, n)
    }

    /// Number of live objects among the first `n` slots.
    pub closed spec fn count_live(self, n: int) -> int {
        count_live_seq(self.slots@, n)
    }

    /// Number of live objects.
    pub open spec fn num_live(self) -> int {
        self.count_live(self.n_slots())
    }

    /// Marking progress measure over the first `n` slots: a White object
    /// weighs 2, a Gray one 1, a Black one 0. Every unit of marking work
    /// strictly decreases it, which bounds the drain loops.
    pub closed spec fn weight_sum(self, n: int) -> int {
        weight_seq(self.slots@, n)
    }

    // ------------------------------------------------------------------
    // Reachability.
    // ------------------------------------------------------------------
    /// `a` holds a child pointer to `b`.
    pub open spec fn edge(self, a: usize, b: usize) -> bool {
        self.live(a) && exists|j: int| 0 <= j < self.n_children(a) && #[trigger] self.child(a, j)
            == b
    }

    /// `p` is a chain of child pointers starting at a rooted object.
    pub open spec fn is_path(self, p: Seq<usize>) -> bool {
        &&& p.len() > 0
        &&& self.live(p[0])
        &&& self.root_count(p[0]) > 0
        &&& forall|i: int|
            1 <= i < p.len() ==> self.live(#[trigger] p[i]) && self.edge(p[i - 1], p[i])
    }

    /// `id` is reachable from some rooted object (a rooted object is
    /// reachable via the empty chain).
    pub open spec fn reachable(self, id: usize) -> bool {
        exists|p: Seq<usize>| self.is_path(p) && p.last() == id
    }

    // ------------------------------------------------------------------
    // Well-formedness.
    // ------------------------------------------------------------------
    /// Accounting: `bytes_allocated` equals the sum of `layout_size` over
    /// all live objects.
    pub open spec fn accounting_ok(self) -> bool {
        self.bytes() == self.sum_live_bytes(self.n_slots())
    }

    /// Every child pointer of a live object designates a live object.
    pub open spec fn children_live(self) -> bool {
        forall|id: usize, j: int|
            self.live(id) && 0 <= j < self.n_children(id) ==> self.live(#[trigger] self.child(id, j))
    }

    /// Leaf objects hold no child pointers.
    pub open spec fn leaves_ok(self) -> bool {
        forall|id: usize| self.live(id) && #[trigger] self.no_trace(id) ==> self.n_children(id) == 0
    }

    /// The gray queue plus a marker's local buffer: every entry is live and
    /// not White, and every Gray object is in one of the two.
    pub open spec fn queue_wf_with(self, extra: Seq<usize>) -> bool {
        &&& forall|x: usize|
            #[trigger] self.queue().contains(x) ==> self.live(x) && self.color(x) != Color::White
        &&& forall|x: usize|
            #[trigger] extra.contains(x) ==> self.live(x) && self.color(x) != Color::White
        &&& forall|id: usize|
            self.live(id) && #[trigger] self.color(id) == Color::Gray ==> self.queue().contains(id)
                || extra.contains(id)
    }

    /// The strong tri-color invariant: no Black object has a White child.
    pub open spec fn tri_color_ok(self) -> bool {
        forall|id: usize, j: int|
            self.live(id) && self.color(id) == Color::Black && 0 <= j < self.n_children(id)
                ==> self.color(#[trigger] self.child(id, j)) != Color::White
    }

    /// During marking, a White object that is rooted (it was allocated or
    /// rooted after the root scan) has no White children: every child it
    /// acquired went through the insertion barrier.
    pub open spec fn fresh_roots_ok(self) -> bool {
        self.phase() == GcPhase::Marking ==> forall|id: usize, j: int|
            self.live(id) && self.color(id) == Color::White && self.root_count(id) > 0 && 0 <= j
                < self.n_children(id) ==> self.color(#[trigger] self.child(id, j)) != Color::White
    }

    /// While the collector is idle, every object is White and the gray queue
    /// is empty.
    pub open spec fn idle_ok(self) -> bool {
        self.phase() == GcPhase::Idle ==> self.queue().len() == 0 && forall|id: usize|
            self.live(id) ==> #[trigger] self.color(id) == Color::White
    }

    /// The heap invariant, as seen while a marker's local buffer `extra` is
    /// in flight: its entries count as part of the gray queue.
    pub open spec fn wf_with(self, extra: Seq<usize>) -> bool {
        &&& self.accounting_ok()
        &&& self.children_live()
        &&& self.leaves_ok()
        &&& self.queue_wf_with(extra)
        &&& self.tri_color_ok()
        &&& self.fresh_roots_ok()
        &&& self.idle_ok()
        &&& self.assist() == (self.phase() == GcPhase::Marking)
        &&& self.phase() != GcPhase::Sweeping
    }

    /// The heap invariant: every public operation preserves it.
    pub open spec fn wf(self) -> bool {
        self.wf_with(Seq::<usize>::empty())
    }

    /// Pacing decision: collect when the heap exceeds the hard cap or the
    /// current threshold, unless collection is completely off.
    pub open spec fn spec_should_collect(self) -> bool {
        !self.opts().spec_is_completely_off() && ((!self.opts().spec_is_limit_off() && self.bytes()
            > self.opts().limit_bytes) || self.bytes() > self.threshold())
    }

    /// Sweeping is safe: every object that would survive (non-White or
    /// rooted) has only children that would survive, so no surviving object
    /// is left with a dangling pointer. Implied by the heap invariant once
    /// the gray queue is drained.
    pub open spec fn sweep_safe(self) -> bool {
        forall|id: usize, j: int|
            self.live(id) && (self.color(id) != Color::White || self.root_count(id) > 0) && 0 <= j
                < self.n_children(id) ==> (self.color(#[trigger] self.child(id, j)) != Color::White
                || self.root_count(self.child(id, j)) > 0)
    }
}

/// Whether slot `id` of a slot table holds a live object.
spec fn seq_live<V>(s: Seq<Option<GcBox<V>>>, id: int) -> bool {
    0 <= id < s.len() && s[id] is Some
}

/// Sum of the accounted sizes of the live objects among the first `n` slots
/// of a slot table.
spec fn sum_bytes_seq<V>(s: Seq<Option<GcBox<V>>>, n: int) -> int
    decreases n,
{
    if n <= 0 {
        0
    } else {
        sum_bytes_seq(s, n - 1) + if seq_live(s, n - 1) {
            s[n - 1].unwrap().header.vtable.layout_size as int
        } else {
            0
        }
    }
}

/// Number of live objects among the first `n` slots of a slot table.
spec fn count_live_seq<V>(s: Seq<Option<GcBox<V>>>, n: int) -> int
    decreases n,
{
    if n <= 0 {
        0
    } else {
        count_live_seq(s, n - 1) + if seq_live(s, n - 1) {
            1int
        } else {
            0int
        }
    }
}

/// Marking measure over the first `n` slots of a slot table.
spec fn weight_seq<V>(s: Seq<Option<GcBox<V>>>, n: int) -> int
    decreases n,
{
    if n <= 0 {
        0
    } else {
        weight_seq(s, n - 1) + if seq_live(s, n - 1) {
            color_weight(s[n - 1].unwrap().header.color@)
        } else {
            0
        }
    }
}

/// Weight of a color in the marking progress measure.
pub open spec fn color_weight(c: Color) -> int {
    match c {
        Color::White => 2,
        Color::Gray => 1,
        Color::Black => 0,
    }
}

/// Units of marking work visible between two heap states: the number of
/// objects among the first `n` slots that were Gray in `pre` and are Black
/// in `post`. Each unit of drain work scans and blackens at most one Gray
/// object, so this count bounds from below nothing and from above the work
/// a bounded drain call may perform.
pub open spec fn count_blackened<V>(pre: Heap<V>, post: Heap<V>, n: int) -> int
    decreases n,
{
    if n <= 0 {
        0
    } else {
        count_blackened(pre, post, n - 1) + if pre.live((n - 1) as usize) && pre.color(
            (n - 1) as usize,
        ) == Color::Gray && post.live((n - 1) as usize) && post.color((n - 1) as usize)
            == Color::Black {
            1int
        } else {
            0int
        }
    }
}

/// No object is both Gray and Black: a state blackens nothing against
/// itself.
proof fn lemma_count_blackened_refl<V>(pre: Heap<V>, n: int)
    ensures
        count_blackened(pre, pre, n) == 0,
    decreases n,
{
    if n > 0 {
        lemma_count_blackened_refl(pre, n - 1);
    }
}

/// The blackened count does not change across a step that leaves every
/// object that was Gray in `pre` with the same liveness and color.
proof fn lemma_count_blackened_agree<V>(pre: Heap<V>, a: Heap<V>, b: Heap<V>, n: int)
    requires
        n <= usize::MAX as int + 1,
        forall|id: usize|
            id < n && pre.live(id) && (#[trigger] pre.color(id)) == Color::Gray ==> a.live(id)
                == b.live(id) && (a.live(id) ==> a.color(id) == b.color(id)),
    ensures
        count_blackened(pre, a, n) == count_blackened(pre, b, n),
    decreases n,
{
    if n > 0 {
        lemma_count_blackened_agree(pre, a, b, n - 1);
        let x = (n - 1) as usize;
        if pre.live(x) && pre.color(x) == Color::Gray {
            assert(a.live(x) == b.live(x) && (a.live(x) ==> a.color(x) == b.color(x)));
        }
    }
}

/// A step that may change one object freely, and otherwise touches no
/// object that was Gray in `pre`, blackens at most one more object.
proof fn lemma_count_blackened_step<V>(pre: Heap<V>, a: Heap<V>, b: Heap<V>, id: usize, n: int)
    requires
        n <= usize::MAX as int + 1,
        forall|x: usize|
            x != id && x < n && pre.live(x) && (#[trigger] pre.color(x)) == Color::Gray ==> a.live(
                x,
            ) == b.live(x) && (a.live(x) ==> a.color(x) == b.color(x)),
    ensures
        count_blackened(pre, b, n) <= count_blackened(pre, a, n) + if id < n {
            1int
        } else {
            0int
        },
    decreases n,
{
    if n > 0 {
        lemma_count_blackened_step(pre, a, b, id, n - 1);
        let x = (n - 1) as usize;
        if x != id && pre.live(x) && pre.color(x) == Color::Gray {
            assert(a.live(x) == b.live(x) && (a.live(x) ==> a.color(x) == b.color(x)));
        }
    }
}

/// The two heaps have the same slots, live in the same places.
pub open spec fn same_allocs<V>(pre: Heap<V>, post: Heap<V>) -> bool {
    post.n_slots() == pre.n_slots() && forall|id: usize| pre.live(id) == #[trigger] post.live(id)
}

/// Everything about the live object `id` except its color is the same in
/// both heaps.
pub open spec fn node_attrs_eq<V>(pre: Heap<V>, post: Heap<V>, id: usize) -> bool {
    &&& post.root_count(id) == pre.root_count(id)
    &&& post.node_size(id) == pre.node_size(id)
    &&& post.no_trace(id) == pre.no_trace(id)
    &&& post.n_children(id) == pre.n_children(id)
    &&& forall|j: int| 0 <= j < pre.n_children(id) ==> post.child(id, j) == pre.child(id, j)
    &&& post.value(id) == pre.value(id)
}

/// Same objects with the same values, root counts and children; only colors
/// may differ. This is what marking leaves intact.
pub open spec fn graph_preserved<V>(pre: Heap<V>, post: Heap<V>) -> bool {
    &&& same_allocs(pre, post)
    &&& forall|id: usize| pre.live(id) ==> (#[trigger] post.root_count(id)) == pre.root_count(id)
    &&& forall|id: usize| pre.live(id) ==> (#[trigger] post.node_size(id)) == pre.node_size(id)
    &&& forall|id: usize| pre.live(id) ==> (#[trigger] post.no_trace(id)) == pre.no_trace(id)
    &&& forall|id: usize| pre.live(id) ==> (#[trigger] post.n_children(id)) == pre.n_children(id)
    &&& forall|id: usize, j: int|
        pre.live(id) && 0 <= j < pre.n_children(id) ==> (#[trigger] post.child(id, j))
            == pre.child(id, j)
    &&& forall|id: usize| pre.live(id) ==> (#[trigger] post.value(id)) == pre.value(id)
}

/// Marking only darkens: no color moves back toward White.
pub open spec fn colors_darkened<V>(pre: Heap<V>, post: Heap<V>) -> bool {
    forall|id: usize| pre.live(id) ==> pre.color(id).le(#[trigger] post.color(id))
}

/// The two states agree on every observation of the heap model: same
/// objects with the same values, roots, children and colors, same queue and
/// same bookkeeping. A step that ensures this did no visible work.
pub open spec fn same_observations<V>(pre: Heap<V>, post: Heap<V>) -> bool {
    &&& graph_preserved(pre, post)
    &&& forall|x: usize| pre.live(x) ==> (#[trigger] post.color(x)) == pre.color(x)
    &&& meta_eq(pre, post)
    &&& post.queue() == pre.queue()
}

/// The collector bookkeeping apart from the gray queue (phase, counters,
/// options, assist flag) is unchanged.
pub open spec fn meta_eq<V>(pre: Heap<V>, post: Heap<V>) -> bool {
    &&& post.phase() == pre.phase()
    &&& post.bytes() == pre.bytes()
    &&& post.threshold() == pre.threshold()
    &&& post.opts() == pre.opts()
    &&& post.assist() == pre.assist()
}

impl<V> Heap<V> {
    // ------------------------------------------------------------------
    // Construction.
    // ------------------------------------------------------------------
    /// An empty heap with the given options. The initial threshold is the
    /// minimum threshold.
    pub fn with_options(options: GcOptions) -> (r: Heap<V>)
        ensures
            r.wf(),
            r.n_slots() == 0,
            r.num_live() == 0,
            r.bytes() == 0,
            r.threshold() == options.min_threshold_bytes,
            r.opts() == options,
            r.phase() == GcPhase::Idle,
            forall|id: usize| !r.live(id),
    {
        Heap {
            slots: Vec::new(),
            options,
            bytes_allocated: 0,
            current_threshold: options.min_threshold_bytes,
            gray_queue: Vec::new(),
            phase: GcPhase::Idle,
            assist_enabled: false,
        }
    }

    /// An empty heap with the default options.
    pub fn new() -> (r: Heap<V>)
        ensures
            r.wf(),
            r.n_slots() == 0,
            r.num_live() == 0,
            r.bytes() == 0,
            r.opts() == default_options(),
            r.threshold() == default_options().min_threshold_bytes,
            r.phase() == GcPhase::Idle,
            forall|id: usize| !r.live(id),
    {
        Self::with_options(GcOptions::new())
    }

    /// An empty heap with automatic collection disabled.
    pub fn off() -> (r: Heap<V>)
        ensures
            r.wf(),
            r.n_slots() == 0,
            r.num_live() == 0,
            r.bytes() == 0,
            r.opts() == off_options(),
            r.threshold() == off_options().min_threshold_bytes,
            r.phase() == GcPhase::Idle,
            forall|id: usize| !r.live(id),
    {
        Self::with_options(GcOptions::off())
    }

    // ------------------------------------------------------------------
    // Observations.
    // ------------------------------------------------------------------
    /// Total bytes currently allocated.
    pub fn bytes_allocated(&self) -> (r: usize)
        ensures
            r == self.bytes(),
    {
        self.bytes_allocated
    }

    /// Whether the collector is currently marking.
    pub fn is_marking(&self) -> (r: bool)
        ensures
            r == (self.phase() == GcPhase::Marking),
    {
        self.phase == GcPhase::Marking
    }

    /// Pacing decision: whether the heap has grown past its threshold or its
    /// hard cap.
    pub fn should_collect(&self) -> (r: bool)
        ensures
            r == self.spec_should_collect(),
    {
        if self.options.is_completely_off() {
            return false;
        }
        if !self.options.is_limit_off() && self.bytes_allocated > self.options.limit_bytes {
            return true;
        }
        self.bytes_allocated > self.current_threshold
    }

    fn live_at(&self, id: usize) -> (r: bool)
        ensures
            r == self.live(id),
    {
        id < self.slots.len() && self.slots[id].is_some()
    }

    /// Number of live objects, counted by walking the allocation table.
    pub fn allocation_count(&self) -> (r: usize)
        ensures
            r == self.num_live(),
    {
        let n = self.slots.len();
        let mut count: usize = 0;
        let mut i: usize = 0;
        while i < n
            invariant
                n == self.n_slots(),
                i <= n,
                count == self.count_live(i as int),
                count <= i,
            decreases n - i,
        {
            if self.live_at(i) {
                count = count + 1;
            }
            i = i + 1;
        }
        count
    }

    /// The header of a live object, for inspecting its color and root count.
    pub fn header(&self, p: GcPtr) -> (r: &GcHeader)
        requires
            self.live(p.id()),
        ensures
            r.color@ == self.color(p.id()),
            r.root_count == self.root_count(p.id()),
            r.vtable.layout_size == self.node_size(p.id()),
            r.vtable.no_trace == self.no_trace(p.id()),
    {
        let id = p.index();
        if let Some(b) = &self.slots[id] {
            &b.header
        } else {
            vstd::pervasive::unreached()
        }
    }

    /// Read access to the value of a live object.
    pub fn get(&self, p: GcPtr) -> (r: &V)
        requires
            self.live(p.id()),
        ensures
            *r == self.value(p.id()),
    {
        let id = p.index();
        if let Some(b) = &self.slots[id] {
            &b.data
        } else {
            vstd::pervasive::unreached()
        }
    }

    /// Number of child pointers of a live object.
    pub fn cells_len(&self, p: GcPtr) -> (r: usize)
        requires
            self.live(p.id()),
        ensures
            r == self.n_children(p.id()),
    {
        let id = p.index();
        if let Some(b) = &self.slots[id] {
            b.cells.len()
        } else {
            vstd::pervasive::unreached()
        }
    }

    /// The `j`-th child pointer of a live object.
    pub fn cell_get(&self, p: GcPtr, j: usize) -> (r: GcPtr)
        requires
            self.live(p.id()),
            j < self.n_children(p.id()),
        ensures
            r.id() == self.child(p.id(), j as int),
    {
        let id = p.index();
        if let Some(b) = &self.slots[id] {
            b.cells[j].get()
        } else {
            vstd::pervasive::unreached()
        }
    }

    /// Whether a pointer designates a live object. A pointer whose object
    /// has been swept stays dead forever: slots are not reused.
    pub fn is_live(&self, p: GcPtr) -> (r: bool)
        ensures
            r == self.live(p.id()),
    {
        self.live_at(p.index())
    }

    /// Number of slots this heap has ever allocated, live or swept; every
    /// live object's slot index is below it.
    pub fn slot_count(&self) -> (r: usize)
        ensures
            r == self.n_slots(),
    {
        self.slots.len()
    }

    // ------------------------------------------------------------------
    // Internal reads.
    // ------------------------------------------------------------------
    fn color_at(&self, id: usize) -> (r: Color)
        requires
            self.live(id),
        ensures
            r == self.color(id),
    {
        if let Some(b) = &self.slots[id] {
            b.header.color.load()
        } else {
            vstd::pervasive::unreached()
        }
    }

    fn no_trace_at(&self, id: usize) -> (r: bool)
        requires
            self.live(id),
        ensures
            r == self.no_trace(id),
    {
        if let Some(b) = &self.slots[id] {
            b.header.vtable.no_trace
        } else {
            vstd::pervasive::unreached()
        }
    }

    fn size_at(&self, id: usize) -> (r: usize)
        requires
            self.live(id),
        ensures
            r == self.node_size(id),
    {
        if let Some(b) = &self.slots[id] {
            b.header.vtable.layout_size
        } else {
            vstd::pervasive::unreached()
        }
    }

    fn root_count_at(&self, id: usize) -> (r: usize)
        requires
            self.live(id),
        ensures
            r == self.root_count(id),
    {
        if let Some(b) = &self.slots[id] {
            b.header.root_count
        } else {
            vstd::pervasive::unreached()
        }
    }

    fn n_children_at(&self, id: usize) -> (r: usize)
        requires
            self.live(id),
        ensures
            r == self.n_children(id),
    {
        if let Some(b) = &self.slots[id] {
            b.cells.len()
        } else {
            vstd::pervasive::unreached()
        }
    }

    fn child_at(&self, id: usize, j: usize) -> (r: usize)
        requires
            self.live(id),
            j < self.n_children(id),
        ensures
            r == self.child(id, j as int),
    {
        if let Some(b) = &self.slots[id] {
            b.cells[j].get().index()
        } else {
            vstd::pervasive::unreached()
        }
    }

    // ------------------------------------------------------------------
    // Internal writes: each changes exactly one aspect of one slot.
    // ------------------------------------------------------------------
    fn set_color_at(&mut self, id: usize, c: Color)
        requires
            old(self).live(id),
        ensures
            graph_preserved(*old(self), *final(self)),
            meta_eq(*old(self), *final(self)),
            final(self).queue() == old(self).queue(),
            final(self).color(id) == c,
            forall|x: usize|
                old(self).live(x) && x != id ==> final(self).color(x) == old(self).color(x),
    {
        let slot = &mut self.slots[id];
        if let Some(b) = slot {
            b.header.color.store(c);
        } else {
            proof {
                assert(false);
            }
        }
    }

    fn inc_root_at(&mut self, id: usize)
        requires
            old(self).live(id),
            old(self).root_count(id) < usize::MAX,
        ensures
            same_allocs(*old(self), *final(self)),
            meta_eq(*old(self), *final(self)),
            final(self).queue() == old(self).queue(),
            forall|x: usize| old(self).live(x) ==> final(self).color(x) == old(self).color(x),
            forall|x: usize|
                old(self).live(x) ==> final(self).value(x) == old(self).value(x) && final(self).node_size(x) == old(self).node_size(x) && final(self).no_trace(x) == old(self).no_trace(x) && final(self).n_children(x) == old(self).n_children(x),
            forall|x: usize, j: int|
                old(self).live(x) && 0 <= j < old(self).n_children(x) ==> final(self).child(x, j)
                    == old(self).child(x, j),
            final(self).root_count(id) == old(self).root_count(id) + 1,
            forall|x: usize|
                old(self).live(x) && x != id ==> final(self).root_count(x) == old(self).root_count(
                    x,
                ),
    {
        let slot = &mut self.slots[id];
        if let Some(b) = slot {
            b.header.inc_root();
        } else {
            proof {
                assert(false);
            }
        }
    }

    fn dec_root_at(&mut self, id: usize)
        requires
            old(self).live(id),
            old(self).root_count(id) >= 1,
        ensures
            same_allocs(*old(self), *final(self)),
            meta_eq(*old(self), *final(self)),
            final(self).queue() == old(self).queue(),
            forall|x: usize| old(self).live(x) ==> final(self).color(x) == old(self).color(x),
            forall|x: usize|
                old(self).live(x) ==> final(self).value(x) == old(self).value(x) && final(self).node_size(x) == old(self).node_size(x) && final(self).no_trace(x) == old(self).no_trace(x) && final(self).n_children(x) == old(self).n_children(x),
            forall|x: usize, j: int|
                old(self).live(x) && 0 <= j < old(self).n_children(x) ==> final(self).child(x, j)
                    == old(self).child(x, j),
            final(self).root_count(id) == old(self).root_count(id) - 1,
            forall|x: usize|
                old(self).live(x) && x != id ==> final(self).root_count(x) == old(self).root_count(
                    x,
                ),
    {
        let slot = &mut self.slots[id];
        if let Some(b) = slot {
            b.header.dec_root();
        } else {
            proof {
                assert(false);
            }
        }
    }

    fn push_cell_at(&mut self, id: usize, target: usize)
        requires
            old(self).live(id),
        ensures
            same_allocs(*old(self), *final(self)),
            meta_eq(*old(self), *final(self)),
            final(self).queue() == old(self).queue(),
            forall|x: usize|
                old(self).live(x) ==> final(self).color(x) == old(self).color(x) && final(self).root_count(x) == old(self).root_count(x) && final(self).value(x) == old(self).value(x) && final(self).node_size(x) == old(self).node_size(x) && final(self).no_trace(x) == old(self).no_trace(x),
            forall|x: usize|
                old(self).live(x) && x != id ==> final(self).n_children(x) == old(self).n_children(
                    x,
                ),
            forall|x: usize, j: int|
                old(self).live(x) && x != id && 0 <= j < old(self).n_children(x) ==> final(self).child(x, j) == old(self).child(x, j),
            final(self).n_children(id) == old(self).n_children(id) + 1,
            forall|j: int|
                0 <= j < old(self).n_children(id) ==> final(self).child(id, j) == old(self).child(
                    id,
                    j,
                ),
            final(self).child(id, old(self).n_children(id)) == target,
    {
        let slot = &mut self.slots[id];
        if let Some(b) = slot {
            b.cells.push(GcCell::new(GcPtr::new(target)));
        } else {
            proof {
                assert(false);
            }
        }
    }

    fn set_cell_at(&mut self, id: usize, j: usize, target: usize)
        requires
            old(self).live(id),
            j < old(self).n_children(id),
        ensures
            same_allocs(*old(self), *final(self)),
            meta_eq(*old(self), *final(self)),
            final(self).queue() == old(self).queue(),
            forall|x: usize|
                old(self).live(x) ==> final(self).color(x) == old(self).color(x) && final(self).root_count(x) == old(self).root_count(x) && final(self).value(x) == old(self).value(x) && final(self).node_size(x) == old(self).node_size(x) && final(self).no_trace(x) == old(self).no_trace(x) && final(self).n_children(x) == old(self).n_children(x),
            forall|x: usize, jj: int|
                old(self).live(x) && 0 <= jj < old(self).n_children(x) && !(x == id && jj == j)
                    ==> final(self).child(x, jj) == old(self).child(x, jj),
            final(self).child(id, j as int) == target,
    {
        let slot = &mut self.slots[id];
        if let Some(b) = slot {
            let c = &mut b.cells[j];
            c.store_ptr(GcPtr::new(target));
        } else {
            proof {
                assert(false);
            }
        }
    }

    fn free_slot_at(&mut self, id: usize)
        requires
            old(self).live(id),
        ensures
            final(self).n_slots() == old(self).n_slots(),
            !final(self).live(id),
            forall|x: usize| x != id ==> final(self).live(x) == old(self).live(x),
            forall|x: usize|
                old(self).live(x) && x != id ==> final(self).color(x) == old(self).color(x)
                    && final(self).root_count(x) == old(self).root_count(x) && final(self).value(x)
                    == old(self).value(x) && final(self).node_size(x) == old(self).node_size(x)
                    && final(self).no_trace(x) == old(self).no_trace(x) && final(self).n_children(x)
                    == old(self).n_children(x),
            forall|x: usize, j: int|
                old(self).live(x) && x != id && 0 <= j < old(self).n_children(x) ==> final(self).child(x, j) == old(self).child(x, j),
            meta_eq(*old(self), *final(self)),
            final(self).queue() == old(self).queue(),
    {
        let slot = &mut self.slots[id];
        *slot = None;
    }
}

// ----------------------------------------------------------------------
// Arithmetic over the slot table: how the recursive sums react to a single
// slot changing, used by allocation, marking and sweeping.
// ----------------------------------------------------------------------
/// With no live slot the byte sum is zero.
proof fn lemma_sum_none<V>(a: Heap<V>, n: int)
    requires
        n <= usize::MAX as int + 1,
        forall|id: usize| !a.live(id),
    ensures
        a.sum_live_bytes(n) == 0,
    decreases n,
{
    if n > 0 {
        lemma_sum_none(a, n - 1);
        assert(!a.live((n - 1) as usize));
    }
}

/// Two well-formed heaps whose live slots and sizes coincide account the
/// same bytes.
pub proof fn lemma_same_live_same_bytes<V>(a: Heap<V>, b: Heap<V>)
    requires
        a.wf(),
        b.wf(),
        a.n_slots() == b.n_slots(),
        forall|id: usize| a.live(id) == (#[trigger] b.live(id)),
        forall|id: usize| a.live(id) ==> a.node_size(id) == (#[trigger] b.node_size(id)),
    ensures
        a.bytes() == b.bytes(),
{
    a.lemma_n_slots_bound();
    lemma_sum_agree(a, b, a.n_slots());
}

/// The byte sum only depends on liveness and sizes of the slots below `n`.
proof fn lemma_sum_agree<V>(a: Heap<V>, b: Heap<V>, n: int)
    requires
        n <= usize::MAX as int + 1,
        forall|id: usize|
            id < n ==> #[trigger] a.live(id) == b.live(id) && (a.live(id) ==> a.node_size(id)
                == b.node_size(id)),
    ensures
        a.sum_live_bytes(n) == b.sum_live_bytes(n),
    decreases n,
{
    if n > 0 {
        lemma_sum_agree(a, b, n - 1);
        let x = (n - 1) as usize;
        assert(a.live(x) == b.live(x) && (a.live(x) ==> a.node_size(x) == b.node_size(x)));
    }
}

/// Freeing one slot removes exactly its size from the byte sum.
proof fn lemma_sum_free<V>(a: Heap<V>, b: Heap<V>, id: usize, n: int)
    requires
        n <= usize::MAX as int + 1,
        a.live(id),
        !b.live(id),
        forall|x: usize|
            x != id ==> #[trigger] a.live(x) == b.live(x) && (a.live(x) ==> a.node_size(x)
                == b.node_size(x)),
    ensures
        b.sum_live_bytes(n) == a.sum_live_bytes(n) - if id < n {
            a.node_size(id)
        } else {
            0
        },
    decreases n,
{
    if n > 0 {
        lemma_sum_free(a, b, id, n - 1);
        let x = (n - 1) as usize;
        if x != id {
            assert(a.live(x) == b.live(x) && (a.live(x) ==> a.node_size(x) == b.node_size(x)));
        }
    }
}

/// Any single live slot's size is at most the byte sum that covers it.
proof fn lemma_sum_lower_bound<V>(a: Heap<V>, id: usize, n: int)
    requires
        n <= usize::MAX as int + 1,
        a.live(id),
        id < n,
    ensures
        a.node_size(id) <= a.sum_live_bytes(n),
    decreases n,
{
    lemma_sum_nonneg(a, n - 1);
    if id < n - 1 {
        lemma_sum_lower_bound(a, id, n - 1);
    }
}

/// The byte sum of live slots is nonnegative.
proof fn lemma_sum_nonneg<V>(a: Heap<V>, n: int)
    ensures
        a.sum_live_bytes(n) >= 0,
    decreases n,
{
    if n > 0 {
        lemma_sum_nonneg(a, n - 1);
    }
}

/// The live count only depends on liveness of the slots below `n`.
proof fn lemma_count_agree<V>(a: Heap<V>, b: Heap<V>, n: int)
    requires
        n <= usize::MAX as int + 1,
        forall|id: usize| id < n ==> #[trigger] a.live(id) == b.live(id),
    ensures
        a.count_live(n) == b.count_live(n),
    decreases n,
{
    if n > 0 {
        lemma_count_agree(a, b, n - 1);
        let x = (n - 1) as usize;
        assert(a.live(x) == b.live(x));
    }
}

/// The marking measure only depends on liveness and colors of the slots
/// below `n`.
proof fn lemma_weight_agree<V>(a: Heap<V>, b: Heap<V>, n: int)
    requires
        n <= usize::MAX as int + 1,
        forall|id: usize|
            id < n ==> #[trigger] a.live(id) == b.live(id) && (a.live(id) ==> a.color(id)
                == b.color(id)),
    ensures
        a.weight_sum(n) == b.weight_sum(n),
    decreases n,
{
    if n > 0 {
        lemma_weight_agree(a, b, n - 1);
        let x = (n - 1) as usize;
        assert(a.live(x) == b.live(x) && (a.live(x) ==> a.color(x) == b.color(x)));
    }
}

/// Changing the color of one slot changes the marking measure by exactly
/// that slot's weight difference.
proof fn lemma_weight_change<V>(a: Heap<V>, b: Heap<V>, id: usize, n: int)
    requires
        n <= usize::MAX as int + 1,
        a.live(id),
        b.live(id),
        forall|x: usize|
            x != id ==> #[trigger] a.live(x) == b.live(x) && (a.live(x) ==> a.color(x) == b.color(
                x,
            )),
    ensures
        b.weight_sum(n) == a.weight_sum(n) + if id < n {
            color_weight(b.color(id)) - color_weight(a.color(id))
        } else {
            0
        },
    decreases n,
{
    if n > 0 {
        lemma_weight_change(a, b, id, n - 1);
        let x = (n - 1) as usize;
        if x != id {
            assert(a.live(x) == b.live(x) && (a.live(x) ==> a.color(x) == b.color(x)));
        }
    }
}

/// The marking measure is nonnegative: a client driving the incremental
/// drain loop can use it, together with `do_mark_incremental`'s strict
/// decrease on false, to bound the number of iterations.
pub proof fn lemma_weight_nonneg<V>(a: Heap<V>, n: int)
    ensures
        a.weight_sum(n) >= 0,
    decreases n,
{
    if n > 0 {
        lemma_weight_nonneg(a, n - 1);
    }
}

// ----------------------------------------------------------------------
// Reachability lemmas.
// ----------------------------------------------------------------------
impl<V> Heap<V> {
    /// A live object's slot index is within the allocation table.
    pub proof fn lemma_live_in_bounds(self, id: usize)
        requires
            self.live(id),
        ensures
            id < self.n_slots(),
    {
    }

    /// The accounting invariant, named: `bytes_allocated` equals the sum of
    /// `layout_size` over the live objects.
    pub proof fn lemma_accounting(self)
        requires
            self.wf(),
        ensures
            self.bytes() == self.sum_live_bytes(self.n_slots()),
    {
    }

    /// A heap with no live object accounts zero bytes.
    pub proof fn lemma_no_live_zero_bytes(self)
        requires
            self.wf(),
            forall|id: usize| !self.live(id),
        ensures
            self.bytes() == 0,
    {
        self.lemma_n_slots_bound();
        lemma_sum_none(self, self.n_slots());
    }

    /// The slot table fits in a machine word.
    proof fn lemma_n_slots_bound(self)
        ensures
            self.n_slots() <= usize::MAX as int,
    {
        broadcast use vstd::std_specs::vec::axiom_spec_len;

        assert(vstd::std_specs::vec::spec_vec_len(&self.slots) <= usize::MAX);
    }

    /// A rooted object is reachable (by the one-element chain).
    pub proof fn lemma_rooted_reachable(self, id: usize)
        requires
            self.live(id),
            self.root_count(id) > 0,
        ensures
            self.reachable(id),
    {
        let p = seq![id];
        assert(self.is_path(p));
        assert(p.last() == id);
    }

    /// Reachability never leaves a set that covers every root and is
    /// closed under child pointers. Contrapositively, an object outside
    /// such a set is unreachable — the way a caller refutes reachability
    /// from what it knows of the roots and edges.
    pub proof fn lemma_reachable_within_closed_set(self, s: Set<usize>, x: usize)
        requires
            forall|id: usize|
                self.live(id) && self.root_count(id) > 0 ==> #[trigger] s.contains(id),
            forall|id: usize, j: int|
                s.contains(id) && self.live(id) && 0 <= j < self.n_children(id) ==> s.contains(
                    #[trigger] self.child(id, j),
                ),
            self.reachable(x),
        ensures
            s.contains(x),
    {
        let p = choose|p: Seq<usize>| self.is_path(p) && p.last() == x;
        self.lemma_path_within_closed_set(s, p);
    }

    proof fn lemma_path_within_closed_set(self, s: Set<usize>, p: Seq<usize>)
        requires
            forall|id: usize|
                self.live(id) && self.root_count(id) > 0 ==> #[trigger] s.contains(id),
            forall|id: usize, j: int|
                s.contains(id) && self.live(id) && 0 <= j < self.n_children(id) ==> s.contains(
                    #[trigger] self.child(id, j),
                ),
            self.is_path(p),
        ensures
            s.contains(p.last()),
        decreases p.len(),
    {
        if p.len() == 1 {
            assert(s.contains(p[0]));
        } else {
            let q = p.drop_last();
            assert forall|i: int| 1 <= i < q.len() implies self.live(#[trigger] q[i]) && self.edge(
                q[i - 1],
                q[i],
            ) by {
                assert(q[i] == p[i]);
                assert(q[i - 1] == p[i - 1]);
            }
            assert(self.is_path(q));
            self.lemma_path_within_closed_set(s, q);
            let a = p[p.len() - 2];
            let b = p.last();
            assert(q.last() == a);
            assert(self.edge(a, b));
            let j = choose|j: int| 0 <= j < self.n_children(a) && #[trigger] self.child(a, j) == b;
            assert(s.contains(self.child(a, j)));
        }
    }

    /// Reachability extends along an edge.
    pub proof fn lemma_edge_reachable(self, a: usize, b: usize)
        requires
            self.reachable(a),
            self.edge(a, b),
            self.live(b),
        ensures
            self.reachable(b),
    {
        let p = choose|p: Seq<usize>| self.is_path(p) && p.last() == a;
        let q = p.push(b);
        assert forall|i: int| 1 <= i < q.len() implies self.live(#[trigger] q[i]) && self.edge(
            q[i - 1],
            q[i],
        ) by {
            if i < q.len() - 1 {
                assert(q[i] == p[i]);
                assert(q[i - 1] == p[i - 1]);
            } else {
                assert(q[i] == b);
                assert(q[i - 1] == p[p.len() - 1]);
            }
        }
        assert(self.is_path(q));
        assert(q.last() == b);
    }
}

/// Reachability is a property of roots and edges alone: it transfers between
/// heaps whose graphs agree, whatever their colors.
proof fn lemma_reachable_transfer<V>(pre: Heap<V>, post: Heap<V>, id: usize)
    requires
        graph_preserved(pre, post),
        pre.reachable(id),
    ensures
        post.reachable(id),
{
    let p = choose|p: Seq<usize>| pre.is_path(p) && p.last() == id;
    assert forall|i: int| 1 <= i < p.len() implies post.live(#[trigger] p[i]) && post.edge(
        p[i - 1],
        p[i],
    ) by {
        assert(pre.live(p[i]) && pre.edge(p[i - 1], p[i]));
        let j = choose|j: int|
            0 <= j < pre.n_children(p[i - 1]) && #[trigger] pre.child(p[i - 1], j) == p[i];
        assert(node_attrs_eq(pre, post, p[i - 1]));
        assert(post.child(p[i - 1], j) == p[i]);
    }
    assert(pre.live(p[0]) && pre.root_count(p[0]) > 0);
    assert(node_attrs_eq(pre, post, p[0]));
    assert(post.live(p[0]) && post.root_count(p[0]) > 0);
    assert(post.is_path(p));
}


// ----------------------------------------------------------------------
// Marking.
// ----------------------------------------------------------------------
impl<V> Heap<V> {
    /// `p` is a chain of child pointers starting at a non-White object.
    pub open spec fn marked_path(self, p: Seq<usize>) -> bool {
        &&& p.len() > 0
        &&& self.live(p[0])
        &&& self.color(p[0]) != Color::White
        &&& forall|i: int|
            1 <= i < p.len() ==> self.live(#[trigger] p[i]) && self.edge(p[i - 1], p[i])
    }

    /// `x` is reachable from some already-marked (non-White) object.
    pub open spec fn marked_reaches(self, x: usize) -> bool {
        exists|p: Seq<usize>| self.marked_path(p) && p.last() == x
    }

    proof fn lemma_marked_base(self, x: usize)
        requires
            self.live(x),
            self.color(x) != Color::White,
        ensures
            self.marked_reaches(x),
    {
        let p = seq![x];
        assert(self.marked_path(p));
        assert(p.last() == x);
    }

    proof fn lemma_marked_step(self, g: usize, x: usize)
        requires
            self.marked_reaches(g),
            self.edge(g, x),
            self.live(x),
        ensures
            self.marked_reaches(x),
    {
        let q = choose|q: Seq<usize>| self.marked_path(q) && q.last() == g;
        let r = q.push(x);
        assert forall|i: int| 1 <= i < r.len() implies self.live(#[trigger] r[i]) && self.edge(
            r[i - 1],
            r[i],
        ) by {
            if i < r.len() - 1 {
                assert(r[i] == q[i]);
                assert(r[i - 1] == q[i - 1]);
            } else {
                assert(r[i] == x);
                assert(r[i - 1] == q[q.len() - 1]);
            }
        }
        assert(self.marked_path(r));
        assert(r.last() == x);
    }
}

/// An invariant seen with an empty in-flight buffer is the plain invariant.
proof fn lemma_wf_extra_empty<V>(h: Heap<V>, extra: Seq<usize>)
    requires
        h.wf_with(extra),
        extra.len() == 0,
    ensures
        h.wf(),
{
    assert(extra =~= Seq::<usize>::empty());
}

/// A step that moves gray work around without touching any object (colors,
/// values, roots and children all unchanged) preserves the heap invariant,
/// and the marking measure with it.
proof fn lemma_wf_transfer<V>(pre: Heap<V>, post: Heap<V>, pre_extra: Seq<usize>, post_extra: Seq<usize>)
    requires
        pre.wf_with(pre_extra),
        graph_preserved(pre, post),
        forall|x: usize| pre.live(x) ==> (#[trigger] post.color(x)) == pre.color(x),
        post.bytes() == pre.bytes(),
        post.phase() == pre.phase(),
        post.assist() == pre.assist(),
        forall|x: usize|
            #[trigger] post.queue().contains(x) ==> pre.queue().contains(x) || pre_extra.contains(
                x,
            ),
        forall|x: usize|
            #[trigger] post_extra.contains(x) ==> pre.queue().contains(x) || pre_extra.contains(x),
        forall|x: usize|
            pre.live(x) && #[trigger] pre.color(x) == Color::Gray ==> post.queue().contains(x)
                || post_extra.contains(x),
        post.phase() == GcPhase::Idle ==> post.queue().len() == 0,
    ensures
        post.wf_with(post_extra),
        post.weight_sum(post.n_slots()) == pre.weight_sum(pre.n_slots()),
{
    pre.lemma_n_slots_bound();
    lemma_sum_agree(pre, post, pre.n_slots());
    lemma_weight_agree(pre, post, pre.n_slots());
    assert forall|id: usize, j: int|
        post.live(id) && 0 <= j < post.n_children(id) implies post.live(
        #[trigger] post.child(id, j),
    ) by {
        assert(pre.live(id));
        assert(post.child(id, j) == pre.child(id, j));
        assert(pre.live(pre.child(id, j)));
    }
    assert forall|id: usize| post.live(id) && #[trigger] post.no_trace(id) implies post.n_children(
        id,
    ) == 0 by {
        assert(pre.no_trace(id) && pre.live(id));
    }
    assert forall|x: usize| #[trigger] post.queue().contains(x) implies post.live(x) && post.color(
        x,
    ) != Color::White by {
        assert(pre.live(x) && pre.color(x) != Color::White);
    }
    assert forall|x: usize| #[trigger] post_extra.contains(x) implies post.live(x) && post.color(x)
        != Color::White by {
        assert(pre.live(x) && pre.color(x) != Color::White);
    }
    assert forall|x: usize|
        post.live(x) && #[trigger] post.color(x) == Color::Gray implies post.queue().contains(x)
            || post_extra.contains(x) by {
        assert(pre.live(x) && pre.color(x) == Color::Gray);
    }
    assert forall|id: usize, j: int|
        post.live(id) && post.color(id) == Color::Black && 0 <= j < post.n_children(
            id,
        ) implies post.color(#[trigger] post.child(id, j)) != Color::White by {
        assert(pre.live(id) && pre.color(id) == Color::Black);
        assert(post.child(id, j) == pre.child(id, j));
        assert(pre.color(pre.child(id, j)) != Color::White);
    }
    if post.phase() == GcPhase::Marking {
        assert forall|id: usize, j: int|
            post.live(id) && post.color(id) == Color::White && post.root_count(id) > 0 && 0 <= j
                < post.n_children(id) implies post.color(#[trigger] post.child(id, j))
            != Color::White by {
            assert(pre.live(id) && pre.color(id) == Color::White && pre.root_count(id) > 0);
            assert(post.child(id, j) == pre.child(id, j));
            assert(pre.color(pre.child(id, j)) != Color::White);
        }
    }
    if post.phase() == GcPhase::Idle {
        assert forall|id: usize| post.live(id) implies #[trigger] post.color(id)
            == Color::White by {
            assert(pre.live(id));
            assert(pre.color(id) == Color::White);
        }
    }
}

impl<V> Heap<V> {
    /// The discovery step of `Tracer::mark_header`: attempt the White-to-Gray
    /// transition; on success enqueue the object in the local buffer.
    fn shade(&mut self, t: &mut Tracer, id: usize)
        requires
            old(self).live(id),
        ensures
            graph_preserved(*old(self), *final(self)),
            meta_eq(*old(self), *final(self)),
            final(self).queue() == old(self).queue(),
            old(self).color(id) == Color::White ==> final(self).color(id) == Color::Gray && final(t)@ == old(t)@.push(id),
            old(self).color(id) != Color::White ==> final(self).color(id) == old(self).color(id)
                && final(t)@ == old(t)@,
            forall|x: usize|
                old(self).live(x) && x != id ==> final(self).color(x) == old(self).color(x),
    {
        let was_white = {
            let slot = &mut self.slots[id];
            if let Some(b) = slot {
                b.header.color.mark_white_to_gray()
            } else {
                vstd::pervasive::unreached()
            }
        };
        if was_white {
            t.push(id);
        }
    }

    /// The marking step of `Tracer::mark`: a leaf object (no managed
    /// pointers) is blackened directly and never queued; any other object is
    /// shaded Gray and queued.
    fn tracer_mark(&mut self, t: &mut Tracer, id: usize)
        requires
            old(self).live(id),
        ensures
            graph_preserved(*old(self), *final(self)),
            meta_eq(*old(self), *final(self)),
            final(self).queue() == old(self).queue(),
            forall|x: usize|
                old(self).live(x) && x != id ==> final(self).color(x) == old(self).color(x),
            old(self).color(id) != Color::White ==> final(self).color(id) == old(self).color(id)
                && final(t)@ == old(t)@,
            old(self).color(id) == Color::White && old(self).no_trace(id) ==> final(self).color(id)
                == Color::Black && final(t)@ == old(t)@,
            old(self).color(id) == Color::White && !old(self).no_trace(id) ==> final(self).color(
                id,
            ) == Color::Gray && final(t)@ == old(t)@.push(id),
    {
        if self.no_trace_at(id) {
            if self.color_at(id) == Color::White {
                self.set_color_at(id, Color::Black);
            }
        } else {
            self.shade(t, id);
        }
    }

    /// Scan one object: run the marking step on each of its children, so
    /// that after the call every child is non-White.
    #[verifier::loop_isolation(false)]
    fn trace_node(&mut self, t: &mut Tracer, id: usize)
        requires
            old(self).live(id),
            old(self).children_live(),
        ensures
            graph_preserved(*old(self), *final(self)),
            meta_eq(*old(self), *final(self)),
            final(self).queue() == old(self).queue(),
            colors_darkened(*old(self), *final(self)),
            forall|j: int|
                0 <= j < old(self).n_children(id) ==> final(self).color(
                    old(self).child(id, j),
                ) != Color::White,
            forall|x: usize|
                old(self).live(x) && final(self).color(x) != old(self).color(x) ==> old(self).color(
                    x,
                ) == Color::White && old(self).edge(id, x) && (final(self).color(x) == Color::Black
                    ==> old(self).no_trace(x)),
            forall|x: usize| old(t)@.contains(x) ==> final(t)@.contains(x),
            forall|x: usize|
                final(t)@.contains(x) ==> old(t)@.contains(x) || (old(self).live(x) && old(self).color(x) == Color::White && final(self).color(x) == Color::Gray),
            forall|x: usize|
                old(self).live(x) && final(self).color(x) == Color::Gray && old(self).color(x)
                    != Color::Gray ==> final(t)@.contains(x),
            final(self).weight_sum(final(self).n_slots()) + final(t)@.len() <= old(self).weight_sum(old(self).n_slots()) + old(t)@.len(),
    {
        let n = self.n_children_at(id);
        let mut j: usize = 0;
        while j < n
            invariant
                j <= n,
                graph_preserved(*old(self), *self),
                meta_eq(*old(self), *self),
                self.queue() == old(self).queue(),
                colors_darkened(*old(self), *self),
                forall|jj: int|
                    0 <= jj < j ==> self.color(old(self).child(id, jj)) != Color::White,
                forall|x: usize|
                    old(self).live(x) && self.color(x) != old(self).color(x) ==> old(self).color(x)
                        == Color::White && old(self).edge(id, x) && (self.color(x) == Color::Black
                        ==> old(self).no_trace(x)),
                forall|x: usize| old(t)@.contains(x) ==> t@.contains(x),
                forall|x: usize|
                    t@.contains(x) ==> old(t)@.contains(x) || (old(self).live(x) && old(self).color(x) == Color::White && self.color(x) == Color::Gray),
                forall|x: usize|
                    old(self).live(x) && self.color(x) == Color::Gray && old(self).color(x)
                        != Color::Gray ==> t@.contains(x),
                self.weight_sum(self.n_slots()) + t@.len() <= old(self).weight_sum(
                    old(self).n_slots(),
                ) + old(t)@.len(),
            decreases n - j,
        {
            proof {
                assert(node_attrs_eq(*old(self), *self, id));
            }
            let c = self.child_at(id, j);
            proof {
                assert(old(self).child(id, j as int) == c);
                assert(old(self).live(c));
                assert(old(self).edge(id, c)) by {
                    assert(old(self).child(id, j as int) == c);
                }
            }
            let ghost pre = *self;
            let ghost tpre = t@;
            self.tracer_mark(t, c);
            proof {
                pre.lemma_n_slots_bound();
                if self.color(c) != pre.color(c) {
                    lemma_weight_change(pre, *self, c, pre.n_slots());
                } else {
                    lemma_weight_agree(pre, *self, pre.n_slots());
                }
                lemma_push_contains(tpre, c);
            }
            j = j + 1;
        }
    }

    /// Move a batch of work from the shared gray queue into a local buffer.
    fn steal_work(&mut self, t: &mut Tracer, max_items: usize) -> (r: bool)
        ensures
            graph_preserved(*old(self), *final(self)),
            meta_eq(*old(self), *final(self)),
            forall|x: usize| old(self).live(x) ==> final(self).color(x) == old(self).color(x),
            r == (old(self).queue().len() > 0 && max_items > 0),
            final(self).queue().len() + final(t)@.len() == old(self).queue().len() + old(t)@.len(),
            final(self).queue().len() <= old(self).queue().len(),
            r ==> final(self).queue().len() < old(self).queue().len(),
            !r ==> same_observations(*old(self), *final(self)) && final(t)@ == old(t)@,
            forall|x: usize|
                final(t)@.contains(x) ==> old(t)@.contains(x) || old(self).queue().contains(x),
            forall|x: usize| final(self).queue().contains(x) ==> old(self).queue().contains(x),
            forall|x: usize| old(t)@.contains(x) ==> final(t)@.contains(x),
            forall|x: usize|
                old(self).queue().contains(x) ==> final(self).queue().contains(x) || final(t)@.contains(x),
    {
        t.steal_from(max_items, &mut self.gray_queue)
    }

    /// Merge a local buffer back into the shared gray queue.
    fn merge_work(&mut self, t: &mut Tracer)
        ensures
            graph_preserved(*old(self), *final(self)),
            meta_eq(*old(self), *final(self)),
            forall|x: usize| old(self).live(x) ==> final(self).color(x) == old(self).color(x),
            final(self).queue() == old(self).queue() + old(t)@,
            final(t)@.len() == 0,
    {
        t.append_to(&mut self.gray_queue);
    }

    /// Scan one Gray object and blacken it: one unit of marking work. The
    /// object has just been taken out of the local buffer, so it is handed
    /// back as the ghost `push` in the precondition.
    #[verifier::rlimit(100)]
    fn scan_and_blacken(&mut self, t: &mut Tracer, id: usize)
        requires
            old(self).live(id),
            old(self).color(id) == Color::Gray,
            old(self).wf_with(old(t)@.push(id)),
        ensures
            final(self).wf_with(final(t)@),
            graph_preserved(*old(self), *final(self)),
            colors_darkened(*old(self), *final(self)),
            meta_eq(*old(self), *final(self)),
            final(self).queue() == old(self).queue(),
            forall|x: usize|
                old(self).live(x) && final(self).color(x) != Color::White ==> old(self).color(x)
                    != Color::White || old(self).edge(id, x),
            final(self).color(id) == Color::Black,
            forall|x: usize|
                old(self).live(x) && x != id && final(self).color(x) != old(self).color(x) ==> old(self).color(x) == Color::White,
            final(self).weight_sum(final(self).n_slots()) + final(t)@.len() <= old(self).weight_sum(old(self).n_slots()) + old(t)@.len() - 1,
    {
        let ghost s_pre = *self;
        let ghost t_whole = old(t)@.push(id);
        self.trace_node(t, id);
        let ghost s_mid = *self;
        self.set_color_at(id, Color::Black);
        proof {
            s_pre.lemma_n_slots_bound();
            s_mid.lemma_n_slots_bound();
            lemma_weight_change(s_mid, *self, id, s_mid.n_slots());
            lemma_sum_agree(s_pre, *self, s_pre.n_slots());
            lemma_push_contains(old(t)@, id);
            // the scanned object's children are non-White, so blackening it
            // preserves the strong tri-color invariant
            assert forall|x: usize, jj: int|
                self.live(x) && self.color(x) == Color::Black && 0 <= jj < self.n_children(
                    x,
                ) implies self.color(#[trigger] self.child(x, jj)) != Color::White by {
                if x == id {
                    assert(self.child(x, jj) == s_pre.child(id, jj));
                    assert(s_mid.color(s_pre.child(id, jj)) != Color::White);
                } else if s_pre.color(x) == Color::Black {
                    assert(s_pre.color(s_pre.child(x, jj)) != Color::White);
                    assert(s_mid.color(s_pre.child(x, jj)) != Color::White);
                } else {
                    assert(s_pre.live(x));
                    assert(s_mid.color(x) == Color::Black);
                    assert(s_mid.color(x) != s_pre.color(x));
                    assert(s_pre.color(x) == Color::White);
                    assert(s_pre.no_trace(x));
                    assert(s_pre.n_children(x) == 0);
                }
            }
            // every Gray object is still covered by the queue or the buffer
            assert forall|x: usize|
                self.live(x) && #[trigger] self.color(x) == Color::Gray implies self.queue(
            ).contains(x) || t@.contains(x) by {
                if s_pre.color(x) == Color::Gray {
                    assert(s_pre.queue().contains(x) || t_whole.contains(x));
                    assert(x != id);
                    if t_whole.contains(x) {
                        assert(old(t)@.contains(x));
                        assert(t@.contains(x));
                    }
                } else {
                    assert(s_mid.color(x) == Color::Gray || self.color(x) != s_mid.color(x));
                    assert(t@.contains(x));
                }
            }
            // queue entries and buffer entries stay live and non-White
            assert forall|x: usize| #[trigger] self.queue().contains(x) implies self.live(x)
                && self.color(x) != Color::White by {
                assert(s_pre.queue().contains(x));
                assert(s_pre.live(x) && s_pre.color(x) != Color::White);
            }
            assert forall|x: usize| #[trigger] t@.contains(x) implies self.live(x) && self.color(x)
                != Color::White by {
                if old(t)@.contains(x) {
                    assert(t_whole.contains(x));
                    assert(s_pre.live(x) && s_pre.color(x) != Color::White);
                }
            }
            // a White rooted object acquired all its children through the
            // barrier, and darkening keeps them non-White
            if self.phase() == GcPhase::Marking {
                assert forall|x: usize, jj: int|
                    self.live(x) && self.color(x) == Color::White && self.root_count(x) > 0 && 0
                        <= jj < self.n_children(x) implies self.color(
                    #[trigger] self.child(x, jj),
                ) != Color::White by {
                    assert(s_pre.color(x) == Color::White);
                    assert(s_pre.root_count(x) > 0);
                    assert(s_pre.color(s_pre.child(x, jj)) != Color::White);
                    assert(s_mid.color(s_pre.child(x, jj)) != Color::White);
                    assert(self.child(x, jj) == s_pre.child(x, jj));
                }
            }
        }
    }

    /// Refill the local buffer from the shared gray queue, preserving the
    /// invariant: work only moves between the two.
    fn refill(&mut self, t: &mut Tracer, max_items: usize) -> (r: bool)
        requires
            old(self).wf_with(old(t)@),
        ensures
            final(self).wf_with(final(t)@),
            graph_preserved(*old(self), *final(self)),
            meta_eq(*old(self), *final(self)),
            forall|x: usize| old(self).live(x) ==> final(self).color(x) == old(self).color(x),
            r == (old(self).queue().len() > 0 && max_items > 0),
            final(self).queue().len() + final(t)@.len() == old(self).queue().len() + old(t)@.len(),
            r ==> final(self).queue().len() < old(self).queue().len(),
            !r ==> same_observations(*old(self), *final(self)) && final(t)@ == old(t)@,
            final(self).weight_sum(final(self).n_slots()) == old(self).weight_sum(
                old(self).n_slots(),
            ),
    {
        let ghost q_pre = old(self).queue();
        let ghost t_pre = old(t)@;
        let stolen = self.steal_work(t, max_items);
        proof {
            assert forall|x: usize|
                old(self).live(x) && #[trigger] old(self).color(x) == Color::Gray implies self.queue(
            ).contains(x) || t@.contains(x) by {
                assert(q_pre.contains(x) || t_pre.contains(x));
            }
            lemma_wf_transfer(*old(self), *self, t_pre, t@);
        }
        stolen
    }

    /// Process marking work with a local buffer: repeatedly take a gray
    /// object (stealing a batch from the shared queue when the buffer runs
    /// dry), scan it, and blacken it, up to `work_budget` objects. Any
    /// leftover local work is merged back into the shared queue.
    #[verifier::loop_isolation(false)]
    #[verifier::rlimit(100)]
    fn do_mark_with_tracer(&mut self, t: &mut Tracer, work_budget: usize) -> (r: usize)
        requires
            old(self).wf_with(old(t)@),
        ensures
            final(self).wf_with(final(t)@),
            final(t)@.len() == 0,
            graph_preserved(*old(self), *final(self)),
            colors_darkened(*old(self), *final(self)),
            meta_eq(*old(self), *final(self)),
            r <= work_budget,
            r < work_budget ==> final(self).queue().len() == 0,
            (r == 0 && work_budget > 0) ==> same_observations(*old(self), *final(self)) && final(t)@ == old(t)@,
            count_blackened(*old(self), *final(self), old(self).n_slots()) <= r,
            forall|x: usize|
                old(self).live(x) && final(self).color(x) != Color::White ==> old(self).marked_reaches(x),
            final(self).weight_sum(final(self).n_slots()) + final(self).queue().len() <= old(self).weight_sum(old(self).n_slots()) + old(self).queue().len() + old(t)@.len() - r,
    {
        proof {
            assert forall|x: usize|
                old(self).live(x) && old(self).color(x) != Color::White implies old(self).marked_reaches(x) by {
                old(self).lemma_marked_base(x);
            }
            lemma_weight_nonneg(*old(self), old(self).n_slots());
            old(self).lemma_n_slots_bound();
            lemma_count_blackened_refl(*old(self), old(self).n_slots());
        }
        let mut work_done: usize = 0;
        let mut out_of_work = false;
        while !out_of_work && work_done < work_budget
            invariant
                work_done <= work_budget,
                out_of_work ==> t@.len() == 0 && self.queue().len() == 0,
                work_done == 0 && t@.len() == 0 ==> same_observations(*old(self), *self) && t@
                    == old(t)@,
                count_blackened(*old(self), *self, old(self).n_slots()) <= work_done,
                self.wf_with(t@),
                graph_preserved(*old(self), *self),
                colors_darkened(*old(self), *self),
                meta_eq(*old(self), *self),
                forall|x: usize|
                    old(self).live(x) && self.color(x) != Color::White ==> old(self).marked_reaches(x),
                self.weight_sum(self.n_slots()) + self.queue().len() + t@.len() <= old(self).weight_sum(old(self).n_slots()) + old(self).queue().len() + old(t)@.len()
                    - work_done,
            decreases (if out_of_work {
                0int
            } else {
                1int
            }), work_budget - work_done, self.queue().len(),
        {
            let ghost t_pre = t@;
            let next = t.pop_work();
            match next {
                Some(id) => {
                    proof {
                        lemma_drop_last_contains(t_pre);
                        assert(t_pre.contains(id));
                        assert(self.live(id) && self.color(id) != Color::White);
                    }
                    let ghost s_pre = *self;
                    let c = self.color_at(id);
                    if c == Color::Gray {
                        proof {
                            assert(t@.push(id) =~= t_pre);
                        }
                        self.scan_and_blacken(t, id);
                        proof {
                            // work accounting: the scan blackened `id` and
                            // otherwise touched only objects that were White
                            lemma_count_blackened_step(
                                *old(self),
                                s_pre,
                                *self,
                                id,
                                old(self).n_slots(),
                            );
                            assert forall|x: usize|
                                x != id && x < old(self).n_slots() && old(self).live(x) && (
                                #[trigger] old(self).color(x)) == Color::Gray implies s_pre.live(x)
                                == self.live(x) && (s_pre.live(x) ==> s_pre.color(x) == self.color(
                                x,
                            )) by {
                                if self.color(x) != s_pre.color(x) {
                                    assert(s_pre.color(x) == Color::White);
                                    assert(old(self).color(x).le(s_pre.color(x)));
                                }
                            }
                            // soundness: everything newly marked hangs off `id`
                            assert forall|x: usize|
                                old(self).live(x) && self.color(x) != Color::White implies old(self).marked_reaches(x) by {
                                if s_pre.color(x) == Color::White {
                                    assert(s_pre.edge(id, x));
                                    let jj = choose|jj: int|
                                        0 <= jj < s_pre.n_children(id) && #[trigger] s_pre.child(
                                            id,
                                            jj,
                                        ) == x;
                                    assert(old(self).n_children(id) == s_pre.n_children(id));
                                    assert(old(self).child(id, jj) == x);
                                    assert(old(self).edge(id, x));
                                    assert(old(self).marked_reaches(id));
                                    old(self).lemma_marked_step(id, x);
                                }
                            }
                        }
                    } else {
                        proof {
                            assert(self.color(id) == Color::Black);
                            assert forall|x: usize|
                                self.live(x) && #[trigger] self.color(x)
                                    == Color::Gray implies self.queue().contains(x) || t@.contains(
                                x,
                            ) by {
                                assert(self.queue().contains(x) || t_pre.contains(x));
                                assert(x != id);
                            }
                            lemma_wf_transfer(*self, *self, t_pre, t@);
                        }
                    }
                    work_done = work_done + 1;
                },
                None => {
                    let ghost before = *self;
                    let stolen = self.refill(t, 8);
                    proof {
                        lemma_count_blackened_agree(
                            *old(self),
                            before,
                            *self,
                            old(self).n_slots(),
                        );
                    }
                    if !stolen {
                        out_of_work = true;
                    }
                },
            }
        }
        let ghost l_state = *self;
        let ghost l_buf = t@;
        if t.has_work() {
            self.merge_work(t);
        }
        proof {
            lemma_count_blackened_agree(*old(self), l_state, *self, old(self).n_slots());
            lemma_concat_contains(l_state.queue(), l_buf);
            if l_buf.len() == 0 {
                assert(l_buf =~= Seq::<usize>::empty());
            } else {
                assert(self.queue() == l_state.queue() + l_buf);
                if self.phase() == GcPhase::Idle {
                    assert(l_buf.contains(l_buf[0]));
                    assert(l_state.color(l_buf[0]) != Color::White);
                    assert(l_state.color(l_buf[0]) == Color::White);
                    assert(false);
                }
                assert forall|x: usize|
                    l_state.live(x) && #[trigger] l_state.color(x)
                        == Color::Gray implies self.queue().contains(x) || t@.contains(x) by {
                    assert(l_state.queue().contains(x) || l_buf.contains(x));
                }
                lemma_wf_transfer(l_state, *self, l_buf, t@);
                assert(t@ =~= Seq::<usize>::empty());
            }
        }
        work_done
    }

    /// Perform a bounded amount of incremental marking work. Returns true
    /// when no work was available, that is when marking is complete.
    pub fn do_mark_incremental(&mut self, work_budget: usize) -> (r: bool)
        requires
            old(self).wf(),
            work_budget >= 1,
        ensures
            final(self).wf(),
            graph_preserved(*old(self), *final(self)),
            colors_darkened(*old(self), *final(self)),
            meta_eq(*old(self), *final(self)),
            forall|x: usize|
                old(self).live(x) && final(self).color(x) != Color::White ==> old(self).marked_reaches(x),
            r ==> final(self).queue().len() == 0,
            r ==> same_observations(*old(self), *final(self)),
            count_blackened(*old(self), *final(self), old(self).n_slots()) <= work_budget,
            r && final(self).phase() == GcPhase::Marking ==> final(self).sweep_safe(),
            !r ==> final(self).weight_sum(final(self).n_slots()) + final(self).queue().len() < old(self).weight_sum(old(self).n_slots()) + old(self).queue().len(),
    {
        let mut t = Tracer::new();
        let work_done = self.do_mark_with_tracer(&mut t, work_budget);
        proof {
            lemma_wf_extra_empty(*self, t@);
            if work_done == 0 {
                self.lemma_drained_sweep_safe();
            }
        }
        work_done == 0
    }

    /// Once the gray queue is drained there are no Gray objects, so every
    /// would-be survivor has only would-be-survivor children.
    proof fn lemma_drained_sweep_safe(self)
        requires
            self.wf(),
            self.queue().len() == 0,
        ensures
            self.phase() == GcPhase::Marking ==> self.sweep_safe(),
    {
        if self.phase() == GcPhase::Marking {
            assert forall|id: usize, j: int|
                self.live(id) && (self.color(id) != Color::White || self.root_count(id) > 0) && 0
                    <= j < self.n_children(id) implies (self.color(#[trigger] self.child(id, j))
                != Color::White || self.root_count(self.child(id, j)) > 0) by {
                assert(self.color(id) != Color::Gray);
                if self.color(id) == Color::Black {
                    assert(self.color(self.child(id, j)) != Color::White);
                } else {
                    assert(self.color(id) == Color::White && self.root_count(id) > 0);
                    assert(self.color(self.child(id, j)) != Color::White);
                }
            }
        }
    }

    /// Try to begin a collection cycle: transition Idle to Marking, enable
    /// mutator assist, and capture the root set (the brief stop-the-world
    /// pause): every rooted object is shaded Gray and queued. Returns false,
    /// changing nothing, if a cycle is already in progress.
    #[verifier::loop_isolation(false)]
    pub fn try_start_marking(&mut self) -> (r: bool)
        requires
            old(self).wf(),
        ensures
            final(self).wf(),
            r == (old(self).phase() == GcPhase::Idle),
            !r ==> *final(self) == *old(self),
            r ==> final(self).phase() == GcPhase::Marking && graph_preserved(
                *old(self),
                *final(self),
            ) && final(self).bytes() == old(self).bytes() && final(self).threshold() == old(self).threshold() && final(self).opts() == old(self).opts() && forall|id: usize|
                old(self).live(id) ==> final(self).color(id) == (if old(self).root_count(id) > 0 {
                    Color::Gray
                } else {
                    Color::White
                }),
    {
        if !(self.phase == GcPhase::Idle) {
            return false;
        }
        self.assist_enabled = true;
        self.phase = GcPhase::Marking;
        proof {
            assert forall|id: usize| self.live(id) implies self.color(id) == Color::White by {
                assert(old(self).live(id));
                assert(old(self).color(id) == self.color(id));
            }
        }
        let ghost begun = *self;
        let mut t = Tracer::new();
        let n = self.slots.len();
        let mut i: usize = 0;
        while i < n
            invariant
                i <= n,
                graph_preserved(begun, *self),
                meta_eq(begun, *self),
                self.queue() == begun.queue(),
                self.queue().len() == 0,
                forall|id: usize|
                    self.live(id) ==> self.color(id) == (if id < i && self.root_count(id) > 0 {
                        Color::Gray
                    } else {
                        Color::White
                    }),
                forall|x: usize| t@.contains(x) ==> self.live(x) && self.color(x) == Color::Gray,
                forall|id: usize|
                    self.live(id) && self.color(id) == Color::Gray ==> t@.contains(id),
            decreases n - i,
        {
            if self.live_at(i) && self.root_count_at(i) > 0 {
                let ghost tpre = t@;
                self.shade(&mut t, i);
                proof {
                    lemma_push_contains(tpre, i);
                }
            }
            i = i + 1;
        }
        let ghost t_scan = t@;
        let ghost pre_merge = *self;
        self.merge_work(&mut t);
        proof {
            lemma_concat_contains(pre_merge.queue(), t_scan);
            old(self).lemma_n_slots_bound();
            lemma_sum_agree(*old(self), *self, old(self).n_slots());
            assert(self.queue() =~= t_scan);
            assert forall|x: usize| #[trigger] self.queue().contains(x) implies self.live(x)
                && self.color(x) != Color::White by {
                assert(t_scan.contains(x));
                assert(pre_merge.color(x) == Color::Gray);
            }
            assert forall|id: usize|
                self.live(id) && #[trigger] self.color(id) == Color::Gray implies self.queue(
            ).contains(id) by {
                assert(pre_merge.color(id) == Color::Gray);
                assert(t_scan.contains(id));
            }
            assert forall|id: usize, j: int|
                self.live(id) && 0 <= j < self.n_children(id) implies self.live(
                #[trigger] self.child(id, j),
            ) by {
                assert(old(self).live(id));
                assert(self.child(id, j) == old(self).child(id, j));
                assert(old(self).live(old(self).child(id, j)));
            }
            assert forall|id: usize|
                self.live(id) && #[trigger] self.no_trace(id) implies self.n_children(id) == 0 by {
                assert(old(self).no_trace(id) == self.no_trace(id));
                assert(old(self).n_children(id) == self.n_children(id));
            }
            assert forall|id: usize, j: int|
                self.live(id) && self.color(id) == Color::Black && 0 <= j < self.n_children(
                    id,
                ) implies self.color(#[trigger] self.child(id, j)) != Color::White by {
                assert(self.color(id) != Color::Black);
            }
            assert forall|id: usize, j: int|
                self.live(id) && self.color(id) == Color::White && self.root_count(id) > 0 && 0 <= j
                    < self.n_children(id) implies self.color(#[trigger] self.child(id, j))
                != Color::White by {
                assert(self.color(id) == Color::Gray);
            }
        }
        true
    }
}


// ----------------------------------------------------------------------
// Full collection: drain, sweep, pacing.
// ----------------------------------------------------------------------
/// Along a chain of child pointers from a rooted object, once every root is
/// marked, no Gray objects remain and no Black object has a White child,
/// every link is non-White.
proof fn lemma_path_nonwhite<V>(orig: Heap<V>, cur: Heap<V>, p: Seq<usize>)
    requires
        graph_preserved(orig, cur),
        orig.is_path(p),
        forall|x: usize|
            orig.live(x) && orig.root_count(x) > 0 ==> (#[trigger] cur.color(x)) != Color::White,
        forall|x: usize| cur.live(x) ==> (#[trigger] cur.color(x)) != Color::Gray,
        cur.tri_color_ok(),
    ensures
        cur.color(p.last()) != Color::White,
    decreases p.len(),
{
    if p.len() == 1 {
        assert(cur.color(p[0]) != Color::White);
    } else {
        let q = p.drop_last();
        assert forall|i: int| 1 <= i < q.len() implies orig.live(#[trigger] q[i]) && orig.edge(
            q[i - 1],
            q[i],
        ) by {
            assert(q[i] == p[i]);
            assert(q[i - 1] == p[i - 1]);
        }
        assert(orig.is_path(q));
        lemma_path_nonwhite(orig, cur, q);
        let a = p[p.len() - 2];
        let b = p.last();
        assert(q.last() == a);
        assert(cur.color(a) == Color::Black);
        assert(orig.edge(a, b));
        let j = choose|j: int| 0 <= j < orig.n_children(a) && #[trigger] orig.child(a, j) == b;
        assert(cur.child(a, j) == b);
        assert(cur.color(b) != Color::White);
    }
}

/// Everything reachable from an already-marked object is reachable from a
/// root, provided every marked object is.
proof fn lemma_marked_lift<V>(orig: Heap<V>, mid: Heap<V>, p: Seq<usize>)
    requires
        graph_preserved(orig, mid),
        mid.marked_path(p),
        forall|g: usize|
            mid.live(g) && (#[trigger] mid.color(g)) != Color::White ==> orig.reachable(g),
    ensures
        orig.reachable(p.last()),
    decreases p.len(),
{
    if p.len() == 1 {
        assert(orig.reachable(p[0]));
    } else {
        let q = p.drop_last();
        assert forall|i: int| 1 <= i < q.len() implies mid.live(#[trigger] q[i]) && mid.edge(
            q[i - 1],
            q[i],
        ) by {
            assert(q[i] == p[i]);
            assert(q[i - 1] == p[i - 1]);
        }
        assert(mid.marked_path(q));
        lemma_marked_lift(orig, mid, q);
        let a = p[p.len() - 2];
        let b = p.last();
        assert(q.last() == a);
        assert(mid.edge(a, b));
        let j = choose|j: int| 0 <= j < mid.n_children(a) && #[trigger] mid.child(a, j) == b;
        assert(orig.child(a, j) == b);
        assert(orig.edge(a, b));
        assert(orig.live(b));
        orig.lemma_edge_reachable(a, b);
    }
}

impl<V> Heap<V> {
    /// Begin a cycle and run marking to completion: capture the roots, then
    /// drain the gray queue. Afterwards an object is non-White exactly when
    /// it was reachable from a root when the cycle began. Returns false,
    /// changing nothing, if a cycle was already in progress.
    #[verifier::loop_isolation(false)]
    #[verifier::rlimit(100)]
    pub fn try_mark_full(&mut self) -> (r: bool)
        requires
            old(self).wf(),
        ensures
            final(self).wf(),
            r == (old(self).phase() == GcPhase::Idle),
            !r ==> *final(self) == *old(self),
            r ==> final(self).phase() == GcPhase::Marking && graph_preserved(
                *old(self),
                *final(self),
            ) && final(self).bytes() == old(self).bytes() && final(self).threshold() == old(self).threshold() && final(self).opts() == old(self).opts() && final(self).queue().len()
                == 0 && final(self).sweep_safe() && (forall|x: usize|
                old(self).live(x) ==> ((final(self).color(x) != Color::White) <==> old(self).reachable(x))),
    {
        if !self.try_start_marking() {
            return false;
        }
        proof {
            assert forall|x: usize|
                old(self).live(x) && self.color(x) != Color::White implies old(self).reachable(
                x,
            ) by {
                assert(old(self).root_count(x) > 0);
                old(self).lemma_rooted_reachable(x);
            }
        }
        let budget = if self.options.incremental_work_budget == 0 {
            1
        } else {
            self.options.incremental_work_budget
        };
        let mut t = Tracer::new();
        let mut done = false;
        while !done
            invariant
                t@.len() == 0,
                budget >= 1,
                self.wf(),
                graph_preserved(*old(self), *self),
                self.phase() == GcPhase::Marking,
                self.bytes() == old(self).bytes(),
                self.threshold() == old(self).threshold(),
                self.opts() == old(self).opts(),
                forall|x: usize|
                    old(self).live(x) && self.color(x) != Color::White ==> old(self).reachable(x),
                forall|x: usize|
                    old(self).live(x) && old(self).root_count(x) > 0 ==> self.color(x)
                        != Color::White,
                done ==> self.queue().len() == 0,
            decreases (if done {
                0int
            } else {
                1int
            }), self.weight_sum(self.n_slots()) + self.queue().len(),
        {
            let ghost pre = *self;
            proof {
                assert(t@ =~= Seq::<usize>::empty());
            }
            let w = self.do_mark_with_tracer(&mut t, budget);
            proof {
                lemma_wf_extra_empty(*self, t@);
                lemma_weight_nonneg(*self, self.n_slots());
                assert forall|x: usize|
                    old(self).live(x) && self.color(x) != Color::White implies old(self).reachable(
                    x,
                ) by {
                    if pre.color(x) == Color::White {
                        assert(pre.marked_reaches(x));
                        let p = choose|p: Seq<usize>| pre.marked_path(p) && p.last() == x;
                        lemma_marked_lift(*old(self), pre, p);
                    }
                }
            }
            if w == 0 {
                done = true;
            }
        }
        proof {
            assert forall|x: usize| self.live(x) implies self.color(x) != Color::Gray by {
                if self.color(x) == Color::Gray {
                    assert(self.queue().contains(x) || Seq::<usize>::empty().contains(x));
                }
            }
            assert forall|x: usize|
                old(self).live(x) && old(self).reachable(x) implies self.color(x)
                != Color::White by {
                let p = choose|p: Seq<usize>| old(self).is_path(p) && p.last() == x;
                lemma_path_nonwhite(*old(self), *self, p);
            }
            self.lemma_drained_sweep_safe();
        }
        true
    }

    /// Walk the allocation table: destroy every object that is White and
    /// unrooted and release its slot; reset every survivor to White. Ends
    /// with the collector idle and the byte count equal to the surviving
    /// bytes, which it returns.
    #[verifier::loop_isolation(false)]
    #[verifier::rlimit(100)]
    fn do_sweep(&mut self) -> (r: usize)
        requires
            old(self).wf(),
            old(self).phase() == GcPhase::Marking,
            old(self).sweep_safe(),
        ensures
            final(self).wf(),
            final(self).phase() == GcPhase::Idle,
            r == final(self).bytes(),
            final(self).bytes() <= old(self).bytes(),
            final(self).n_slots() == old(self).n_slots(),
            final(self).threshold() == old(self).threshold(),
            final(self).opts() == old(self).opts(),
            final(self).queue().len() == 0,
            forall|id: usize|
                old(self).live(id) ==> (final(self).live(id) <==> (old(self).color(id)
                    != Color::White || old(self).root_count(id) > 0)),
            forall|id: usize| !old(self).live(id) ==> !final(self).live(id),
            forall|id: usize|
                final(self).live(id) ==> node_attrs_eq(*old(self), *final(self), id) && final(self).color(id) == Color::White,
    {
        self.assist_enabled = false;
        self.phase = GcPhase::Sweeping;
        self.gray_queue.clear();
        let n = self.slots.len();
        let mut i: usize = 0;
        proof {
            old(self).lemma_n_slots_bound();
            lemma_sum_nonneg(*self, n as int);
        }
        while i < n
            invariant
                i <= n,
                n == self.n_slots(),
                self.phase() == GcPhase::Sweeping,
                !self.assist(),
                self.queue().len() == 0,
                self.threshold() == old(self).threshold(),
                self.opts() == old(self).opts(),
                forall|x: usize| i <= x ==> self.live(x) == old(self).live(x),
                forall|x: usize|
                    i <= x && old(self).live(x) ==> node_attrs_eq(*old(self), *self, x) && (
                    #[trigger] self.color(x)) == old(self).color(x),
                forall|x: usize|
                    x < i ==> (self.live(x) <==> (old(self).live(x) && (old(self).color(x)
                        != Color::White || old(self).root_count(x) > 0))),
                forall|x: usize|
                    x < i && self.live(x) ==> node_attrs_eq(*old(self), *self, x) && (
                    #[trigger] self.color(x)) == Color::White,
                self.bytes() == self.sum_live_bytes(n as int),
                self.bytes() <= old(self).bytes(),
            decreases n - i,
        {
            if self.live_at(i) {
                let ghost s0 = *self;
                if self.color_at(i) == Color::White && self.root_count_at(i) == 0 {
                    let sz = self.size_at(i);
                    proof {
                        s0.lemma_n_slots_bound();
                        lemma_sum_lower_bound(s0, i, n as int);
                    }
                    // the byte-count decrement happens before the
                    // destructor runs: releasing the slot below unlinks the
                    // object and drops its value
                    self.bytes_allocated = self.bytes_allocated - sz;
                    self.free_slot_at(i);
                    proof {
                        lemma_sum_free(s0, *self, i, n as int);
                        lemma_sum_nonneg(*self, n as int);
                        assert forall|x: usize|
                            i < x && old(self).live(x) implies node_attrs_eq(
                            *old(self),
                            *self,
                            x,
                        ) && self.color(x) == old(self).color(x) by {
                            assert(node_attrs_eq(*old(self), s0, x));
                            assert(self.color(x) == s0.color(x));
                            assert(self.root_count(x) == s0.root_count(x));
                            assert(self.node_size(x) == s0.node_size(x));
                            assert(self.no_trace(x) == s0.no_trace(x));
                            assert(self.n_children(x) == s0.n_children(x));
                            assert(self.value(x) == s0.value(x));
                            assert forall|j: int|
                                0 <= j < old(self).n_children(x) implies self.child(x, j) == old(self).child(x, j) by {
                                assert(self.child(x, j) == s0.child(x, j));
                            }
                        }
                    }
                } else {
                    self.set_color_at(i, Color::White);
                    proof {
                        s0.lemma_n_slots_bound();
                        lemma_sum_agree(s0, *self, n as int);
                    }
                }
            }
            i = i + 1;
        }
        let ghost walked = *self;
        self.phase = GcPhase::Idle;
        proof {
            assert forall|x: usize| true implies (#[trigger] self.live(x)) == walked.live(x) by {}
            assert forall|x: usize| self.live(x) implies (#[trigger] self.color(x))
                == Color::White by {
                assert(walked.live(x));
                assert(walked.color(x) == Color::White);
            }
            assert forall|x: usize| self.live(x) implies node_attrs_eq(*old(self), *self, x) by {
                assert(walked.live(x));
                assert(walked.color(x) == Color::White);
                assert(node_attrs_eq(*old(self), walked, x));
                assert(self.root_count(x) == walked.root_count(x));
                assert(self.node_size(x) == walked.node_size(x));
                assert(self.no_trace(x) == walked.no_trace(x));
                assert(self.n_children(x) == walked.n_children(x));
                assert(self.value(x) == walked.value(x));
                assert forall|j: int| 0 <= j < old(self).n_children(x) implies self.child(x, j)
                    == old(self).child(x, j) by {
                    assert(self.child(x, j) == walked.child(x, j));
                }
            }
            assert forall|id: usize, j: int|
                self.live(id) && 0 <= j < self.n_children(id) implies self.live(
                #[trigger] self.child(id, j),
            ) by {
                assert(walked.live(id));
                assert(walked.color(id) == Color::White);
                assert(node_attrs_eq(*old(self), walked, id));
                assert(self.child(id, j) == walked.child(id, j));
                let c = old(self).child(id, j);
                assert(walked.child(id, j) == c);
                assert(old(self).live(id));
                assert(old(self).live(c));
                assert(old(self).color(id) != Color::White || old(self).root_count(id) > 0);
                assert(old(self).color(c) != Color::White || old(self).root_count(c) > 0);
                assert(walked.live(c));
            }
            assert forall|id: usize|
                self.live(id) && #[trigger] self.no_trace(id) implies self.n_children(id) == 0 by {
                assert(walked.live(id));
                assert(walked.color(id) == Color::White);
                assert(node_attrs_eq(*old(self), walked, id));
                assert(old(self).live(id));
                assert(old(self).no_trace(id) == self.no_trace(id));
                assert(old(self).n_children(id) == 0);
            }
        }
        self.bytes_allocated
    }

    /// Sweep, recompute the pacing threshold from the surviving bytes, and
    /// return to Idle. Returns the surviving bytes.
    pub fn sweep_and_finish(&mut self) -> (r: usize)
        requires
            old(self).wf(),
            old(self).phase() == GcPhase::Marking,
            old(self).sweep_safe(),
        ensures
            final(self).wf(),
            final(self).phase() == GcPhase::Idle,
            r == final(self).bytes(),
            final(self).n_slots() == old(self).n_slots(),
            final(self).opts() == old(self).opts(),
            final(self).queue().len() == 0,
            forall|id: usize|
                old(self).live(id) ==> (final(self).live(id) <==> (old(self).color(id)
                    != Color::White || old(self).root_count(id) > 0)),
            forall|id: usize| !old(self).live(id) ==> !final(self).live(id),
            forall|id: usize|
                final(self).live(id) ==> node_attrs_eq(*old(self), *final(self), id) && final(self).color(id) == Color::White,
            final(self).threshold() == old(self).opts().spec_calculate_threshold(
                old(self).threshold(),
                final(self).bytes(),
            ),
            final(self).bytes() <= old(self).bytes(),
            (forall|id: usize|
                old(self).live(id) ==> old(self).color(id) != Color::White || old(self).root_count(
                    id,
                ) > 0) ==> final(self).bytes() == old(self).bytes(),
    {
        let live_bytes = self.do_sweep();
        let ghost swept = *self;
        let new_threshold = self.options.calculate_threshold(self.current_threshold, live_bytes);
        self.current_threshold = new_threshold;
        self.assist_enabled = false;
        proof {
            assert forall|id: usize| final(self).live(id) implies node_attrs_eq(
                *old(self),
                *final(self),
                id,
            ) && final(self).color(id) == Color::White by {
                assert(swept.live(id));
                assert(node_attrs_eq(*old(self), swept, id));
                assert(swept.color(id) == Color::White);
            }
            if forall|id: usize|
                old(self).live(id) ==> old(self).color(id) != Color::White || old(self).root_count(
                    id,
                ) > 0 {
                assert forall|id: usize| old(self).live(id) == (#[trigger] self.live(id)) by {
                    if old(self).live(id) {
                        assert(old(self).color(id) != Color::White || old(self).root_count(id)
                            > 0);
                    }
                }
                assert forall|id: usize|
                    old(self).live(id) implies old(self).node_size(id) == (
                #[trigger] self.node_size(id)) by {
                    assert(node_attrs_eq(*old(self), *self, id));
                }
                lemma_same_live_same_bytes(*old(self), *self);
            }
        }
        live_bytes
    }

    /// Run a full collection cycle: mark everything reachable from a root,
    /// then sweep. Exactly the objects that were reachable survive, with
    /// their values, root counts and children intact, reset to White; the
    /// pacing threshold is recomputed from the surviving bytes. Returns the
    /// surviving byte count. A no-op returning the current byte count if a
    /// cycle is already in progress.
    pub fn force_collect(&mut self) -> (r: usize)
        requires
            old(self).wf(),
        ensures
            final(self).wf(),
            old(self).phase() != GcPhase::Idle ==> *final(self) == *old(self) && r == old(self).bytes(),
            old(self).phase() == GcPhase::Idle ==> {
                &&& final(self).phase() == GcPhase::Idle
                &&& r == final(self).bytes()
                &&& final(self).n_slots() == old(self).n_slots()
                &&& final(self).opts() == old(self).opts()
                &&& forall|id: usize|
                    old(self).live(id) ==> (final(self).live(id) <==> old(self).reachable(id))
                &&& forall|id: usize| !old(self).live(id) ==> !final(self).live(id)
                &&& forall|id: usize|
                    final(self).live(id) ==> node_attrs_eq(*old(self), *final(self), id) && final(self).color(id) == Color::White
                &&& final(self).threshold() == old(self).opts().spec_calculate_threshold(
                    old(self).threshold(),
                    final(self).bytes(),
                )
            },
            final(self).bytes() <= old(self).bytes(),
            old(self).phase() == GcPhase::Idle && (forall|id: usize|
                old(self).live(id) ==> old(self).reachable(id)) ==> final(self).bytes() == old(self).bytes(),
    {
        if !self.try_mark_full() {
            return self.bytes_allocated();
        }
        let ghost marked = *self;
        let live_bytes = self.sweep_and_finish();
        proof {
            assert forall|id: usize|
                old(self).live(id) implies (self.live(id) <==> old(self).reachable(id)) by {
                if self.live(id) {
                    assert(marked.color(id) != Color::White || marked.root_count(id) > 0);
                    if marked.color(id) != Color::White {
                        assert(old(self).reachable(id));
                    } else {
                        assert(old(self).root_count(id) > 0);
                        old(self).lemma_rooted_reachable(id);
                    }
                } else {
                    assert(marked.color(id) == Color::White && marked.root_count(id) == 0);
                    assert(!old(self).reachable(id));
                }
            }
            if forall|id: usize| old(self).live(id) ==> old(self).reachable(id) {
                assert forall|id: usize| old(self).live(id) == (#[trigger] self.live(id)) by {
                    if old(self).live(id) {
                        assert(old(self).reachable(id));
                    }
                }
                assert forall|id: usize|
                    old(self).live(id) implies old(self).node_size(id) == (
                #[trigger] self.node_size(id)) by {
                    assert(node_attrs_eq(*old(self), *self, id));
                }
                lemma_same_live_same_bytes(*old(self), *self);
            }
        }
        live_bytes
    }

    /// Collect only if the pacing rule asks for it.
    pub fn collect(&mut self)
        requires
            old(self).wf(),
        ensures
            final(self).wf(),
            !old(self).spec_should_collect() ==> *final(self) == *old(self),
            old(self).spec_should_collect() && old(self).phase() != GcPhase::Idle ==> *final(self)
                == *old(self),
            final(self).bytes() <= old(self).bytes(),
            old(self).spec_should_collect() && old(self).phase() == GcPhase::Idle ==> {
                &&& final(self).phase() == GcPhase::Idle
                &&& forall|id: usize|
                    old(self).live(id) ==> (final(self).live(id) <==> old(self).reachable(id))
                &&& forall|id: usize|
                    final(self).live(id) ==> node_attrs_eq(*old(self), *final(self), id)
            },
    {
        if self.should_collect() {
            self.force_collect();
        }
    }
}


// ----------------------------------------------------------------------
// Mutator operations: allocation, rooting, barrier-protected stores.
// ----------------------------------------------------------------------
impl<V> Heap<V> {
    /// The insertion write barrier: while marking is in progress, shade the
    /// stored pointer Gray and queue it, so that no Black object can come to
    /// reference a White one.
    fn write_barrier(&mut self, target: usize)
        requires
            old(self).wf(),
            old(self).live(target),
        ensures
            final(self).wf(),
            graph_preserved(*old(self), *final(self)),
            meta_eq(*old(self), *final(self)),
            colors_darkened(*old(self), *final(self)),
            forall|x: usize|
                old(self).live(x) && x != target ==> final(self).color(x) == old(self).color(x),
            final(self).phase() == GcPhase::Marking ==> final(self).color(target) != Color::White,
            final(self).phase() != GcPhase::Marking ==> *final(self) == *old(self),
            final(self).n_slots() == old(self).n_slots(),
            final(self).queue() == old(self).queue() || final(self).queue() == old(self).queue().push(target),
    {
        if self.is_marking() {
            let mut t = Tracer::new();
            self.shade(&mut t, target);
            let ghost tb = t@;
            let ghost mid = *self;
            self.merge_work(&mut t);
            proof {
                lemma_concat_contains(mid.queue(), tb);
                lemma_push_contains(Seq::<usize>::empty(), target);
                if old(self).color(target) == Color::White {
                    assert(self.queue() =~= old(self).queue().push(target));
                } else {
                    assert(self.queue() =~= old(self).queue());
                }
                old(self).lemma_n_slots_bound();
                lemma_sum_agree(*old(self), *self, old(self).n_slots());
                assert forall|x: usize| #[trigger] self.queue().contains(x) implies self.live(x)
                    && self.color(x) != Color::White by {
                    assert(old(self).queue().contains(x) || tb.contains(x));
                    if tb.contains(x) {
                        assert(tb =~= Seq::<usize>::empty().push(target));
                        assert(x == target);
                    } else {
                        assert(old(self).live(x) && old(self).color(x) != Color::White);
                    }
                }
                assert forall|x: usize|
                    self.live(x) && #[trigger] self.color(x) == Color::Gray implies self.queue(
                ).contains(x) by {
                    if x == target && old(self).color(x) == Color::White {
                        assert(tb.contains(target));
                    } else {
                        assert(old(self).color(x) == Color::Gray);
                        assert(old(self).queue().contains(x));
                    }
                }
                assert forall|id: usize, j: int|
                    self.live(id) && self.color(id) == Color::Black && 0 <= j < self.n_children(
                        id,
                    ) implies self.color(#[trigger] self.child(id, j)) != Color::White by {
                    assert(old(self).live(id) && old(self).color(id) == Color::Black);
                    assert(self.child(id, j) == old(self).child(id, j));
                    assert(old(self).color(old(self).child(id, j)) != Color::White);
                }
                assert forall|id: usize, j: int|
                    self.live(id) && self.color(id) == Color::White && self.root_count(id) > 0 && 0
                        <= j < self.n_children(id) implies self.color(#[trigger] self.child(id, j))
                    != Color::White by {
                    assert(old(self).live(id) && old(self).color(id) == Color::White
                        && old(self).root_count(id) > 0);
                    assert(self.child(id, j) == old(self).child(id, j));
                    assert(old(self).color(old(self).child(id, j)) != Color::White);
                }
                assert forall|id: usize, j: int|
                    self.live(id) && 0 <= j < self.n_children(id) implies self.live(
                    #[trigger] self.child(id, j),
                ) by {
                    assert(old(self).live(id));
                    assert(self.child(id, j) == old(self).child(id, j));
                    assert(old(self).live(old(self).child(id, j)));
                }
                assert forall|id: usize|
                    self.live(id) && #[trigger] self.no_trace(id) implies self.n_children(id)
                    == 0 by {
                    assert(old(self).live(id) && old(self).no_trace(id));
                }
            }
        }
    }

    /// Allocate a managed object: a fresh slot holding `data` with the given
    /// per-type metadata, White, rooted once, with no children yet; the
    /// accounted bytes grow by its `layout_size`. During marking the
    /// allocation first performs up to `assist_work_budget` units of mark
    /// work (mutator assist). Returns the root handle.
    #[verifier::rlimit(100)]
    pub fn allocate(&mut self, data: V, vtable: GcVTable) -> (r: GcRoot)
        requires
            old(self).wf(),
            old(self).bytes() + vtable.layout_size <= usize::MAX,
            old(self).n_slots() < usize::MAX,
        ensures
            final(self).wf(),
            r.id() == old(self).n_slots(),
            final(self).n_slots() == old(self).n_slots() + 1,
            final(self).live(r.id()),
            final(self).value(r.id()) == data,
            final(self).root_count(r.id()) == 1,
            final(self).color(r.id()) == Color::White,
            final(self).n_children(r.id()) == 0,
            final(self).node_size(r.id()) == vtable.layout_size,
            final(self).no_trace(r.id()) == vtable.no_trace,
            forall|x: usize|
                old(self).live(x) ==> final(self).live(x) && final(self).value(x) == old(self).value(x) && final(self).root_count(x) == old(self).root_count(x) && final(self).node_size(x) == old(self).node_size(x) && final(self).no_trace(x) == old(self).no_trace(x) && final(self).n_children(x) == old(self).n_children(x),
            forall|x: usize, j: int|
                old(self).live(x) && 0 <= j < old(self).n_children(x) ==> final(self).child(x, j)
                    == old(self).child(x, j),
            colors_darkened(*old(self), *final(self)),
            final(self).bytes() == old(self).bytes() + vtable.layout_size,
            final(self).phase() == old(self).phase(),
            final(self).threshold() == old(self).threshold(),
            final(self).opts() == old(self).opts(),
            final(self).num_live() == old(self).num_live() + 1,
            forall|x: usize| final(self).live(x) ==> old(self).live(x) || x == r.id(),
            (!old(self).assist() || old(self).opts().assist_work_budget == 0) ==> (forall|x: usize|
                old(self).live(x) ==> final(self).color(x) == old(self).color(x)) && final(self).queue() == old(self).queue(),
            count_blackened(*old(self), *final(self), old(self).n_slots()) <= old(self).opts().assist_work_budget,
    {
        if self.assist_enabled && self.options.assist_work_budget > 0 {
            let budget = self.options.assist_work_budget;
            self.do_mark_incremental(budget);
        }
        let ghost mid = *self;
        let id = self.slots.len();
        let b = GcBox::new(data, vtable);
        self.slots.push(Some(b));
        self.bytes_allocated = self.bytes_allocated + vtable.layout_size;
        proof {
            mid.lemma_n_slots_bound();
            old(self).lemma_n_slots_bound();
            lemma_count_agree(*old(self), mid, old(self).n_slots());
            lemma_count_blackened_agree(*old(self), mid, *self, old(self).n_slots());
            if !old(self).assist() || old(self).opts().assist_work_budget == 0 {
                lemma_count_blackened_refl(*old(self), old(self).n_slots());
                lemma_count_blackened_agree(*old(self), *old(self), mid, old(self).n_slots());
            }
            assert forall|x: usize| mid.live(x) implies self.live(x) && self.color(x) == mid.color(
                x,
            ) && self.root_count(x) == mid.root_count(x) && self.value(x) == mid.value(x)
                && self.node_size(x) == mid.node_size(x) && self.no_trace(x) == mid.no_trace(x)
                && self.n_children(x) == mid.n_children(x) by {
                assert(self.slots@[x as int] == mid.slots@[x as int]);
            }
            assert forall|x: usize, j: int|
                mid.live(x) && 0 <= j < mid.n_children(x) implies self.child(x, j) == mid.child(
                x,
                j,
            ) by {
                assert(self.slots@[x as int] == mid.slots@[x as int]);
            }
            assert forall|x: usize| self.live(x) && x != id implies mid.live(x) by {}
            assert forall|x: usize| self.live(x) implies old(self).live(x) || x == id by {
                if x != id {
                    assert(mid.live(x));
                    assert(old(self).live(x) == mid.live(x));
                }
            }
            lemma_sum_agree(mid, *self, mid.n_slots());
            lemma_count_agree(mid, *self, mid.n_slots());
            assert(self.sum_live_bytes(self.n_slots()) == self.sum_live_bytes(mid.n_slots())
                + vtable.layout_size as int);
            assert(self.count_live(self.n_slots()) == self.count_live(mid.n_slots()) + 1);
            assert forall|x: usize, j: int|
                old(self).live(x) && 0 <= j < old(self).n_children(x) implies self.child(x, j)
                    == old(self).child(x, j) by {
                assert(mid.live(x));
                assert(mid.n_children(x) == old(self).n_children(x));
                assert(mid.child(x, j) == old(self).child(x, j));
                assert(self.child(x, j) == mid.child(x, j));
            }
            assert forall|x: usize|
                old(self).live(x) implies self.live(x) && self.value(x) == old(self).value(x)
                    && self.root_count(x) == old(self).root_count(x) && self.node_size(x) == old(self).node_size(x) && self.no_trace(x) == old(self).no_trace(x)
                    && self.n_children(x) == old(self).n_children(x) && old(self).color(x).le(
                    self.color(x),
                ) by {
                assert(mid.live(x));
                assert(mid.value(x) == old(self).value(x));
                assert(mid.root_count(x) == old(self).root_count(x));
                assert(mid.node_size(x) == old(self).node_size(x));
                assert(mid.no_trace(x) == old(self).no_trace(x));
                assert(mid.n_children(x) == old(self).n_children(x));
                assert(old(self).color(x).le(mid.color(x)));
            }
            assert forall|x: usize| #[trigger] self.queue().contains(x) implies self.live(x)
                && self.color(x) != Color::White by {
                assert(mid.queue().contains(x));
                assert(mid.live(x) && mid.color(x) != Color::White);
            }
            assert forall|x: usize|
                self.live(x) && #[trigger] self.color(x) == Color::Gray implies self.queue(
            ).contains(x) by {
                assert(x != id);
                assert(mid.color(x) == Color::Gray);
            }
            assert forall|id2: usize, j: int|
                self.live(id2) && 0 <= j < self.n_children(id2) implies self.live(
                #[trigger] self.child(id2, j),
            ) by {
                assert(id2 != id);
                assert(mid.live(id2));
                assert(self.child(id2, j) == mid.child(id2, j));
                assert(mid.live(mid.child(id2, j)));
            }
            assert forall|id2: usize|
                self.live(id2) && #[trigger] self.no_trace(id2) implies self.n_children(id2)
                == 0 by {
                if id2 != id {
                    assert(mid.live(id2) && mid.no_trace(id2));
                }
            }
            assert forall|id2: usize, j: int|
                self.live(id2) && self.color(id2) == Color::Black && 0 <= j < self.n_children(
                    id2,
                ) implies self.color(#[trigger] self.child(id2, j)) != Color::White by {
                assert(id2 != id);
                assert(mid.live(id2) && mid.color(id2) == Color::Black);
                assert(self.child(id2, j) == mid.child(id2, j));
                assert(mid.color(mid.child(id2, j)) != Color::White);
            }
            if self.phase() == GcPhase::Marking {
                assert forall|id2: usize, j: int|
                    self.live(id2) && self.color(id2) == Color::White && self.root_count(id2) > 0
                        && 0 <= j < self.n_children(id2) implies self.color(
                    #[trigger] self.child(id2, j),
                ) != Color::White by {
                    assert(id2 != id);
                    assert(mid.live(id2) && mid.color(id2) == Color::White && mid.root_count(id2)
                        > 0);
                    assert(self.child(id2, j) == mid.child(id2, j));
                    assert(mid.color(mid.child(id2, j)) != Color::White);
                }
            }
            if self.phase() == GcPhase::Idle {
                assert forall|x: usize| self.live(x) implies (#[trigger] self.color(x))
                    == Color::White by {
                    if x != id {
                        assert(mid.live(x));
                        assert(mid.color(x) == Color::White);
                    }
                }
            }
        }
        GcRoot::new_from_ptr(GcPtr::new(id))
    }

    /// Convert a pointer to a rooted handle, incrementing the root count.
    /// During marking the object is also shaded, so the new root is treated
    /// like any other reference installed while the collector runs.
    pub fn root(&mut self, p: GcPtr) -> (r: GcRoot)
        requires
            old(self).wf(),
            old(self).live(p.id()),
            old(self).root_count(p.id()) < usize::MAX,
        ensures
            final(self).wf(),
            r.id() == p.id(),
            final(self).root_count(p.id()) == old(self).root_count(p.id()) + 1,
            final(self).n_slots() == old(self).n_slots(),
            forall|x: usize| old(self).live(x) == (#[trigger] final(self).live(x)),
            forall|x: usize|
                old(self).live(x) ==> final(self).value(x) == old(self).value(x) && final(self).n_children(x) == old(self).n_children(x),
            forall|x: usize|
                old(self).live(x) && x != p.id() ==> final(self).root_count(x) == old(self).root_count(x),
            forall|x: usize|
                old(self).live(x) ==> final(self).node_size(x) == old(self).node_size(x) && final(self).no_trace(x) == old(self).no_trace(x),
            forall|x: usize, j: int|
                old(self).live(x) && 0 <= j < old(self).n_children(x) ==> final(self).child(x, j)
                    == old(self).child(x, j),
            forall|x: usize|
                old(self).live(x) && x != p.id() ==> final(self).color(x) == old(self).color(x),
            colors_darkened(*old(self), *final(self)),
            final(self).phase() == GcPhase::Marking ==> final(self).color(p.id()) != Color::White,
            final(self).phase() != GcPhase::Marking ==> final(self).color(p.id()) == old(self).color(p.id()) && final(self).queue() == old(self).queue(),
            final(self).queue() == old(self).queue() || final(self).queue() == old(self).queue().push(p.id()),
            final(self).bytes() == old(self).bytes(),
            final(self).phase() == old(self).phase(),
            final(self).threshold() == old(self).threshold(),
            final(self).opts() == old(self).opts(),
            final(self).assist() == old(self).assist(),
    {
        self.write_barrier(p.index());
        let ghost mid = *self;
        self.inc_root_at(p.index());
        proof {
            mid.lemma_n_slots_bound();
            lemma_sum_agree(mid, *self, mid.n_slots());
            self.lemma_wf_after_root_change(mid, p.id());
            assert forall|x: usize, j: int|
                old(self).live(x) && 0 <= j < old(self).n_children(x) implies self.child(x, j)
                == old(self).child(x, j) by {
                assert(mid.n_children(x) == old(self).n_children(x));
                assert(mid.child(x, j) == old(self).child(x, j));
            }
        }
        GcRoot::new_from_ptr(p)
    }

    /// Clone a root handle: one more unit of root count for the same object.
    pub fn clone_root(&mut self, r: &GcRoot) -> (r2: GcRoot)
        requires
            old(self).wf(),
            old(self).live(r.id()),
            1 <= old(self).root_count(r.id()) < usize::MAX,
        ensures
            final(self).wf(),
            r2.id() == r.id(),
            final(self).root_count(r.id()) == old(self).root_count(r.id()) + 1,
            final(self).n_slots() == old(self).n_slots(),
            forall|x: usize| old(self).live(x) == (#[trigger] final(self).live(x)),
            forall|x: usize|
                old(self).live(x) ==> final(self).value(x) == old(self).value(x) && final(self).color(x) == old(self).color(x),
            forall|x: usize|
                old(self).live(x) && x != r.id() ==> final(self).root_count(x) == old(self).root_count(x),
            forall|x: usize|
                old(self).live(x) ==> final(self).node_size(x) == old(self).node_size(x) && final(self).no_trace(x) == old(self).no_trace(x) && final(self).n_children(x) == old(self).n_children(x),
            forall|x: usize, j: int|
                old(self).live(x) && 0 <= j < old(self).n_children(x) ==> final(self).child(x, j)
                    == old(self).child(x, j),
            final(self).queue() == old(self).queue(),
            final(self).bytes() == old(self).bytes(),
            final(self).phase() == old(self).phase(),
            final(self).threshold() == old(self).threshold(),
            final(self).opts() == old(self).opts(),
            final(self).assist() == old(self).assist(),
    {
        let ghost mid = *self;
        self.inc_root_at(r.as_ptr().index());
        proof {
            mid.lemma_n_slots_bound();
            lemma_sum_agree(mid, *self, mid.n_slots());
            self.lemma_wf_after_root_change(mid, r.id());
        }
        GcRoot::new_from_ptr(r.as_ptr())
    }

    /// Give a root handle back: one unit less of root count. A count that
    /// reaches zero does not free the object; only a sweep does.
    pub fn drop_root(&mut self, r: GcRoot)
        requires
            old(self).wf(),
            old(self).live(r.id()),
            old(self).root_count(r.id()) >= 1,
        ensures
            final(self).wf(),
            final(self).root_count(r.id()) == old(self).root_count(r.id()) - 1,
            final(self).n_slots() == old(self).n_slots(),
            forall|x: usize| old(self).live(x) == (#[trigger] final(self).live(x)),
            forall|x: usize|
                old(self).live(x) ==> final(self).value(x) == old(self).value(x) && final(self).color(x) == old(self).color(x),
            forall|x: usize|
                old(self).live(x) && x != r.id() ==> final(self).root_count(x) == old(self).root_count(x),
            forall|x: usize|
                old(self).live(x) ==> final(self).node_size(x) == old(self).node_size(x) && final(self).no_trace(x) == old(self).no_trace(x) && final(self).n_children(x) == old(self).n_children(x),
            forall|x: usize, j: int|
                old(self).live(x) && 0 <= j < old(self).n_children(x) ==> final(self).child(x, j)
                    == old(self).child(x, j),
            final(self).queue() == old(self).queue(),
            final(self).bytes() == old(self).bytes(),
            final(self).phase() == old(self).phase(),
            final(self).threshold() == old(self).threshold(),
            final(self).opts() == old(self).opts(),
            final(self).assist() == old(self).assist(),
    {
        let ghost mid = *self;
        self.dec_root_at(r.as_ptr().index());
        proof {
            mid.lemma_n_slots_bound();
            lemma_sum_agree(mid, *self, mid.n_slots());
            self.lemma_wf_after_root_change(mid, r.id());
        }
    }

    /// Changing only a root count preserves the heap invariant, provided
    /// the object is not a White root that escaped the barrier.
    proof fn lemma_wf_after_root_change(self, pre: Heap<V>, id: usize)
        requires
            pre.wf(),
            pre.live(id),
            self.n_slots() == pre.n_slots(),
            forall|x: usize| pre.live(x) == (#[trigger] self.live(x)),
            forall|x: usize| pre.live(x) ==> (#[trigger] self.color(x)) == pre.color(x),
            forall|x: usize| pre.live(x) ==> (#[trigger] self.value(x)) == pre.value(x),
            forall|x: usize| pre.live(x) ==> (#[trigger] self.node_size(x)) == pre.node_size(x),
            forall|x: usize| pre.live(x) ==> (#[trigger] self.no_trace(x)) == pre.no_trace(x),
            forall|x: usize| pre.live(x) ==> (#[trigger] self.n_children(x)) == pre.n_children(x),
            forall|x: usize, j: int|
                pre.live(x) && 0 <= j < pre.n_children(x) ==> (#[trigger] self.child(x, j))
                    == pre.child(x, j),
            forall|x: usize|
                pre.live(x) && x != id ==> (#[trigger] self.root_count(x)) == pre.root_count(x),
            self.queue() == pre.queue(),
            self.phase() == pre.phase(),
            self.assist() == pre.assist(),
            self.bytes() == pre.bytes(),
            self.sum_live_bytes(self.n_slots()) == pre.sum_live_bytes(pre.n_slots()),
            self.phase() == GcPhase::Marking && self.root_count(id) > pre.root_count(id)
                && pre.root_count(id) == 0 ==> self.color(id) != Color::White,
        ensures
            self.wf(),
    {
        assert forall|x: usize| #[trigger] self.queue().contains(x) implies self.live(x)
            && self.color(x) != Color::White by {
            assert(pre.live(x) && pre.color(x) != Color::White);
        }
        assert forall|x: usize|
            self.live(x) && #[trigger] self.color(x) == Color::Gray implies self.queue().contains(
            x,
        ) by {
            assert(pre.color(x) == Color::Gray);
        }
        assert forall|x: usize, j: int|
            self.live(x) && 0 <= j < self.n_children(x) implies self.live(
            #[trigger] self.child(x, j),
        ) by {
            assert(pre.live(x));
            assert(self.n_children(x) == pre.n_children(x));
            assert(self.child(x, j) == pre.child(x, j));
            assert(pre.live(pre.child(x, j)));
        }
        assert forall|x: usize| self.live(x) && #[trigger] self.no_trace(x) implies self.n_children(
            x,
        ) == 0 by {
            assert(pre.live(x));
            assert(self.no_trace(x) == pre.no_trace(x));
            assert(pre.no_trace(x));
            assert(self.n_children(x) == pre.n_children(x));
        }
        assert forall|x: usize, j: int|
            self.live(x) && self.color(x) == Color::Black && 0 <= j < self.n_children(
                x,
            ) implies self.color(#[trigger] self.child(x, j)) != Color::White by {
            assert(pre.live(x) && pre.color(x) == Color::Black);
            assert(pre.color(pre.child(x, j)) != Color::White);
        }
        if self.phase() == GcPhase::Marking {
            assert forall|x: usize, j: int|
                self.live(x) && self.color(x) == Color::White && self.root_count(x) > 0 && 0 <= j
                    < self.n_children(x) implies self.color(#[trigger] self.child(x, j))
                != Color::White by {
                if x == id && pre.root_count(id) == 0 && self.root_count(id) > 0 {
                    assert(self.color(id) != Color::White);
                }
                assert(pre.color(x) == Color::White && pre.root_count(x) > 0);
                assert(pre.color(pre.child(x, j)) != Color::White);
            }
        }
        if self.phase() == GcPhase::Idle {
            assert forall|x: usize| self.live(x) implies (#[trigger] self.color(x))
                == Color::White by {
                assert(pre.live(x));
                assert(pre.color(x) == Color::White);
            }
        }
    }

    /// Append a child pointer to a managed object, through the insertion
    /// barrier: during marking the stored pointer is shaded first.
    pub fn add_cell(&mut self, owner: GcPtr, target: GcPtr)
        requires
            old(self).wf(),
            old(self).live(owner.id()),
            old(self).live(target.id()),
            !old(self).no_trace(owner.id()),
        ensures
            final(self).wf(),
            final(self).n_slots() == old(self).n_slots(),
            forall|x: usize| old(self).live(x) == (#[trigger] final(self).live(x)),
            forall|x: usize|
                old(self).live(x) ==> final(self).value(x) == old(self).value(x) && final(self).root_count(x) == old(self).root_count(x),
            final(self).n_children(owner.id()) == old(self).n_children(owner.id()) + 1,
            final(self).child(owner.id(), old(self).n_children(owner.id())) == target.id(),
            forall|j: int|
                0 <= j < old(self).n_children(owner.id()) ==> final(self).child(owner.id(), j)
                    == old(self).child(owner.id(), j),
            forall|x: usize|
                old(self).live(x) && x != owner.id() ==> final(self).n_children(x) == old(self).n_children(x),
            forall|x: usize, j: int|
                old(self).live(x) && x != owner.id() && 0 <= j < old(self).n_children(x) ==> final(self).child(x, j) == old(self).child(x, j),
            forall|x: usize|
                old(self).live(x) ==> final(self).node_size(x) == old(self).node_size(x) && final(self).no_trace(x) == old(self).no_trace(x),
            forall|x: usize|
                old(self).live(x) && x != target.id() ==> final(self).color(x) == old(self).color(
                    x,
                ),
            colors_darkened(*old(self), *final(self)),
            final(self).phase() == GcPhase::Marking ==> final(self).color(target.id())
                != Color::White,
            final(self).phase() != GcPhase::Marking ==> final(self).color(target.id()) == old(self).color(target.id()) && final(self).queue() == old(self).queue(),
            final(self).queue() == old(self).queue() || final(self).queue() == old(self).queue().push(target.id()),
            final(self).bytes() == old(self).bytes(),
            final(self).phase() == old(self).phase(),
            final(self).threshold() == old(self).threshold(),
            final(self).opts() == old(self).opts(),
            final(self).assist() == old(self).assist(),
    {
        self.write_barrier(target.index());
        let ghost mid = *self;
        self.push_cell_at(owner.index(), target.index());
        proof {
            mid.lemma_n_slots_bound();
            lemma_sum_agree(mid, *self, mid.n_slots());
            self.lemma_wf_after_cell_change(mid, owner.id(), target.id());
        }
    }

    /// Store a child pointer into an existing cell of a managed object,
    /// through the insertion barrier.
    pub fn set_cell(&mut self, owner: GcPtr, j: usize, target: GcPtr)
        requires
            old(self).wf(),
            old(self).live(owner.id()),
            old(self).live(target.id()),
            j < old(self).n_children(owner.id()),
        ensures
            final(self).wf(),
            final(self).n_slots() == old(self).n_slots(),
            forall|x: usize| old(self).live(x) == (#[trigger] final(self).live(x)),
            forall|x: usize|
                old(self).live(x) ==> final(self).value(x) == old(self).value(x) && final(self).root_count(x) == old(self).root_count(x) && final(self).n_children(x) == old(self).n_children(x),
            final(self).child(owner.id(), j as int) == target.id(),
            forall|x: usize, jj: int|
                old(self).live(x) && 0 <= jj < old(self).n_children(x) && !(x == owner.id() && jj
                    == j) ==> final(self).child(x, jj) == old(self).child(x, jj),
            forall|x: usize|
                old(self).live(x) ==> final(self).node_size(x) == old(self).node_size(x) && final(self).no_trace(x) == old(self).no_trace(x),
            forall|x: usize|
                old(self).live(x) && x != target.id() ==> final(self).color(x) == old(self).color(
                    x,
                ),
            colors_darkened(*old(self), *final(self)),
            final(self).phase() == GcPhase::Marking ==> final(self).color(target.id())
                != Color::White,
            final(self).phase() != GcPhase::Marking ==> final(self).color(target.id()) == old(self).color(target.id()) && final(self).queue() == old(self).queue(),
            final(self).queue() == old(self).queue() || final(self).queue() == old(self).queue().push(target.id()),
            final(self).bytes() == old(self).bytes(),
            final(self).phase() == old(self).phase(),
            final(self).threshold() == old(self).threshold(),
            final(self).opts() == old(self).opts(),
            final(self).assist() == old(self).assist(),
    {
        self.write_barrier(target.index());
        let ghost mid = *self;
        self.set_cell_at(owner.index(), j, target.index());
        proof {
            mid.lemma_n_slots_bound();
            lemma_sum_agree(mid, *self, mid.n_slots());
            self.lemma_wf_after_cell_change(mid, owner.id(), target.id());
        }
    }

    /// Store into a free-standing cell, through the insertion barrier.
    pub fn cell_store(&mut self, cell: &mut GcCell, target: GcPtr)
        requires
            old(self).wf(),
            old(self).live(target.id()),
        ensures
            final(self).wf(),
            final(cell).target() == target.id(),
            final(self).n_slots() == old(self).n_slots(),
            forall|x: usize| old(self).live(x) == (#[trigger] final(self).live(x)),
            forall|x: usize|
                old(self).live(x) ==> final(self).value(x) == old(self).value(x) && final(self).root_count(x) == old(self).root_count(x),
            graph_preserved(*old(self), *final(self)),
            forall|x: usize|
                old(self).live(x) && x != target.id() ==> final(self).color(x) == old(self).color(
                    x,
                ),
            colors_darkened(*old(self), *final(self)),
            final(self).phase() == GcPhase::Marking ==> final(self).color(target.id())
                != Color::White,
            final(self).phase() != GcPhase::Marking ==> *final(self) == *old(self),
            final(self).queue() == old(self).queue() || final(self).queue() == old(self).queue().push(target.id()),
            final(self).bytes() == old(self).bytes(),
            final(self).phase() == old(self).phase(),
            final(self).threshold() == old(self).threshold(),
            final(self).opts() == old(self).opts(),
            final(self).assist() == old(self).assist(),
    {
        self.write_barrier(target.index());
        cell.store_ptr(target);
    }

    /// A cell store during marking only ever adds an edge whose target is
    /// not White: the write barrier keeps the strong tri-color invariant.
    proof fn lemma_wf_after_cell_change(self, pre: Heap<V>, owner: usize, target: usize)
        requires
            pre.wf(),
            pre.live(owner),
            pre.live(target),
            pre.phase() == GcPhase::Marking ==> pre.color(target) != Color::White,
            self.n_slots() == pre.n_slots(),
            forall|x: usize| pre.live(x) == (#[trigger] self.live(x)),
            forall|x: usize| pre.live(x) ==> (#[trigger] self.color(x)) == pre.color(x),
            forall|x: usize| pre.live(x) ==> (#[trigger] self.value(x)) == pre.value(x),
            forall|x: usize| pre.live(x) ==> (#[trigger] self.node_size(x)) == pre.node_size(x),
            forall|x: usize| pre.live(x) ==> (#[trigger] self.no_trace(x)) == pre.no_trace(x),
            forall|x: usize| pre.live(x) ==> (#[trigger] self.root_count(x)) == pre.root_count(x),
            forall|x: usize|
                pre.live(x) && x != owner ==> (#[trigger] self.n_children(x)) == pre.n_children(x),
            forall|x: usize, j: int|
                pre.live(x) && x != owner && 0 <= j < pre.n_children(x) ==> (
                #[trigger] self.child(x, j)) == pre.child(x, j),
            forall|j: int|
                0 <= j < self.n_children(owner) ==> (#[trigger] self.child(owner, j))
                    == target || (0 <= j < pre.n_children(owner) && self.child(owner, j)
                    == pre.child(owner, j)),
            !self.no_trace(owner),
            self.queue() == pre.queue(),
            self.phase() == pre.phase(),
            self.assist() == pre.assist(),
            self.bytes() == pre.bytes(),
            self.sum_live_bytes(self.n_slots()) == pre.sum_live_bytes(pre.n_slots()),
        ensures
            self.wf(),
    {
        assert forall|x: usize| #[trigger] self.queue().contains(x) implies self.live(x)
            && self.color(x) != Color::White by {
            assert(pre.live(x) && pre.color(x) != Color::White);
        }
        assert forall|x: usize|
            self.live(x) && #[trigger] self.color(x) == Color::Gray implies self.queue().contains(
            x,
        ) by {
            assert(pre.color(x) == Color::Gray);
        }
        assert forall|x: usize, j: int|
            self.live(x) && 0 <= j < self.n_children(x) implies self.live(
            #[trigger] self.child(x, j),
        ) by {
            if x == owner && self.child(x, j) == target {
            } else {
                assert(pre.live(pre.child(x, j)));
            }
        }
        assert forall|x: usize| self.live(x) && #[trigger] self.no_trace(x) implies self.n_children(
            x,
        ) == 0 by {
            assert(x != owner);
            assert(pre.no_trace(x) && pre.live(x));
        }
        assert forall|x: usize, j: int|
            self.live(x) && self.color(x) == Color::Black && 0 <= j < self.n_children(
                x,
            ) implies self.color(#[trigger] self.child(x, j)) != Color::White by {
            assert(pre.color(x) == Color::Black);
            if x == owner && self.child(x, j) == target {
                assert(pre.phase() == GcPhase::Marking || pre.color(x) == Color::White);
            } else {
                assert(pre.color(pre.child(x, j)) != Color::White);
            }
        }
        if self.phase() == GcPhase::Marking {
            assert forall|x: usize, j: int|
                self.live(x) && self.color(x) == Color::White && self.root_count(x) > 0 && 0 <= j
                    < self.n_children(x) implies self.color(#[trigger] self.child(x, j))
                != Color::White by {
                if x == owner && self.child(x, j) == target {
                } else {
                    assert(pre.color(x) == Color::White && pre.root_count(x) > 0);
                    assert(pre.color(pre.child(x, j)) != Color::White);
                }
            }
        }
        if self.phase() == GcPhase::Idle {
            assert forall|x: usize| self.live(x) implies (#[trigger] self.color(x))
                == Color::White by {
                assert(pre.live(x));
                assert(pre.color(x) == Color::White);
            }
        }
    }
}

/// Root count evolution over a history of handle events: true is a clone,
/// false is a drop.
pub open spec fn root_count_after(initial: int, ops: Seq<bool>) -> int
    decreases ops.len(),
{
    if ops.len() == 0 {
        initial
    } else {
        root_count_after(initial, ops.drop_last()) + if ops.last() {
            1int
        } else {
            -1int
        }
    }
}

/// An object's root count never underflows: across any history of clones
/// and drops in which every drop gives back a handle that exists (the count
/// is positive when it happens), the count stays nonnegative.
pub proof fn lemma_root_count_never_underflows(initial: int, ops: Seq<bool>)
    requires
        initial >= 0,
        forall|k: int|
            0 <= k < ops.len() && !ops[k] ==> root_count_after(
                initial,
                #[trigger] ops.subrange(0, k),
            ) >= 1,
    ensures
        root_count_after(initial, ops) >= 0,
    decreases ops.len(),
{
    if ops.len() > 0 {
        let prefix = ops.drop_last();
        assert forall|k: int|
            0 <= k < prefix.len() && !prefix[k] implies root_count_after(
            initial,
            #[trigger] prefix.subrange(0, k),
        ) >= 1 by {
            assert(prefix.subrange(0, k) =~= ops.subrange(0, k));
            assert(ops[k] == prefix[k]);
        }
        lemma_root_count_never_underflows(initial, prefix);
        if !ops.last() {
            assert(ops.subrange(0, ops.len() - 1) =~= prefix);
            assert(root_count_after(initial, prefix) >= 1);
        }
    }
}

} // verus!
