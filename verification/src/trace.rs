//! Per-collector work buffer of gray objects.
//!
//! A `Tracer` is a local buffer of slot indices awaiting a scan. The marker
//! pushes newly discovered (shaded) objects here, consumes them with
//! `pop_work`, and exchanges batches with the heap's shared gray queue with
//! `steal_from` and `append_to`, so the shared queue is touched only at
//! batch boundaries.

use vstd::prelude::*;

verus! {

/// Work buffer of gray objects awaiting a scan.
pub struct Tracer {
    buf: Vec<usize>,
}

impl View for Tracer {
    type V = Seq<usize>;

    closed spec fn view(&self) -> Seq<usize> {
        self.buf@
    }
}

impl Tracer {
    /// A fresh, empty buffer.
    pub fn new() -> (r: Tracer)
        ensures
            r@ == Seq::<usize>::empty(),
    {
        Tracer { buf: Vec::new() }
    }

    /// Record a newly shaded object (for internal use).
    pub(crate) fn push(&mut self, id: usize)
        ensures
            final(self)@ == old(self)@.push(id),
    {
        self.buf.push(id);
    }

    /// Take one queued object, most recently pushed first.
    pub(crate) fn pop_work(&mut self) -> (r: Option<usize>)
        ensures
            old(self)@.len() == 0 ==> r is None && final(self)@ == old(self)@,
            old(self)@.len() > 0 ==> r == Some(old(self)@.last()) && final(self)@ == old(
                self,
            )@.drop_last(),
    {
        self.buf.pop()
    }

    /// Whether any queued work remains.
    pub(crate) fn has_work(&self) -> (r: bool)
        ensures
            r == (self@.len() > 0),
    {
        self.buf.len() > 0
    }

    /// Drain this buffer into a destination queue.
    pub(crate) fn append_to(&mut self, dest: &mut Vec<usize>)
        ensures
            final(dest)@ == old(dest)@ + old(self)@,
            final(self)@ == Seq::<usize>::empty(),
    {
        dest.append(&mut self.buf);
        proof {
            assert(self.buf@ =~= Seq::<usize>::empty());
        }
    }

    /// Move up to `num_items` entries from `src` into this buffer. Returns
    /// whether anything could be moved, that is whether `src` was non-empty
    /// and `num_items` positive.
    ///
    /// Exactly `min(num_items, src.len())` entries move: they are taken from
    /// the end of `src` and appended to this buffer in the order popped
    /// (reversed), so no entry is lost or duplicated. When nothing can move,
    /// both vectors are unchanged.
    pub(crate) fn steal_from(&mut self, num_items: usize, src: &mut Vec<usize>) -> (r: bool)
        ensures
            r == (old(src)@.len() > 0 && num_items > 0),
            !r ==> final(self)@ == old(self)@ && final(src)@ == old(src)@,
            final(src)@ == old(src)@.take(
                old(src)@.len() - min_moved(num_items as int, old(src)@.len() as int),
            ),
            final(self)@.len() == old(self)@.len() + min_moved(
                num_items as int,
                old(src)@.len() as int,
            ),
            forall|i: int| 0 <= i < old(self)@.len() ==> final(self)@[i] == old(self)@[i],
            forall|i: int|
                0 <= i < min_moved(num_items as int, old(src)@.len() as int) ==> (
                #[trigger] final(self)@[old(self)@.len() + i]) == old(src)@[old(src)@.len() - 1
                    - i],
            final(self)@.len() + final(src)@.len() == old(self)@.len() + old(src)@.len(),
            final(src)@.len() <= old(src)@.len(),
            r ==> final(src)@.len() < old(src)@.len(),
            forall|x: usize|
                final(self)@.contains(x) ==> old(self)@.contains(x) || old(src)@.contains(x),
            forall|x: usize| final(src)@.contains(x) ==> old(src)@.contains(x),
            forall|x: usize| old(self)@.contains(x) ==> final(self)@.contains(x),
            forall|x: usize|
                old(src)@.contains(x) ==> final(src)@.contains(x) || final(self)@.contains(x),
    {
        if src.len() == 0 || num_items == 0 {
            proof {
                assert(src@ =~= src@.take(src@.len() as int));
            }
            return false;
        }
        let mut remaining: usize = num_items;
        while remaining > 0 && src.len() > 0
            invariant
                remaining <= num_items,
                num_items > 0,
                old(src)@.len() > 0,
                num_items - remaining <= old(src)@.len(),
                src@ == old(src)@.take(old(src)@.len() - (num_items - remaining)),
                self.buf@.len() == old(self)@.len() + (num_items - remaining),
                forall|i: int| 0 <= i < old(self)@.len() ==> self.buf@[i] == old(self)@[i],
                forall|i: int|
                    0 <= i < num_items - remaining ==> (
                    #[trigger] self.buf@[old(self)@.len() + i]) == old(src)@[old(src)@.len() - 1
                        - i],
                remaining < num_items ==> src@.len() < old(src)@.len(),
                forall|x: usize|
                    self.buf@.contains(x) ==> old(self)@.contains(x) || old(src)@.contains(x),
                forall|x: usize| src@.contains(x) ==> old(src)@.contains(x),
                forall|x: usize| old(self)@.contains(x) ==> self.buf@.contains(x),
                forall|x: usize|
                    old(src)@.contains(x) ==> src@.contains(x) || self.buf@.contains(x),
            decreases remaining,
        {
            let ghost src_before = src@;
            let ghost buf_before = self.buf@;
            let ghost moved = num_items - remaining;
            let item = src.pop().unwrap();
            self.buf.push(item);
            proof {
                lemma_drop_last_contains(src_before);
                lemma_push_contains(buf_before, item);
                assert(src@ == src_before.drop_last());
                assert(self.buf@ == buf_before.push(item));
                assert(src@ =~= old(src)@.take(old(src)@.len() - (moved + 1)));
                assert(item == old(src)@[old(src)@.len() - 1 - moved]);
            }
            remaining = remaining - 1;
        }
        proof {
            let moved = num_items - remaining;
            if remaining == 0 {
                assert(min_moved(num_items as int, old(src)@.len() as int) == moved);
            } else {
                assert(src@.len() == 0);
                assert(moved == old(src)@.len());
                assert(min_moved(num_items as int, old(src)@.len() as int) == moved);
            }
        }
        true
    }
}

/// The number of entries a steal moves: the requested count, capped by what
/// is available.
pub(crate) open spec fn min_moved(num_items: int, available: int) -> int {
    if num_items <= available {
        num_items
    } else {
        available
    }
}

/// How membership changes when the last element of a sequence is dropped.
pub(crate) proof fn lemma_drop_last_contains<T>(s: Seq<T>)
    requires
        s.len() > 0,
    ensures
        forall|x: T| #[trigger] s.drop_last().contains(x) ==> s.contains(x),
        forall|x: T| #[trigger] s.contains(x) ==> s.drop_last().contains(x) || x == s.last(),
        s.contains(s.last()),
{
    assert forall|x: T| #[trigger] s.drop_last().contains(x) implies s.contains(x) by {
        let j = choose|j: int| 0 <= j < s.drop_last().len() && s.drop_last()[j] == x;
        assert(s[j] == x);
    }
    assert forall|x: T| #[trigger] s.contains(x) implies s.drop_last().contains(x) || x
        == s.last() by {
        let j = choose|j: int| 0 <= j < s.len() && s[j] == x;
        if j < s.len() - 1 {
            assert(s.drop_last()[j] == x);
        }
    }
    assert(s[s.len() - 1] == s.last());
}

/// Membership in a concatenation.
pub(crate) proof fn lemma_concat_contains<T>(a: Seq<T>, b: Seq<T>)
    ensures
        forall|x: T| #[trigger] (a + b).contains(x) ==> a.contains(x) || b.contains(x),
        forall|x: T| #[trigger] a.contains(x) ==> (a + b).contains(x),
        forall|x: T| #[trigger] b.contains(x) ==> (a + b).contains(x),
{
    assert forall|x: T| #[trigger] (a + b).contains(x) implies a.contains(x) || b.contains(x) by {
        let j = choose|j: int| 0 <= j < (a + b).len() && (a + b)[j] == x;
        if j < a.len() {
            assert(a[j] == x);
        } else {
            assert(b[j - a.len()] == x);
        }
    }
    assert forall|x: T| #[trigger] a.contains(x) implies (a + b).contains(x) by {
        let j = choose|j: int| 0 <= j < a.len() && a[j] == x;
        assert((a + b)[j] == x);
    }
    assert forall|x: T| #[trigger] b.contains(x) implies (a + b).contains(x) by {
        let j = choose|j: int| 0 <= j < b.len() && b[j] == x;
        assert((a + b)[a.len() + j] == x);
    }
}

/// How membership changes when an element is pushed onto a sequence.
pub(crate) proof fn lemma_push_contains<T>(s: Seq<T>, y: T)
    ensures
        forall|x: T| #[trigger] s.push(y).contains(x) <==> s.contains(x) || x == y,
{
    assert forall|x: T| #[trigger] s.push(y).contains(x) implies s.contains(x) || x == y by {
        let j = choose|j: int| 0 <= j < s.push(y).len() && s.push(y)[j] == x;
        if j < s.len() {
            assert(s[j] == x);
        }
    }
    assert forall|x: T| s.contains(x) || x == y implies #[trigger] s.push(y).contains(x) by {
        if s.contains(x) {
            let j = choose|j: int| 0 <= j < s.len() && s[j] == x;
            assert(s.push(y)[j] == x);
        } else {
            assert(s.push(y)[s.len() as int] == y);
        }
    }
}

} // verus!
