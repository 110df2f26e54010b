//! Tri-color mark state.
//!
//! Objects are White (potentially unreachable), Gray (discovered but not yet
//! scanned) or Black (scanned). Marking only ever darkens a color; sweep
//! resets survivors to White.

use vstd::prelude::*;

verus! {

/// The color of an object in the tri-color marking algorithm.
#[derive(Clone, Copy, Debug, PartialEq, Eq, Structural)]
pub enum Color {
    /// Potentially unreachable, candidate for collection.
    White,
    /// Reachable but not yet scanned.
    Gray,
    /// Reachable and fully scanned.
    Black,
}

/// The color encoded by a byte: 0 is White, 1 is Gray, 2 is Black, and any
/// other value falls back to White.
pub open spec fn color_of_byte(value: u8) -> Color {
    if value == 1 {
        Color::Gray
    } else if value == 2 {
        Color::Black
    } else {
        Color::White
    }
}

impl Color {
    /// Position of the color in the darkening order White, Gray, Black.
    pub open spec fn rank(self) -> int {
        match self {
            Color::White => 0,
            Color::Gray => 1,
            Color::Black => 2,
        }
    }

    /// `a.le(b)` holds when `b` is at least as dark as `a`; marking only
    /// moves colors up this order.
    pub open spec fn le(self, other: Color) -> bool {
        self.rank() <= other.rank()
    }
}

impl From<u8> for Color {
    fn from(value: u8) -> (r: Color) {
        if value == 1 {
            Color::Gray
        } else if value == 2 {
            Color::Black
        } else {
            Color::White
        }
    }
}

impl vstd::std_specs::convert::FromSpecImpl<u8> for Color {
    open spec fn obeys_from_spec() -> bool {
        true
    }

    open spec fn from_spec(v: u8) -> Color {
        color_of_byte(v)
    }
}

/// Mark state of one object. The engine this models keeps the color in an
/// atomic byte; here a single mutator drives the collector, so the cell is a
/// plain value and each operation carries an exact contract.
pub struct AtomicColor {
    inner: Color,
}

impl View for AtomicColor {
    type V = Color;

    closed spec fn view(&self) -> Color {
        self.inner
    }
}

impl AtomicColor {
    pub fn new(color: Color) -> (r: AtomicColor)
        ensures
            r@ == color,
    {
        AtomicColor { inner: color }
    }

    pub fn load(&self) -> (r: Color)
        ensures
            r == self@,
    {
        self.inner
    }

    pub fn store(&mut self, color: Color)
        ensures
            final(self)@ == color,
    {
        self.inner = color;
    }

    pub fn compare_exchange(&mut self, current: Color, new: Color) -> (r: Result<Color, Color>)
        ensures
            old(self)@ == current ==> final(self)@ == new && r == Ok::<Color, Color>(current),
            old(self)@ != current ==> final(self)@ == old(self)@ && r == Err::<Color, Color>(
                old(self)@,
            ),
    {
        if self.inner == current {
            self.inner = new;
            Ok(current)
        } else {
            Err(self.inner)
        }
    }

    /// The discovery transition: White becomes Gray; returns whether this
    /// call performed the transition.
    pub fn mark_white_to_gray(&mut self) -> (r: bool)
        ensures
            r == (old(self)@ == Color::White),
            final(self)@ == if old(self)@ == Color::White {
                Color::Gray
            } else {
                old(self)@
            },
    {
        self.compare_exchange(Color::White, Color::Gray).is_ok()
    }

    /// The scanned transition: the color becomes Black unconditionally.
    pub fn mark_black(&mut self)
        ensures
            final(self)@ == Color::Black,
    {
        self.store(Color::Black);
    }

    /// Sweep resets a survivor to White for the next cycle.
    pub fn reset_white(&mut self)
        ensures
            final(self)@ == Color::White,
    {
        self.store(Color::White);
    }

    pub fn is_white(&self) -> (r: bool)
        ensures
            r == (self@ == Color::White),
    {
        self.load() == Color::White
    }
}

} // verus!
