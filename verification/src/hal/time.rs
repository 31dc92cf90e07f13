//! Time as the drivers see it.
use vstd::prelude::*;

verus! {

/// A span of time, or the time since some fixed moment, in milliseconds.
#[derive(Clone, Copy, Debug, PartialEq, Eq, PartialOrd, Ord, Structural)]
pub struct Milliseconds(pub u32);

/// A frequency in hertz.
#[derive(Clone, Copy, Debug, PartialEq, Eq, PartialOrd, Ord, Structural)]
pub struct Hertz(pub u32);

/// A frequency in megahertz.
#[derive(Clone, Copy, Debug, PartialEq, Eq, PartialOrd, Ord, Structural)]
pub struct MegaHertz(pub u32);

impl MegaHertz {
    /// The frequency in hertz.
    pub fn hertz(self) -> (hertz: Hertz)
        requires
            self.0 * 1_000_000 <= u32::MAX,
        ensures
            hertz.0 == self.0 * 1_000_000,
    {
        Hertz(self.0 * 1_000_000)
    }
}

/// A clock.
pub trait Now {
    /// The time that has passed since a moment that the clock chose.
    /// Nothing is known of it beforehand.
    fn now() -> Milliseconds;
}

/// The time from `earlier` to `later`, or none where `earlier` is the later
/// of the two.
pub fn elapsed(earlier: Milliseconds, later: Milliseconds) -> (span: Milliseconds)
    ensures
        span.0 == if later.0 >= earlier.0 {
            later.0 - earlier.0
        } else {
            0
        },
{
    if later.0 >= earlier.0 {
        Milliseconds(later.0 - earlier.0)
    } else {
        Milliseconds(0)
    }
}

} // verus!
