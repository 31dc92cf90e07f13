//! A clock for tests.
use crate::hal::time::Milliseconds;
use crate::hal::time::Now;
use vstd::prelude::*;

verus! {

/// A clock that stands still.
pub struct MockSysTick;

impl Now for MockSysTick {
    fn now() -> (time: Milliseconds)
        ensures
            time == Milliseconds(0),
    {
        Milliseconds(0)
    }
}

} // verus!
