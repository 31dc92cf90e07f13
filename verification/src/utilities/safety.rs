//! Values that carry a proof of their range with them.
use vstd::prelude::*;

verus! {

/// A byte between `MIN` and `MAX`, both included.
pub struct LimitedU8<const MIN: u8, const MAX: u8>(u8);

impl<const MIN: u8, const MAX: u8> LimitedU8<MIN, MAX> {
    /// The byte.
    pub closed spec fn spec_value(&self) -> u8 {
        self.0
    }

    #[verifier::type_invariant]
    spec fn in_range(self) -> bool {
        MIN <= self.0 <= MAX
    }

    /// `value` as a limited byte, if it lies between the limits.
    pub fn new(value: u8) -> (limited: Option<Self>)
        ensures
            limited is Some == (MIN <= value <= MAX),
            limited matches Some(limited) ==> limited.spec_value() == value,
    {
        if value >= MIN && value <= MAX {
            Some(LimitedU8(value))
        } else {
            None
        }
    }

    /// The byte, which lies between the limits.
    pub fn value(&self) -> (value: u8)
        ensures
            value == self.spec_value(),
            MIN <= value <= MAX,
    {
        proof {
            use_type_invariant(self);
        }
        self.0
    }
}

impl<const MIN: u8, const MAX: u8> core::ops::Deref for LimitedU8<MIN, MAX> {
    type Target = u8;

    fn deref(&self) -> (value: &u8)
        ensures
            *value == self.spec_value(),
            MIN <= *value <= MAX,
    {
        proof {
            use_type_invariant(self);
        }
        &self.0
    }
}

} // verus!
