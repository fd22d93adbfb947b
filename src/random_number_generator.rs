use vstd::prelude::*;

verus! {

/// A source of random numbers, one unsigned 32-bit value at a time.
pub trait RandomNumberGenerator {
    fn next_u32(&mut self) -> u32;
}

} // verus!
