//! A monotonic allocator of fresh identifiers.
use vstd::prelude::*;

verus! {

/// A monotonic allocator of fresh integer identifiers.
#[derive(Debug)]
pub struct Counter {
    pub value: u32,
}

impl Counter {
    pub fn new() -> (r: Self)
        ensures
            r.value == 0,
    {
        Counter { value: 0 }
    }

    /// Hands out the current value and advances past it.
    pub fn tick(&mut self) -> (r: u32)
        requires
            old(self).value < u32::MAX,
        ensures
            r == old(self).value,
            final(self).value == old(self).value + 1,
    {
        let return_value = self.value;
        self.value = self.value + 1;
        return_value
    }

    pub fn reset(&mut self)
        ensures
            final(self).value == 0,
    {
        self.value = 0;
    }
}

} // verus!
