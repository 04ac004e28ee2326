//! Helpers for exhaustive numeric testing.
use vstd::prelude::*;

verus! {

/// A restartable walk over all 32-bit patterns, used to test numeric
/// kernels against every possible 32-bit float. Each instance owns its
/// own position; the caller turns each pattern into a float.
pub struct AllF32s {
    /// The next bit pattern to yield.
    pub next: u32,
}

impl AllF32s {
    /// A walk starting from the zero pattern.
    pub fn new() -> (r: AllF32s)
        ensures
            r.next == 0,
    {
        AllF32s { next: 0 }
    }

    /// The next bit pattern, or `None` once the walk has passed the
    /// penultimate pattern.
    pub fn next_bits(&mut self) -> (r: Option<u32>)
        ensures
            old(self).next == u32::MAX ==> r is None && final(self).next == old(self).next,
            old(self).next < u32::MAX ==> r == Some(old(self).next) && final(self).next == old(
                self,
            ).next + 1,
    {
        if self.next == u32::MAX {
            None
        } else {
            let current = self.next;
            self.next = self.next + 1;
            Some(current)
        }
    }

    /// How many patterns remain.
    pub fn remaining(&self) -> (r: usize)
        ensures
            r == u32::MAX - self.next,
    {
        (u32::MAX - self.next) as usize
    }
}

} // verus!
