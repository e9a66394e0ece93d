//! The pointer value that the embedding script layer passes around: a plain
//! 64-bit address wrapper usable for memory reads and writes.

use vstd::prelude::*;

verus! {

/// An address as the scripting layer holds it.
#[derive(Debug, Clone, Copy, PartialEq, Eq, Structural)]
pub struct LuaPtr {
    inner: u64,
}

impl LuaPtr {
    pub closed spec fn spec_value(self) -> u64 {
        self.inner
    }

    pub fn new(inner: u64) -> (r: Self)
        ensures
            r.spec_value() == inner,
    {
        Self { inner }
    }

    pub fn to_u64(self) -> (r: u64)
        ensures
            r == self.spec_value(),
    {
        self.inner
    }

    /// The address as a `usize`: the value itself where it fits, and its
    /// truncation on targets whose addresses are narrower than 64 bits.
    pub fn to_usize(self) -> (r: usize)
        ensures
            r as int == self.spec_value() as int % (usize::MAX as int + 1),
            self.spec_value() <= usize::MAX ==> r == self.spec_value(),
    {
        let m = usize::MAX as u64;
        if self.inner <= m {
            proof {
                vstd::arithmetic::div_mod::lemma_small_mod(
                    self.inner as nat,
                    (usize::MAX as nat) + 1,
                );
            }
            self.inner as usize
        } else {
            (self.inner % (m + 1)) as usize
        }
    }
}

} // verus!
