//! A byte paired with its count.

use vstd::prelude::*;

verus! {

/// A byte and how often it occurs.
#[derive(PartialEq, Eq, Debug, Hash, Clone, Copy)]
pub struct ByteFreq {
    pub byte: u8,
    pub frequency: u64,
}

impl ByteFreq {
    /// Pair `byte` with its count.
    pub fn new(byte: u8, frequency: u64) -> (r: Self)
        ensures
            r == (ByteFreq { byte, frequency }),
    {
        Self { byte, frequency }
    }

    /// The byte.
    pub fn byte(&self) -> (r: u8)
        ensures
            r == self.byte,
    {
        self.byte
    }

    /// Its count.
    pub fn freq(&self) -> (r: u64)
        ensures
            r == self.frequency,
    {
        self.frequency
    }
}

} // verus!
