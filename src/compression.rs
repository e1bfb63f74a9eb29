use vstd::prelude::*;

verus! {

/// A compression level, 0 (none) to 9 (best).
#[derive(Debug, Clone, Copy, PartialEq, Eq, Structural)]
pub struct Compression(pub u8);

impl Compression {
    pub fn new(level: u8) -> (r: Self)
        ensures
            r.0 == level,
    {
        Compression(level)
    }

    /// No compression at all.
    pub fn none() -> (r: Self)
        ensures
            r.0 == 0,
    {
        Self::new(0)
    }

    /// Optimize for the best speed of encoding.
    pub fn fast() -> (r: Self)
        ensures
            r.0 == 1,
    {
        Self::new(1)
    }

    /// Optimize for the size of data being encoded.
    pub fn best() -> (r: Self)
        ensures
            r.0 == 9,
    {
        Self::new(9)
    }

    /// The level as a number.
    pub fn level(&self) -> (r: u8)
        ensures
            r == self.0,
    {
        self.0
    }
}

impl Default for Compression {
    fn default() -> (r: Self)
        ensures
            r.0 == 6,
    {
        Self::new(6)
    }
}

} // verus!
