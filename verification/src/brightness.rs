//! A newtype for the brightness level a renderer applies to a tile.
//!
//! The falloff value itself is a pure function of the distance to the
//! observer and the observer's vision radius; computing it is the renderer's
//! business.  The library only carries the 8-bit level, 255 being full
//! brightness.

use vstd::prelude::*;

verus! {

/// A newtype for the brightness level, max is 255.
#[derive(Debug, Copy, Clone, Eq, PartialEq, Structural)]
pub struct Brightness(pub u8);

impl Brightness {
    pub fn new(level: u8) -> (r: Self)
        ensures
            r.0 == level,
    {
        Self(level)
    }

    pub fn level(&self) -> (r: u8)
        ensures
            r == self.0,
    {
        self.0
    }
}

impl Default for Brightness {
    fn default() -> (r: Self)
        ensures
            r.0 == 255,
    {
        Self(255)
    }
}

} // verus!
