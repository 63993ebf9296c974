//! Positions in subpixels

use vstd::prelude::*;

verus! {

/// A position in subpixels
#[derive(Debug, Copy, Clone, PartialEq, Eq, Structural, Default)]
pub struct Subpixel(pub i64);

impl Subpixel {
    pub fn value(self) -> (r: i64)
        ensures
            r == self.0,
    {
        self.0
    }
}

impl From<i64> for Subpixel {
    fn from(v: i64) -> (s: Self) {
        Subpixel(v)
    }
}

impl vstd::std_specs::convert::FromSpecImpl<i64> for Subpixel {
    open spec fn obeys_from_spec() -> bool {
        true
    }

    open spec fn from_spec(v: i64) -> Self {
        Subpixel(v)
    }
}

/// The whole pixel that a subpixel position lies in
impl From<Subpixel> for i64 {
    fn from(v: Subpixel) -> (p: Self) {
        proof { crate::fixed::lemma_shr8(v.0); }
        v.0 >> 8i64
    }
}

impl vstd::std_specs::convert::FromSpecImpl<Subpixel> for i64 {
    open spec fn obeys_from_spec() -> bool {
        true
    }

    open spec fn from_spec(v: Subpixel) -> Self {
        (v.0 as int / 256) as i64
    }
}

} // verus!
