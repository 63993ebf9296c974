//! Styles of the ends and joins of stroked lines

use vstd::prelude::*;

verus! {

/// Line End or Cap Style
#[derive(Debug, Copy, Clone, PartialEq, Eq, Structural)]
pub enum LineCap {
    Butt,
    Square,
    Round,
}

/// Lines Join Style on the outside
#[derive(Debug, Copy, Clone, PartialEq, Eq, Structural)]
pub enum LineJoin {
    Miter,
    MiterRevert,
    Round,
    Bevel,
    MiterRound,
    MiterAccurate,
    NoJoin,
}

/// Lines Join Style on the inside
#[derive(Debug, Copy, Clone, PartialEq, Eq, Structural)]
pub enum InnerJoin {
    Bevel,
    Miter,
    Jag,
    Round,
}

} // verus!
