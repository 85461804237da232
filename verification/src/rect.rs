//! A plain rectangle in integer coordinates.

use vstd::prelude::*;

verus! {

/// An axis-aligned rectangle given by its top-left corner and its size.
/// The height may be negative, which is used to flip an axis.
#[derive(Clone, Copy, Debug, PartialEq, Eq, Structural)]
pub struct Rect {
    pub left: i64,
    pub top: i64,
    pub width: i64,
    pub height: i64,
}

impl Rect {
    pub fn new(left: i64, top: i64, width: i64, height: i64) -> (r: Rect)
        ensures
            r == (Rect { left, top, width, height }),
    {
        Rect { left, top, width, height }
    }

    /// The coordinate of the bottom edge, `top + height`.
    pub fn bottom(&self) -> (r: i64)
        requires
            i64::MIN <= self.top + self.height <= i64::MAX,
        ensures
            r == self.top + self.height,
    {
        self.top + self.height
    }
}

} // verus!
