//! The inferred value type of a series.

use vstd::prelude::*;

verus! {

/// What kind of values a column holds: date-and-time stamps or plain
/// integers.
#[derive(Clone, Copy, Debug, PartialEq, Eq, Structural)]
pub enum Nature {
    /// A date column; the payload is the UTC offset, in seconds, of the
    /// first parsed cell, kept for the whole column.
    Date(i32),
    /// A plain integer column.
    Integer,
}

} // verus!
