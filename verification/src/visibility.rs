//! Display state of an axis tick label in the rendered chart.

use vstd::prelude::*;

verus! {

/// How a tick (and its label) is shown: normally, dimmed, or only on hover.
#[derive(Clone, Copy, Debug, PartialEq, Eq, Structural)]
pub enum Visibility {
    Visible,
    Faded,
    Invisible,
}

impl Visibility {
    /// The CSS class used by the rendering layer for this visibility.
    pub fn css_class(self) -> (r: &'static str)
        ensures
            self == Visibility::Visible ==> r@ == "std"@,
            self == Visibility::Faded ==> r@ == "fad"@,
            self == Visibility::Invisible ==> r@ == "inv"@,
    {
        match self {
            Visibility::Visible => "std",
            Visibility::Faded => "fad",
            Visibility::Invisible => "inv",
        }
    }
}

} // verus!
