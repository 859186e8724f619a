//! Why something was refused.

use vstd::prelude::*;

use crate::text;

verus! {

/// Why an input was refused, in words.
#[derive(Clone, Debug, PartialEq, Eq)]
pub struct Refusal {
    pub message: String,
}

impl View for Refusal {
    type V = Seq<char>;

    open spec fn view(&self) -> Seq<char> {
        self.message@
    }
}

/// What a figure that no decimal can hold is refused with.
pub open spec fn out_of_range() -> Seq<char> {
    "a figure is out of range"@
}

impl Refusal {
    pub fn new(message: &str) -> (r: Refusal)
        ensures
            r@ == message@,
    {
        Refusal { message: text::copy(message) }
    }

    /// The message.
    pub fn text(&self) -> (r: String)
        ensures
            r@ == self@,
    {
        text::copy(self.message.as_str())
    }

    pub(crate) fn out_of_range() -> (r: Refusal)
        ensures
            r@ == out_of_range(),
    {
        Refusal::new("a figure is out of range")
    }
}

} // verus!
