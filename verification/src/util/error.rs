//! An error that is a text.
use vstd::prelude::*;

verus! {

/// An error that says what went wrong in words; it travels to the other side as it is.
#[derive(Clone, Debug)]
pub struct StrError(String);

impl View for StrError {
    type V = Seq<char>;

    /// The words.
    closed spec fn view(&self) -> Seq<char> {
        self.0@
    }
}

impl StrError {
    /// The error that says `v`.
    pub fn new(v: &str) -> (r: StrError)
        ensures
            r@ == v@,
    {
        StrError(v.to_owned())
    }

    /// What the error says.
    pub fn as_str(&self) -> (r: &str)
        ensures
            r@ == self@,
    {
        self.0.as_str()
    }
}

} // verus!
