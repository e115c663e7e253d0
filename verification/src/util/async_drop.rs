//! A holder for a value that has to be given back in its own way.
use vstd::prelude::*;

verus! {

/// Holds a value until it is taken out for its release, which happens once.
#[derive(Debug)]
pub struct Dropper<T>(Option<T>);

impl<T> View for Dropper<T> {
    type V = Option<T>;

    /// The value, unless it was taken out.
    closed spec fn view(&self) -> Option<T> {
        self.0
    }
}

impl<T> Dropper<T> {
    /// Holds `v`.
    pub fn new(v: T) -> (r: Dropper<T>)
        ensures
            r@ == Some(v),
    {
        Dropper(Some(v))
    }

    /// The value.
    pub fn deref(&self) -> (r: &T)
        requires
            self@ is Some,
        ensures
            self@ == Some(*r),
    {
        self.0.as_ref().unwrap()
    }

    /// The value, to be changed in place.
    pub fn deref_mut(&mut self) -> (r: &mut T)
        requires
            old(self)@ is Some,
        ensures
            old(self)@ == Some(*r),
            final(self)@ == Some(*final(r)),
    {
        self.0.as_mut().unwrap()
    }

    /// Takes the value out for its release. Every later call gives `None`.
    pub fn drop(&mut self) -> (r: Option<T>)
        ensures
            r == old(self)@,
            final(self)@ is None,
    {
        self.0.take()
    }
}

} // verus!
