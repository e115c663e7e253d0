//! Waiting for the first of two things.
use vstd::prelude::*;

verus! {

/// One of two values.
#[derive(Debug)]
pub enum Either<T, U> {
    Left(T),
    Right(U),
}

impl<T, U> Either<T, U> {
    /// The right value, if it is one.
    pub fn right(self) -> (r: Option<U>)
        ensures
            r == match self {
                Either::Left(_) => None::<U>,
                Either::Right(v) => Some(v),
            },
    {
        match self {
            Either::Right(v) => Some(v),
            Either::Left(_) => None,
        }
    }
}

/// One round of waiting for `a` or `b`: each tells with a value that it is ready, and `b` is only
/// asked where `a` is not. `None` means that neither is ready.
pub fn select<T, U, A: FnOnce() -> Option<T>, B: FnOnce() -> Option<U>>(a: A, b: B) -> (r: Option<
    Either<T, U>,
>)
    requires
        a.requires(()),
        a.ensures((), None) ==> b.requires(()),
    ensures
        match r {
            Some(Either::Left(v)) => a.ensures((), Some(v)),
            Some(Either::Right(v)) => a.ensures((), None) && b.ensures((), Some(v)),
            None => a.ensures((), None) && b.ensures((), None),
        },
{
    match a() {
        Some(v) => Some(Either::Left(v)),
        None => match b() {
            Some(v) => Some(Either::Right(v)),
            None => None,
        },
    }
}

/// One round of waiting for `a` or `b`, of which only those whose flag is set are asked. At least
/// one has to be, and `b` is only asked where `a` is not ready.
pub fn guard_select<T, U, A: FnOnce() -> Option<T>, B: FnOnce() -> Option<U>>(
    a: (A, bool),
    b: (B, bool),
) -> (r: Option<Either<T, U>>)
    requires
        a.1 || b.1,
        a.1 ==> a.0.requires(()),
        b.1 && (a.1 ==> a.0.ensures((), None)) ==> b.0.requires(()),
    ensures
        match r {
            Some(Either::Left(v)) => a.1 && a.0.ensures((), Some(v)),
            Some(Either::Right(v)) => {
                &&& a.1 ==> a.0.ensures((), None)
                &&& b.1 && b.0.ensures((), Some(v))
            },
            None => {
                &&& a.1 ==> a.0.ensures((), None)
                &&& b.1 ==> b.0.ensures((), None)
            },
        },
{
    let (poll_a, a_guard) = a;
    let (poll_b, b_guard) = b;
    if a_guard {
        if let Some(v) = poll_a() {
            return Some(Either::Left(v));
        }
    }
    if b_guard {
        if let Some(v) = poll_b() {
            return Some(Either::Right(v));
        }
    }
    None
}

} // verus!
