//! Errors that carry where they passed through: the error itself and a
//! trail of source locations.
use vstd::prelude::*;

verus! {

/// An error and the trail of `(file, line)` locations it was passed on from.
pub struct Error<E> {
    pub error: E,
    pub trace: Vec<(&'static str, u32)>,
}

/// Making an `Error` from something else.
pub trait FromError<E>: Sized {
    fn from_error(e: E) -> Self;
}

impl<E> FromError<Error<E>> for Error<E> {
    /// An `Error` is kept as it is, trail included.
    fn from_error(e: Error<E>) -> (r: Self)
        ensures
            r == e,
    {
        e
    }
}

impl<E> FromError<E> for Error<E> {
    /// A plain error starts with an empty trail.
    fn from_error(e: E) -> (r: Self)
        ensures
            r.error == e,
            r.trace@.len() == 0,
    {
        Error { error: e, trace: Vec::new() }
    }
}

impl<E> Error<E> {
    /// Adds the location an error is passed on from.
    pub fn traced(self, file: &'static str, line: u32) -> (r: Self)
        ensures
            r.error == self.error,
            r.trace@ == self.trace@.push((file, line)),
    {
        let mut e = self;
        e.trace.push((file, line));
        e
    }
}

impl<E> core::ops::Deref for Error<E> {
    type Target = E;

    fn deref(&self) -> (r: &E)
        ensures
            *r == self.error,
    {
        &self.error
    }
}

} // verus!
