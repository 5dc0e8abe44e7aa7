//! Errors supplied to code that consumes the API, so that internal errors are not exposed.
use vstd::prelude::*;

verus! {

/// An error of the mock server, boxing what went wrong.
#[derive(Debug)]
pub struct WebmocketErr<T: ?Sized>(pub Box<T>);

} // verus!
