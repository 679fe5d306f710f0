//! Errors of the library.

use vstd::prelude::*;

verus! {

/// A stored record that does not decode.
#[derive(Debug, Default, Clone, Copy, PartialEq, Eq, Structural)]
pub struct MyCorruptedDBError {}

impl MyCorruptedDBError {
    pub fn message(&self) -> (r: &'static str)
        ensures
            r@ == "Wrong data in DB."@,
    {
        "Wrong data in DB."
    }
}

/// A configured header name that is not a valid header name.
#[derive(Debug, Default, Clone, Copy, PartialEq, Eq, Structural)]
pub struct InvalidHeaderNameError {}

impl InvalidHeaderNameError {
    pub fn message(&self) -> (r: &'static str)
        ensures
            r@ == "Invalid header name."@,
    {
        "Invalid header name."
    }
}

/// A configured header value that is not a valid header value.
#[derive(Debug, Default, Clone, Copy, PartialEq, Eq, Structural)]
pub struct InvalidHeaderValueError {}

impl InvalidHeaderValueError {
    pub fn message(&self) -> (r: &'static str)
        ensures
            r@ == "Invalid header value."@,
    {
        "Invalid header value."
    }
}

/// What can go wrong in the library.
#[derive(Debug, Clone, Copy, PartialEq, Eq, Structural)]
pub enum MyError {
    /// A stored record that does not decode.
    MyCorruptedDB(MyCorruptedDBError),
    /// A header name that is not a valid header name.
    InvalidHeaderName(InvalidHeaderNameError),
    /// A header value that is not a valid header value.
    InvalidHeaderValue(InvalidHeaderValueError),
    /// A header value that does not read as text.
    HeaderToStr,
    /// Neither a fixed upstream nor a `Host` header to resolve the upstream from.
    MissingHost,
    /// An upstream URL without a host.
    NoHost,
    /// A duration that is not a number followed by a known unit.
    InvalidDuration,
}

} // verus!
