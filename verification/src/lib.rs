//! Typed HTTP headers.
//!
//! A header type implements [`Header`]: it has a fixed name, it can be
//! decoded from the raw values received for that name, and it can be
//! encoded back into raw values.  Raw values are byte strings restricted
//! to the bytes allowed in an HTTP header field value ([`value::HeaderValue`]).
//!
//! The one header type provided here is
//! [`www_authenticate::WwwAuthenticate`], whose value is an authentication
//! scheme token followed by a comma-separated list of `key=value`
//! parameters.

use vstd::prelude::*;

pub mod csv;
pub mod value;
pub mod www_authenticate;

verus! {

/// The single error of this crate: the header to decode is missing or
/// invalid.
#[derive(Clone, Copy, Debug, PartialEq, Eq, Structural)]
pub struct Error;

impl Error {
    /// The error for a header that is missing or invalid.
    pub fn invalid() -> (e: Error)
        ensures
            e == (Error {}),
    {
        Error {}
    }
}

/// A typed header: a fixed name, a decoder from raw values and an encoder
/// back to raw values.
pub trait Header: Sized {
    /// The lowercase name of the header.
    fn name() -> (r: &'static str);

    /// Decode the typed value from the raw values received under this
    /// header's name.  An empty value list is an error for every header
    /// type.
    fn decode(values: &Vec<crate::value::HeaderValue>) -> (r: Result<Self, Error>)
        ensures
            values@.len() == 0 ==> r is Err,
    ;

    /// Append the raw values that carry `self` to `values`.
    fn encode(&self, values: &mut Vec<crate::value::HeaderValue>);
}

} // verus!
