//! Raw header values: byte strings restricted to the bytes allowed in an
//! HTTP header field value.

use vstd::prelude::*;

verus! {

/// A byte that may appear in a header field value: horizontal tab, or any
/// byte from the space character on, except `DEL` (127).  Control bytes
/// other than tab are excluded.
pub open spec fn valid_value_byte(b: u8) -> bool {
    b == 9 || (32 <= b && b != 127)
}

/// Every byte of `s` may appear in a header field value.
pub open spec fn valid_value_bytes(s: Seq<u8>) -> bool {
    forall|i: int| 0 <= i < s.len() ==> valid_value_byte(s[i])
}

/// A byte that renders as text: visible ASCII, space or horizontal tab.
pub open spec fn visible_ascii_byte(b: u8) -> bool {
    b == 9 || (32 <= b && b < 127)
}

/// Every byte of `s` renders as text.
pub open spec fn visible_ascii(s: Seq<u8>) -> bool {
    forall|i: int| 0 <= i < s.len() ==> visible_ascii_byte(s[i])
}

/// One raw value of a header field.  The view is the byte string; every
/// byte of it satisfies [`valid_value_byte`].
pub struct HeaderValue {
    bytes: Vec<u8>,
}

impl View for HeaderValue {
    type V = Seq<u8>;

    closed spec fn view(&self) -> Seq<u8> {
        self.bytes@
    }
}

impl HeaderValue {
    /// Every raw value that can be constructed holds only bytes allowed
    /// in a header field value.
    #[verifier::type_invariant]
    pub open spec fn wf(self) -> bool {
        valid_value_bytes(self@)
    }

    /// Turn a byte string into a raw header value; rejected exactly when
    /// some byte may not appear in a header field value.
    pub fn from_bytes(bytes: Vec<u8>) -> (r: Result<HeaderValue, crate::Error>)
        ensures
            match r {
                Ok(v) => valid_value_bytes(bytes@) && v@ == bytes@,
                Err(_) => !valid_value_bytes(bytes@),
            },
    {
        let mut i: usize = 0;
        while i < bytes.len()
            invariant
                i <= bytes.len(),
                forall|j: int| 0 <= j < i ==> valid_value_byte(bytes@[j]),
            decreases bytes.len() - i,
        {
            let b = bytes[i];
            if !(b == 9 || (32 <= b && b != 127)) {
                return Err(crate::Error::invalid());
            }
            i = i + 1;
        }
        Ok(HeaderValue { bytes })
    }

    /// The bytes of this raw value.
    pub fn as_bytes(&self) -> (r: &Vec<u8>)
        ensures
            r@ == self@,
    {
        &self.bytes
    }

    /// Construct a raw value from bytes already known to be allowed.
    pub(crate) fn from_valid(bytes: Vec<u8>) -> (r: HeaderValue)
        requires
            valid_value_bytes(bytes@),
        ensures
            r@ == bytes@,
    {
        HeaderValue { bytes }
    }
}

} // verus!
