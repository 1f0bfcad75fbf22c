//! Validation of header names and header values, delegated to the `http` crate.
use vstd::prelude::*;

verus! {

/// What `http::HeaderName::from_bytes` makes of a byte string: `None` when the
/// bytes are no header name, else the normalised (lower-case) name.
pub uninterp spec fn parsed_header_name(b: Seq<u8>) -> Option<Seq<u8>>;

/// A header name in normal form: it parses to itself.
pub open spec fn valid_name(n: Seq<u8>) -> bool {
    parsed_header_name(n) == Some(n)
}

/// A byte that may occur in a header value: visible ASCII, a tab, or any byte
/// from 0x80 up.
pub open spec fn value_byte(b: u8) -> bool {
    (b >= 32 && b != 127) || b == 9
}

pub open spec fn valid_value(v: Seq<u8>) -> bool {
    forall|i: int| 0 <= i < v.len() ==> value_byte(#[trigger] v[i])
}

/// Relies on `http::HeaderName::from_bytes`, read back through `as_str`: the
/// normalised name, or `None` where the bytes are rejected. A normalised name
/// is made of lower-case token bytes, which parse to themselves.
#[verifier::external_body]
pub(crate) fn parse_name(b: &[u8]) -> (r: Option<Vec<u8>>)
    ensures
        match r {
            Some(n) => parsed_header_name(b@) == Some(n@) && parsed_header_name(n@) == Some(n@),
            None => parsed_header_name(b@).is_none(),
        },
{
    http::HeaderName::from_bytes(b).ok().map(|n| n.as_str().as_bytes().to_vec())
}

/// Relies on `http::HeaderValue::from_bytes`, which accepts exactly the byte
/// strings whose every byte is a tab, visible ASCII, or 0x80 and above.
#[verifier::external_body]
pub(crate) fn check_value(b: &[u8]) -> (r: bool)
    ensures
        r == valid_value(b@),
{
    http::HeaderValue::from_bytes(b).is_ok()
}

} // verus!
