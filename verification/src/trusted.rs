//! Wrappers around functions of std that vstd gives no specification.

use vstd::prelude::*;

verus! {

/// Relies on `String::from_utf8`: ASCII bytes are valid UTF-8 and decode to
/// exactly one character per byte, with the same code points.
#[verifier::external_body]
pub(crate) fn ascii_to_string(bytes: Vec<u8>) -> (r: String)
    requires
        forall|i: int| 0 <= i < bytes@.len() ==> bytes@[i] < 128,
    ensures
        r@ == bytes@.map_values(|b: u8| b as char),
        vstd::utf8::is_ascii_chars(r@),
{
    String::from_utf8(bytes).unwrap()
}

} // verus!
