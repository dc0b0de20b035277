//! Byte strings as text.
use vstd::prelude::*;
use vstd::string::StringSliceAdditionalSpecFns;
use vstd::utf8::valid_utf8;

verus! {

/// Relies on `std::str::from_utf8`: it succeeds exactly on valid UTF-8, and the
/// string it returns has the given bytes.
#[verifier::external_body]
pub(crate) fn str_from_utf8<'b>(b: &'b [u8]) -> (r: Option<&'b str>)
    ensures
        r.is_some() == valid_utf8(b@),
        r.is_some() ==> r.unwrap().spec_bytes() == b@,
{
    std::str::from_utf8(b).ok()
}

} // verus!
