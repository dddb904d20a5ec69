//! The canonical text of a GUID.

use crate::text::hex_text;
use vstd::prelude::*;

verus! {

/// The sixteen bytes of a GUID in lower-case hexadecimal, in the order in
/// which they stand, in groups of four, two, two, two and six bytes with a
/// hyphen between one group and the next.
pub open spec fn guid_text(bytes: Seq<u8>) -> Seq<char> {
    hex_text(bytes.subrange(0, 4), false) + seq!['-'] + hex_text(bytes.subrange(4, 6), false)
        + seq!['-'] + hex_text(bytes.subrange(6, 8), false) + seq!['-'] + hex_text(
        bytes.subrange(8, 10),
        false,
    ) + seq!['-'] + hex_text(bytes.subrange(10, 16), false)
}

/// `uuid::Uuid::from_bytes` takes the sixteen bytes as they stand, and the
/// `Display` of the `Uuid` writes them hyphenated in lower-case hexadecimal.
#[verifier::external_body]
pub(crate) fn guid_to_string(v: &[u8; 16]) -> (s: String)
    ensures
        s@ == guid_text(v@),
{
    uuid::Uuid::from_bytes(*v).to_string()
}

} // verus!
