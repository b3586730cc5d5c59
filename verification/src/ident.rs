//! Fresh identifiers for `Generate` requests.

use vstd::prelude::*;

verus! {

/// Whether `c` is a digit of a lower-case hexadecimal number.
pub open spec fn is_hex_digit(c: char) -> bool {
    ('0' <= c && c <= '9') || ('a' <= c && c <= 'f')
}

/// Whether `s` has the shape of a written-out identifier: 36 characters, a
/// hyphen after the 8th, 12th, 16th and 20th digit, hexadecimal digits
/// elsewhere.
pub open spec fn is_uuid_text(s: Seq<char>) -> bool {
    &&& s.len() == 36
    &&& forall|i: int|
        0 <= i < 36 ==> if i == 8 || i == 13 || i == 18 || i == 23 {
            #[trigger] s[i] == '-'
        } else {
            is_hex_digit(s[i])
        }
}

/// A new random identifier, written out.
///
/// Calls `uuid::Uuid::new_v4` and writes the result with its `Display`, which
/// is the hyphenated lower-case form. Which identifier comes back is not
/// stated, only the shape that every one of them has.
#[verifier::external_body]
pub(crate) fn generate_id() -> (id: String)
    ensures
        is_uuid_text(id@),
{
    uuid::Uuid::new_v4().to_string()
}

} // verus!
