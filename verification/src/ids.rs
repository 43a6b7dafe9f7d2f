//! Random identifiers for jobs and nodes.

use uuid::Uuid;
use vstd::prelude::*;

use crate::hash::hex_digit;

verus! {

/// `c` is a lowercase hexadecimal digit.
pub open spec fn is_hex_digit(c: char) -> bool {
    exists|d: int| 0 <= d < 16 && #[trigger] hex_digit(d) == c
}

/// The text of a random identifier: 32 hexadecimal digits in five groups, with the version
/// and the variant of a random UUID.
pub open spec fn is_random_id(text: Seq<char>) -> bool {
    &&& text.len() == 36
    &&& forall|i: int|
        0 <= i < 36 ==> if i == 8 || i == 13 || i == 18 || i == 23 {
            #[trigger] text[i] == '-'
        } else {
            is_hex_digit(text[i])
        }
    &&& text[14] == '4'
    &&& text[19] == '8' || text[19] == '9' || text[19] == 'a' || text[19] == 'b'
}

/// Calls `uuid::Uuid::new_v4` and takes the text of the result. Trusted: the text is that of
/// a random UUID, in lowercase with hyphens. Which one it is, is left to chance.
#[verifier::external_body]
pub(crate) fn random_id() -> (r: String)
    ensures
        is_random_id(r@),
{
    Uuid::new_v4().to_string()
}

} // verus!
